//! Searching sorted layers of a trie.

use vstd::prelude::*;
use vstd::arithmetic::power2::is_pow2;

verus! {

/// Every call of `f` on `s[i]` answers `true`.
pub open spec fn holds_at<T, F: Fn(&T) -> bool>(f: F, s: Seq<T>, i: int) -> bool {
    forall|b: bool| #[trigger] call_ensures(f, (&s[i],), b) ==> b
}

/// Every call of `f` on `s[i]` answers `false`.
pub open spec fn fails_at<T, F: Fn(&T) -> bool>(f: F, s: Seq<T>, i: int) -> bool {
    forall|b: bool| #[trigger] call_ensures(f, (&s[i],), b) ==> !b
}

/// Once `f` answers `false` on an element, it answers `false` on it and on
/// every later element.
pub open spec fn stays_false<T, F: Fn(&T) -> bool>(f: F, s: Seq<T>) -> bool {
    forall|i: int, j: int, b: bool, c: bool|
        0 <= i <= j < s.len() && #[trigger] call_ensures(f, (&s[i],), b) && #[trigger] call_ensures(
            f,
            (&s[j],),
            c,
        ) && !b ==> !c
}

proof fn lemma_true_below<T, F: Fn(&T) -> bool>(f: F, s: Seq<T>, i: int, v: bool)
    requires
        stays_false(f, s),
        0 <= i < s.len(),
        call_ensures(f, (&s[i],), v),
        v,
    ensures
        forall|j: int| 0 <= j <= i ==> holds_at(f, s, j),
{
    assert forall|j: int| 0 <= j <= i implies holds_at(f, s, j) by {
        assert forall|b: bool| #[trigger] call_ensures(f, (&s[j],), b) implies b by {
            if !b {
                assert(!v);
            }
        }
    }
}

proof fn lemma_false_above<T, F: Fn(&T) -> bool>(f: F, s: Seq<T>, i: int, v: bool)
    requires
        stays_false(f, s),
        0 <= i < s.len(),
        call_ensures(f, (&s[i],), v),
        !v,
    ensures
        forall|j: int| i <= j < s.len() ==> fails_at(f, s, j),
{
    assert forall|j: int| i <= j < s.len() implies fails_at(f, s, j) by {
        assert forall|b: bool| #[trigger] call_ensures(f, (&s[j],), b) implies !b by {
        }
    }
}

/// Reports the number of elements satisfying the predicate.
///
/// The predicate must stay false once it becomes false on the slice: the
/// elements that satisfy it form a prefix, and its length is returned. Past
/// the first few elements the prefix is found by exponential search, in time
/// logarithmic in the result.
pub fn advance<T, F: Fn(&T) -> bool>(slice: &[T], function: F) -> (r: usize)
    requires
        forall|i: int| 0 <= i < slice@.len() ==> call_requires(function, (&slice@[i],)),
    ensures
        r <= slice@.len(),
        stays_false(function, slice@) ==> forall|i: int| 0 <= i < r ==> holds_at(function, slice@, i),
        stays_false(function, slice@) ==> forall|i: int|
            r <= i < slice@.len() ==> fails_at(function, slice@, i),
{
    let ghost s = slice@;
    let ghost mono = stays_false(function, slice@);
    let small_limit: usize = 8;
    let len = slice.len();
    let mut beyond_small = false;
    if len > small_limit {
        beyond_small = function(&slice[small_limit]);
        proof {
            if beyond_small {
                if mono {
                    lemma_true_below(function, s, small_limit as int, beyond_small);
                }
            } else {
                if mono {
                    lemma_false_above(function, s, small_limit as int, beyond_small);
                }
            }
        }
    }
    if beyond_small {
        // Start with no advance.
        let mut index: usize = small_limit + 1;
        if index >= len {
            return index;
        }
        let first = function(&slice[index]);
        if !first {
            proof {
                if mono {
                    lemma_false_above(function, s, index as int, first);
                }
            }
            return index;
        }
        proof {
            if mono {
                lemma_true_below(function, s, index as int, first);
            }
            reveal(is_pow2);
        }
        // Advance in exponentially growing steps.
        let mut step: usize = 1;
        loop
            invariant
                s == slice@,
                len == s.len(),
                forall|i: int| 0 <= i < s.len() ==> call_requires(function, (&s[i],)),
                mono == stays_false(function, s),
                index < len,
                1 <= step <= index + 1,
                is_pow2(step as int),
                mono ==> forall|j: int| 0 <= j <= index ==> holds_at(function, s, j),
            ensures
                index < len,
                1 <= step,
                is_pow2(step as int),
                mono ==> forall|j: int| 0 <= j <= index ==> holds_at(function, s, j),
                mono ==> (index + step >= len || forall|j: int|
                    index + step <= j < len ==> fails_at(function, s, j)),
            decreases len - index,
        {
            if step >= len - index {
                break;
            }
            let v = function(&slice[index + step]);
            if !v {
                proof {
                    if mono {
                        lemma_false_above(function, s, index + step, v);
                    }
                }
                break;
            }
            proof {
                if mono {
                    lemma_true_below(function, s, index + step, v);
                }
                reveal(is_pow2);
                assert((2 * step) as int / 2 == step as int);
            }
            index = index + step;
            step = step * 2;
        }
        let ghost mut hi: int = if index + step >= len {
            len as int
        } else {
            index + step
        };
        // Advance in exponentially shrinking steps.
        proof {
            reveal(is_pow2);
        }
        step = step / 2;
        while step > 0
            invariant
                s == slice@,
                len == s.len(),
                forall|i: int| 0 <= i < s.len() ==> call_requires(function, (&s[i],)),
                mono == stays_false(function, s),
                index < len,
                mono ==> index < hi <= len,
                mono ==> (hi == len || fails_at(function, s, hi)),
                mono ==> forall|j: int| hi <= j < len ==> fails_at(function, s, j),
                mono ==> forall|j: int| 0 <= j <= index ==> holds_at(function, s, j),
                step == 0 || is_pow2(step as int),
                mono ==> (step > 0 ==> hi - index <= 2 * step),
                mono ==> (step == 0 ==> hi - index <= 1),
            decreases step,
        {
            if step < len - index {
                let v = function(&slice[index + step]);
                if v {
                    proof {
                        if mono {
                            lemma_true_below(function, s, index + step, v);
                        }
                        if mono && index + step >= hi {
                            assert(fails_at(function, s, index + step));
                        }
                    }
                    index = index + step;
                } else {
                    proof {
                        if mono {
                            lemma_false_above(function, s, index + step, v);
                        }
                        if mono && index + step < hi {
                            hi = index + step;
                        }
                    }
                }
            }
            proof {
                reveal(is_pow2);
            }
            step = step / 2;
        }
        index = index + 1;
        index
    } else {
        let limit: usize = if len < small_limit {
            len
        } else {
            small_limit
        };
        let mut count: usize = 0;
        let mut i: usize = 0;
        while i < limit
            invariant
                s == slice@,
                limit <= len == s.len(),
                forall|i: int| 0 <= i < s.len() ==> call_requires(function, (&s[i],)),
                mono == stays_false(function, s),
                count <= i <= limit,
                mono ==> forall|j: int| 0 <= j < count ==> holds_at(function, s, j),
                mono ==> (count < i ==> forall|j: int| count <= j < len ==> fails_at(function, s, j)),
            decreases limit - i,
        {
            let v = function(&slice[i]);
            if v {
                proof {
                    if mono {
                        lemma_true_below(function, s, i as int, v);
                    }
                    if mono && count < i {
                        assert(fails_at(function, s, i as int));
                    }
                }
                count = i + 1;
            } else {
                proof {
                    if mono {
                        lemma_false_above(function, s, i as int, v);
                    }
                }
            }
            i = i + 1;
        }
        count
    }
}

} // verus!
