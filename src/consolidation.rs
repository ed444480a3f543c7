//! Consolidation of weighted records into the canonical form of a Z-set.
//!
//! A vector of `(record, weight)` pairs stands for the Z-set that maps each
//! record to the sum of its weights. Consolidating it yields the one vector
//! that is strictly sorted by record, holds each record at most once and
//! holds no zero weight.

use vstd::prelude::*;
use vstd::std_specs::cmp::OrdSpec;
use crate::algebra::{ZRingValue, ordered_key, key_lt, lemma_key_order};
use core::cmp::Ordering;

verus! {

pub open spec fn abs(x: int) -> int {
    if x < 0 {
        -x
    } else {
        x
    }
}

/// The weight of record `k` in the Z-set that `s` stands for: the sum of the
/// weights paired with `k`.
pub open spec fn weight_of<T, R: ZRingValue>(s: Seq<(T, R)>, k: T) -> int
    decreases s.len(),
{
    if s.len() == 0 {
        0
    } else {
        weight_of(s.drop_last(), k) + (if s.last().0 == k {
            s.last().1.as_int()
        } else {
            0
        })
    }
}

/// The sum of the absolute values of the weights paired with `k`.
pub open spec fn abs_weight_of<T, R: ZRingValue>(s: Seq<(T, R)>, k: T) -> int
    decreases s.len(),
{
    if s.len() == 0 {
        0
    } else {
        abs_weight_of(s.drop_last(), k) + (if s.last().0 == k {
            abs(s.last().1.as_int())
        } else {
            0
        })
    }
}

/// Records strictly ascending.
pub open spec fn strictly_sorted<T: Ord, R>(s: Seq<(T, R)>) -> bool {
    forall|i: int, j: int| 0 <= i < j < s.len() ==> key_lt(#[trigger] s[i].0, #[trigger] s[j].0)
}

/// Canonical form: records strictly ascending, no zero weight.
pub open spec fn is_canonical<T: Ord, R: ZRingValue>(s: Seq<(T, R)>) -> bool {
    &&& strictly_sorted(s)
    &&& forall|i: int| 0 <= i < s.len() ==> (#[trigger] s[i]).1.as_int() != 0
}

/// `out` is the canonical form of the Z-set that `input` stands for.
pub open spec fn is_consolidation_of<T: Ord, R: ZRingValue>(
    out: Seq<(T, R)>,
    input: Seq<(T, R)>,
) -> bool {
    &&& is_canonical(out)
    &&& forall|k: T| #[trigger] weight_of(out, k) == weight_of(input, k)
}

/// For every record, the sum of its weights over any contiguous stretch of
/// `s` is representable: adding them up by halves never overflows.
pub open spec fn runs_fit<T, R: ZRingValue>(s: Seq<(T, R)>) -> bool {
    forall|k: T, a: int, b: int|
        0 <= a <= b <= s.len() ==> R::min_value() <= #[trigger] weight_of(s.subrange(a, b), k)
            <= R::max_value()
}

/// Where no record's weights, taken in absolute value, sum past what `R`
/// holds, every stretch of them fits.
pub proof fn lemma_runs_fit_of_abs<T, R: ZRingValue>(s: Seq<(T, R)>)
    requires
        forall|k: T| #[trigger] abs_weight_of(s, k) <= R::max_value(),
    ensures
        runs_fit(s),
{
    R::lemma_bounds();
    assert forall|k: T, a: int, b: int| 0 <= a <= b <= s.len() implies R::min_value()
        <= #[trigger] weight_of(s.subrange(a, b), k) <= R::max_value() by {
        let pre = s.subrange(0, a);
        let mid = s.subrange(a, b);
        let post = s.subrange(b, s.len() as int);
        assert(s =~= pre + mid + post);
        lemma_abs_weight_concat(pre + mid, post, k);
        lemma_abs_weight_concat(pre, mid, k);
        lemma_abs_weight_nonneg(pre, k);
        lemma_abs_weight_nonneg(mid, k);
        lemma_abs_weight_nonneg(post, k);
    }
}

/// A canonical sequence holds each record once, so every stretch of it sums
/// a record to zero or to its one weight: it can be consolidated again.
pub proof fn lemma_canonical_runs_fit<T: Ord, R: ZRingValue>(s: Seq<(T, R)>)
    requires
        ordered_key::<T>(),
        is_canonical(s),
    ensures
        runs_fit(s),
{
    lemma_key_order::<T>();
    R::lemma_bounds();
    assert forall|k: T, a: int, b: int| 0 <= a <= b <= s.len() implies R::min_value()
        <= #[trigger] weight_of(s.subrange(a, b), k) <= R::max_value() by {
        let sub = s.subrange(a, b);
        assert forall|x: int, y: int| 0 <= x < y < sub.len() implies sub[x].0 != sub[y].0 by {
            assert(key_lt(s[a + x].0, s[a + y].0));
        }
        if exists|i: int| 0 <= i < sub.len() && sub[i].0 == k {
            let i = choose|i: int| 0 <= i < sub.len() && sub[i].0 == k;
            lemma_weight_distinct(sub, i);
            R::lemma_in_range(&sub[i].1);
        } else {
            lemma_weight_absent(sub, k);
        }
    }
}

pub open spec fn contribution<T, R: ZRingValue>(e: (T, R), k: T) -> int {
    if e.0 == k {
        e.1.as_int()
    } else {
        0
    }
}

pub proof fn lemma_abs_weight_nonneg<T, R: ZRingValue>(s: Seq<(T, R)>, k: T)
    ensures
        abs_weight_of(s, k) >= 0,
        abs(weight_of(s, k)) <= abs_weight_of(s, k),
    decreases s.len(),
{
    if s.len() > 0 {
        lemma_abs_weight_nonneg(s.drop_last(), k);
    }
}

pub proof fn lemma_weight_push<T, R: ZRingValue>(s: Seq<(T, R)>, e: (T, R), k: T)
    ensures
        weight_of(s.push(e), k) == weight_of(s, k) + contribution(e, k),
        abs_weight_of(s.push(e), k) == abs_weight_of(s, k) + abs(contribution(e, k)),
{
    assert(s.push(e).drop_last() =~= s);
}

pub proof fn lemma_weight_insert<T, R: ZRingValue>(s: Seq<(T, R)>, p: int, e: (T, R), k: T)
    requires
        0 <= p <= s.len(),
    ensures
        weight_of(s.insert(p, e), k) == weight_of(s, k) + contribution(e, k),
    decreases s.len(),
{
    if p == s.len() {
        assert(s.insert(p, e) =~= s.push(e));
        lemma_weight_push(s, e, k);
    } else {
        let t = s.drop_last();
        lemma_weight_insert(t, p, e, k);
        assert(s.insert(p, e).drop_last() =~= t.insert(p, e));
        assert(s.insert(p, e).last() == s.last());
    }
}

pub proof fn lemma_weight_remove<T, R: ZRingValue>(s: Seq<(T, R)>, p: int, k: T)
    requires
        0 <= p < s.len(),
    ensures
        weight_of(s.remove(p), k) == weight_of(s, k) - contribution(s[p], k),
{
    let e = s[p];
    assert(s.remove(p).insert(p, e) =~= s);
    lemma_weight_insert(s.remove(p), p, e, k);
}

pub proof fn lemma_weight_update<T, R: ZRingValue>(s: Seq<(T, R)>, p: int, e: (T, R), k: T)
    requires
        0 <= p < s.len(),
    ensures
        weight_of(s.update(p, e), k) == weight_of(s, k) - contribution(s[p], k) + contribution(e, k),
{
    assert(s.update(p, e) =~= s.remove(p).insert(p, e));
    lemma_weight_remove(s, p, k);
    lemma_weight_insert(s.remove(p), p, e, k);
}

/// The weight of `k` in the concatenation is the sum of its weights in the parts.
pub proof fn lemma_weight_concat<T, R: ZRingValue>(s: Seq<(T, R)>, t: Seq<(T, R)>, k: T)
    ensures
        weight_of(s + t, k) == weight_of(s, k) + weight_of(t, k),
    decreases t.len(),
{
    if t.len() == 0 {
        assert(s + t =~= s);
    } else {
        lemma_weight_concat(s, t.drop_last(), k);
        assert((s + t).drop_last() =~= s + t.drop_last());
    }
}

pub proof fn lemma_weight_take_step<T, R: ZRingValue>(s: Seq<(T, R)>, p: int, k: T)
    requires
        0 <= p < s.len(),
    ensures
        weight_of(s.take(p + 1), k) == weight_of(s.take(p), k) + contribution(s[p], k),
{
    assert(s.take(p + 1) =~= s.take(p).push(s[p]));
    lemma_weight_push(s.take(p), s[p], k);
}

/// In a sequence whose records are distinct, a record's weight is the one
/// paired with it.
pub proof fn lemma_weight_distinct<T, R: ZRingValue>(s: Seq<(T, R)>, i: int)
    requires
        0 <= i < s.len(),
        forall|a: int, b: int| 0 <= a < b < s.len() ==> s[a].0 != s[b].0,
    ensures
        weight_of(s, s[i].0) == s[i].1.as_int(),
    decreases s.len(),
{
    if i == s.len() - 1 {
        lemma_weight_absent(s.drop_last(), s[i].0);
    } else {
        lemma_weight_distinct(s.drop_last(), i);
    }
}

/// A record that does not occur has weight zero.
pub proof fn lemma_weight_absent<T, R: ZRingValue>(s: Seq<(T, R)>, k: T)
    requires
        forall|a: int| 0 <= a < s.len() ==> s[a].0 != k,
    ensures
        weight_of(s, k) == 0,
    decreases s.len(),
{
    if s.len() > 0 {
        lemma_weight_absent(s.drop_last(), k);
    }
}

/// A record of nonzero weight occurs.
pub proof fn lemma_weight_present<T, R: ZRingValue>(s: Seq<(T, R)>, k: T) -> (i: int)
    requires
        weight_of(s, k) != 0,
    ensures
        0 <= i < s.len(),
        s[i].0 == k,
{
    if forall|a: int| 0 <= a < s.len() ==> s[a].0 != k {
        lemma_weight_absent(s, k);
    }
    choose|a: int| 0 <= a < s.len() && s[a].0 == k
}

/// Two canonical sequences that stand for the same Z-set are equal: the
/// canonical form is unique.
pub proof fn lemma_canonical_unique<T: Ord, R: ZRingValue>(s1: Seq<(T, R)>, s2: Seq<(T, R)>)
    requires
        ordered_key::<T>(),
        is_canonical(s1),
        is_canonical(s2),
        forall|k: T| #[trigger] weight_of(s1, k) == weight_of(s2, k),
    ensures
        s1 == s2,
    decreases s1.len() + s2.len(),
{
    lemma_key_order::<T>();
    if s1.len() == 0 && s2.len() == 0 {
        assert(s1 =~= s2);
    } else if s1.len() == 0 {
        let e = s2.last();
        lemma_weight_distinct(s2, s2.len() - 1);
        assert(weight_of(s1, e.0) == 0);
    } else if s2.len() == 0 {
        let e = s1.last();
        lemma_weight_distinct(s1, s1.len() - 1);
        assert(weight_of(s2, e.0) == 0);
    } else {
        let e1 = s1.last();
        let e2 = s2.last();
        lemma_weight_distinct(s1, s1.len() - 1);
        lemma_weight_distinct(s2, s2.len() - 1);
        assert(weight_of(s1, e1.0) == weight_of(s2, e1.0));
        let j = lemma_weight_present(s2, e1.0);
        let i = lemma_weight_present(s1, e2.0);
        if e1.0 != e2.0 {
            assert(j < s2.len() - 1);
            assert(i < s1.len() - 1);
            assert(key_lt(s2[j].0, e2.0));
            assert(key_lt(s1[i].0, e1.0));
            assert(key_lt(e1.0, e1.0));
        }
        assert(e1.0 == e2.0);
        R::lemma_as_int_injective(&e1.1, &e2.1);
        let t1 = s1.drop_last();
        let t2 = s2.drop_last();
        assert forall|k: T| #[trigger] weight_of(t1, k) == weight_of(t2, k) by {
            assert(weight_of(s1, k) == weight_of(t1, k) + contribution(e1, k));
            assert(weight_of(s2, k) == weight_of(t2, k) + contribution(e2, k));
        }
        lemma_canonical_unique(t1, t2);
        assert(s1 =~= t1.push(e1));
        assert(s2 =~= t2.push(e2));
    }
}

/// Consolidating twice gives what consolidating once gave: the canonical
/// form `c` of `t` may be consolidated again (its stretches fit), and if
/// `cc` is the canonical form of `c`, then `cc == c`.
pub proof fn lemma_consolidate_idempotent<T: Ord, R: ZRingValue>(
    t: Seq<(T, R)>,
    c: Seq<(T, R)>,
    cc: Seq<(T, R)>,
)
    requires
        ordered_key::<T>(),
        is_consolidation_of(c, t),
        is_consolidation_of(cc, c),
    ensures
        runs_fit(c),
        cc == c,
{
    lemma_canonical_runs_fit(c);
    lemma_canonical_unique(cc, c);
}

/// Sorts and consolidates `vec`.
///
/// Afterwards `vec` is the canonical form of the Z-set it stood for: records
/// strictly ascending, each record once with the sum of its weights, and
/// records whose weights sum to zero dropped.
pub fn consolidate<T: Ord, R: ZRingValue>(vec: &mut Vec<(T, R)>)
    requires
        ordered_key::<T>(),
        runs_fit(old(vec)@),
    ensures
        is_consolidation_of(final(vec)@, old(vec)@),
{
    assert(vec@.skip(0) =~= vec@);
    consolidate_from(vec, 0);
    assert(old(vec)@.skip(0) =~= old(vec)@);
    assert(final(vec)@.skip(0) =~= final(vec)@);
}

/// Sorts and consolidates `vec[offset..]`, leaving `vec[..offset]` as it was.
pub fn consolidate_from<T: Ord, R: ZRingValue>(vec: &mut Vec<(T, R)>, offset: usize)
    requires
        ordered_key::<T>(),
        offset <= old(vec).len(),
        runs_fit(old(vec)@.skip(offset as int)),
    ensures
        final(vec).len() >= offset,
        final(vec)@.take(offset as int) == old(vec)@.take(offset as int),
        is_consolidation_of(final(vec)@.skip(offset as int), old(vec)@.skip(offset as int)),
{
    let ghost orig = old(vec)@.skip(offset as int);
    let rest = vec.split_off(offset);
    assert(rest@ =~= orig);
    let mut acc = consolidate_owned(rest);
    let ghost head = vec@;
    let ghost tail = acc@;
    vec.append(&mut acc);
    assert(vec@.take(offset as int) =~= head);
    assert(vec@.skip(offset as int) =~= tail);
}

pub proof fn lemma_abs_weight_concat<T, R: ZRingValue>(s: Seq<(T, R)>, t: Seq<(T, R)>, k: T)
    ensures
        abs_weight_of(s + t, k) == abs_weight_of(s, k) + abs_weight_of(t, k),
    decreases t.len(),
{
    if t.len() == 0 {
        assert(s + t =~= s);
    } else {
        lemma_abs_weight_concat(s, t.drop_last(), k);
        assert((s + t).drop_last() =~= s + t.drop_last());
    }
}

/// Consolidates `v` into a new vector: each half is consolidated, and the
/// two canonical halves are merged.
fn consolidate_owned<T: Ord, R: ZRingValue>(v: Vec<(T, R)>) -> (r: Vec<(T, R)>)
    requires
        ordered_key::<T>(),
        runs_fit(v@),
    ensures
        is_consolidation_of(r@, v@),
    decreases v@.len(),
{
    proof {
        lemma_key_order::<T>();
    }
    if v.len() <= 1 {
        if v.len() == 1 && v[0].1.is_zero() {
            proof {
                assert(v@.drop_last() =~= Seq::<(T, R)>::empty());
                assert forall|k: T| #[trigger] weight_of(Seq::<(T, R)>::empty(), k) == weight_of(v@, k) by {}
            }
            return Vec::new();
        }
        return v;
    }
    let mut left = v;
    let ghost whole = left@;
    let right = left.split_off(left.len() / 2);
    proof {
        assert(whole =~= left@ + right@);
        let mid = left@.len() as int;
        assert forall|k: T, a: int, b: int| 0 <= a <= b <= left@.len() implies R::min_value()
            <= #[trigger] weight_of(left@.subrange(a, b), k) <= R::max_value() by {
            assert(left@.subrange(a, b) =~= whole.subrange(a, b));
        }
        assert forall|k: T, a: int, b: int| 0 <= a <= b <= right@.len() implies R::min_value()
            <= #[trigger] weight_of(right@.subrange(a, b), k) <= R::max_value() by {
            assert(right@.subrange(a, b) =~= whole.subrange(mid + a, mid + b));
        }
    }
    let ghost lv = left@;
    let ghost rv = right@;
    let cl = consolidate_owned(left);
    let cr = consolidate_owned(right);
    proof {
        assert(whole.subrange(0, whole.len() as int) =~= whole);
        assert forall|k: T|
            R::min_value() <= #[trigger] weight_of(cl@, k) + weight_of(cr@, k) <= R::max_value() by {
            lemma_weight_concat(lv, rv, k);
            assert(weight_of(cl@, k) == weight_of(lv, k));
            assert(weight_of(cr@, k) == weight_of(rv, k));
            assert(weight_of(whole.subrange(0, whole.len() as int), k) == weight_of(whole, k));
        }
    }
    let r = merge_owned(cl, cr);
    proof {
        assert forall|k: T| #[trigger] weight_of(r@, k) == weight_of(whole, k) by {
            lemma_weight_concat(lv, rv, k);
        }
    }
    r
}

/// Sums two canonical sequences into a canonical one, moving their pairs:
/// the larger of the two last records moves first, so the result is built
/// from the top down and then reversed.
fn merge_owned<T: Ord, R: ZRingValue>(a: Vec<(T, R)>, b: Vec<(T, R)>) -> (r: Vec<(T, R)>)
    requires
        ordered_key::<T>(),
        is_canonical(a@),
        is_canonical(b@),
        forall|k: T| R::min_value() <= #[trigger] weight_of(a@, k) + weight_of(b@, k) <= R::max_value(),
    ensures
        is_canonical(r@),
        forall|k: T| #[trigger] weight_of(r@, k) == weight_of(a@, k) + weight_of(b@, k),
{
    proof {
        lemma_key_order::<T>();
    }
    let ghost a0 = a@;
    let ghost b0 = b@;
    let mut a = a;
    let mut b = b;
    let mut rev: Vec<(T, R)> = Vec::new();
    while a.len() > 0 || b.len() > 0
        invariant
            ordered_key::<T>(),
            T::obeys_cmp_spec(),
            is_canonical(a@),
            is_canonical(b@),
            forall|i: int, j: int| 0 <= i < j < rev@.len() ==> key_lt(#[trigger] rev@[j].0, #[trigger] rev@[i].0),
            forall|i: int| 0 <= i < rev@.len() ==> (#[trigger] rev@[i]).1.as_int() != 0,
            forall|i: int, j: int| 0 <= i < rev@.len() && 0 <= j < a@.len() ==> key_lt(#[trigger] a@[j].0, #[trigger] rev@[i].0),
            forall|i: int, j: int| 0 <= i < rev@.len() && 0 <= j < b@.len() ==> key_lt(#[trigger] b@[j].0, #[trigger] rev@[i].0),
            forall|k: T| R::min_value() <= #[trigger] weight_of(a0, k) + weight_of(b0, k) <= R::max_value(),
            forall|k: T| #[trigger] weight_of(rev@, k) + weight_of(a@, k) + weight_of(b@, k) == weight_of(a0, k) + weight_of(b0, k),
        decreases a@.len() + b@.len(),
    {
        proof {
            lemma_key_order::<T>();
        }
        let ghost r0 = rev@;
        let ghost av = a@;
        let ghost bv = b@;
        let order = if a.len() == 0 {
            Ordering::Less
        } else if b.len() == 0 {
            Ordering::Greater
        } else {
            a[a.len() - 1].0.cmp(&b[b.len() - 1].0)
        };
        match order {
            Ordering::Greater => {
                let e = a.pop().unwrap();
                proof {
                    assert(av =~= a@.push(e));
                    if bv.len() > 0 {
                        assert(av[av.len() - 1].0.cmp_spec(&bv[bv.len() - 1].0) == Ordering::Greater);
                        assert(bv[bv.len() - 1].0.cmp_spec(&av[av.len() - 1].0) == Ordering::Less);
                        assert(key_lt(bv[bv.len() - 1].0, e.0));
                    }
                    assert forall|j: int| 0 <= j < b@.len() implies key_lt(#[trigger] b@[j].0, e.0) by {
                        if j < b@.len() - 1 {
                            assert(key_lt(b@[j].0, b@[b@.len() - 1].0));
                        }
                    }
                    assert forall|j: int| 0 <= j < a@.len() implies key_lt(#[trigger] a@[j].0, e.0) by {
                        assert(key_lt(av[j].0, av[av.len() - 1].0));
                    }
                }
                rev.push(e);
                proof {
                    assert forall|k: T| #[trigger] weight_of(rev@, k) + weight_of(a@, k) + weight_of(b@, k) == weight_of(a0, k) + weight_of(b0, k) by {
                        lemma_weight_push(r0, e, k);
                        lemma_weight_push(a@, e, k);
                    }
                }
            },
            Ordering::Less => {
                let e = b.pop().unwrap();
                proof {
                    assert(bv =~= b@.push(e));
                    if av.len() > 0 {
                        assert(av[av.len() - 1].0.cmp_spec(&bv[bv.len() - 1].0) == Ordering::Less);
                        assert(key_lt(av[av.len() - 1].0, e.0));
                    }
                    assert forall|j: int| 0 <= j < a@.len() implies key_lt(#[trigger] a@[j].0, e.0) by {
                        if j < a@.len() - 1 {
                            assert(key_lt(a@[j].0, a@[a@.len() - 1].0));
                        }
                    }
                    assert forall|j: int| 0 <= j < b@.len() implies key_lt(#[trigger] b@[j].0, e.0) by {
                        assert(key_lt(bv[j].0, bv[bv.len() - 1].0));
                    }
                }
                rev.push(e);
                proof {
                    assert forall|k: T| #[trigger] weight_of(rev@, k) + weight_of(a@, k) + weight_of(b@, k) == weight_of(a0, k) + weight_of(b0, k) by {
                        lemma_weight_push(r0, e, k);
                        lemma_weight_push(b@, e, k);
                    }
                }
            },
            Ordering::Equal => {
                let ea = a.pop().unwrap();
                let eb = b.pop().unwrap();
                proof {
                    assert(av =~= a@.push(ea));
                    assert(bv =~= b@.push(eb));
                    lemma_weight_distinct_canonical(av);
                    lemma_weight_distinct_canonical(bv);
                    lemma_weight_distinct(av, av.len() - 1);
                    lemma_weight_distinct(bv, bv.len() - 1);
                    assert forall|i: int| 0 <= i < r0.len() implies r0[i].0 != ea.0 by {
                        assert(key_lt(av[av.len() - 1].0, r0[i].0));
                    }
                    lemma_weight_absent(r0, ea.0);
                    assert(weight_of(av, ea.0) + weight_of(bv, ea.0) == weight_of(a0, ea.0) + weight_of(b0, ea.0));
                }
                let sum = ea.1.add_by_ref(&eb.1);
                let zero = sum.is_zero();
                let e = (ea.0, sum);
                proof {
                    assert forall|j: int| 0 <= j < a@.len() implies key_lt(#[trigger] a@[j].0, e.0) by {
                        assert(key_lt(av[j].0, av[av.len() - 1].0));
                    }
                    assert forall|j: int| 0 <= j < b@.len() implies key_lt(#[trigger] b@[j].0, e.0) by {
                        assert(key_lt(bv[j].0, bv[bv.len() - 1].0));
                    }
                    assert forall|k: T| #[trigger] weight_of(r0, k) + contribution(e, k) + weight_of(a@, k) + weight_of(b@, k) == weight_of(a0, k) + weight_of(b0, k) by {
                        lemma_weight_push(a@, ea, k);
                        lemma_weight_push(b@, eb, k);
                    }
                }
                if !zero {
                    rev.push(e);
                    proof {
                        assert forall|k: T| #[trigger] weight_of(rev@, k) + weight_of(a@, k) + weight_of(b@, k) == weight_of(a0, k) + weight_of(b0, k) by {
                            lemma_weight_push(r0, e, k);
                        }
                    }
                } else {
                    proof {
                        assert forall|k: T| #[trigger] weight_of(rev@, k) + weight_of(a@, k) + weight_of(b@, k) == weight_of(a0, k) + weight_of(b0, k) by {
                            assert(contribution(e, k) == 0);
                        }
                    }
                }
            },
        }
    }
    // `rev` descends: moved back one by one, the result ascends.
    let ghost total = rev@;
    let mut out: Vec<(T, R)> = Vec::new();
    while rev.len() > 0
        invariant
            ordered_key::<T>(),
            forall|i: int, j: int| 0 <= i < j < rev@.len() ==> key_lt(#[trigger] rev@[j].0, #[trigger] rev@[i].0),
            forall|i: int| 0 <= i < rev@.len() ==> (#[trigger] rev@[i]).1.as_int() != 0,
            is_canonical(out@),
            forall|i: int, j: int| 0 <= i < out@.len() && 0 <= j < rev@.len() ==> key_lt(#[trigger] out@[i].0, #[trigger] rev@[j].0),
            forall|k: T| #[trigger] weight_of(out@, k) + weight_of(rev@, k) == weight_of(total, k),
        decreases rev@.len(),
    {
        proof {
            lemma_key_order::<T>();
        }
        let ghost r0 = rev@;
        let ghost o0 = out@;
        let e = rev.pop().unwrap();
        proof {
            assert(r0 =~= rev@.push(e));
        }
        out.push(e);
        proof {
            assert forall|k: T| #[trigger] weight_of(out@, k) + weight_of(rev@, k) == weight_of(total, k) by {
                lemma_weight_push(o0, e, k);
                lemma_weight_push(rev@, e, k);
            }
            assert forall|i: int, j: int| 0 <= i < out@.len() && 0 <= j < rev@.len() implies key_lt(#[trigger] out@[i].0, #[trigger] rev@[j].0) by {
                if i == out@.len() - 1 {
                    assert(key_lt(r0[r0.len() - 1].0, r0[j].0));
                    assert(rev@[j] == r0[j]);
                } else {
                    assert(out@[i] == o0[i]);
                    assert(rev@[j] == r0[j]);
                }
            }
        }
    }
    proof {
        assert forall|k: T| #[trigger] weight_of(out@, k) == weight_of(a0, k) + weight_of(b0, k) by {
            assert(weight_of(rev@, k) == 0);
            assert(weight_of(total, k) + 0 + 0 == weight_of(a0, k) + weight_of(b0, k));
        }
    }
    out
}

/// The records of a canonical sequence are distinct.
proof fn lemma_weight_distinct_canonical<T: Ord, R: ZRingValue>(s: Seq<(T, R)>)
    requires
        ordered_key::<T>(),
        strictly_sorted(s),
    ensures
        forall|a: int, b: int| 0 <= a < b < s.len() ==> s[a].0 != s[b].0,
{
    lemma_key_order::<T>();
    assert forall|a: int, b: int| 0 <= a < b < s.len() implies s[a].0 != s[b].0 by {
        assert(key_lt(s[a].0, s[b].0));
    }
}

} // verus!
