//! Join of indexed Z-sets on their keys: each pair of values under a common
//! key is emitted with the product of their weights.

use vstd::prelude::*;
use crate::aggregate::{key_set, lemma_key_set_contains, lemma_next_key};
use crate::algebra::{ZRingValue, ordered_key, key_lt, lemma_key_order};
use crate::batch::OrdZSet;
use crate::consolidation::{
    contribution, is_canonical, lemma_weight_distinct, lemma_weight_push, lemma_weight_take_step,
    weight_of,
};
use crate::group::{extract_group, lemma_le_lt};

verus! {

/// The weight of `(k, (v1, v2))` in the join of `a` and `b`.
pub open spec fn join_weight<K, V1, V2, R: ZRingValue>(
    a: Seq<((K, V1), R)>,
    b: Seq<((K, V2), R)>,
    k: K,
    v1: V1,
    v2: V2,
) -> int {
    weight_of(a, (k, v1)) * weight_of(b, (k, v2))
}

/// Pushes `((key, (v1, v2)), w1 * w2)` for each `(v1, w1)` of `ga` and
/// `(v2, w2)` of `gb`.
fn push_product<K: Copy, V1: Ord + Copy, V2: Ord + Copy, R: ZRingValue>(
    out: &mut Vec<((K, (V1, V2)), R)>,
    key: K,
    ga: &Vec<(V1, R)>,
    gb: &Vec<(V2, R)>,
)
    requires
        ordered_key::<V1>(),
        ordered_key::<V2>(),
        is_canonical(ga@),
        is_canonical(gb@),
        forall|x1: V1, x2: V2|
            R::min_value() <= #[trigger] (weight_of(ga@, x1) * weight_of(gb@, x2)) <= R::max_value(),
    ensures
        forall|k: K, x1: V1, x2: V2| #[trigger]
            weight_of(final(out)@, (k, (x1, x2))) == weight_of(old(out)@, (k, (x1, x2))) + (if k
                == key {
                weight_of(ga@, x1) * weight_of(gb@, x2)
            } else {
                0
            }),
{
    proof {
        lemma_key_order::<V1>();
        lemma_key_order::<V2>();
        assert forall|a: int, b: int| 0 <= a < b < ga@.len() implies ga@[a].0 != ga@[b].0 by {
            assert(key_lt(ga@[a].0, ga@[b].0));
        }
        assert forall|a: int, b: int| 0 <= a < b < gb@.len() implies gb@[a].0 != gb@[b].0 by {
            assert(key_lt(gb@[a].0, gb@[b].0));
        }
        assert(ga@.take(0) =~= Seq::<(V1, R)>::empty());
    }
    let ghost out0 = out@;
    let mut i: usize = 0;
    while i < ga.len()
        invariant
            i <= ga@.len(),
            forall|a: int, b: int| 0 <= a < b < ga@.len() ==> ga@[a].0 != ga@[b].0,
            forall|a: int, b: int| 0 <= a < b < gb@.len() ==> gb@[a].0 != gb@[b].0,
            forall|x1: V1, x2: V2|
                R::min_value() <= #[trigger] (weight_of(ga@, x1) * weight_of(gb@, x2))
                    <= R::max_value(),
            forall|k: K, x1: V1, x2: V2| #[trigger]
                weight_of(out@, (k, (x1, x2))) == weight_of(out0, (k, (x1, x2))) + (if k == key {
                    weight_of(ga@.take(i as int), x1) * weight_of(gb@, x2)
                } else {
                    0
                }),
        decreases ga@.len() - i,
    {
        let ghost e1 = ga@[i as int];
        let mut j: usize = 0;
        proof {
            assert(gb@.take(0) =~= Seq::<(V2, R)>::empty());
            lemma_weight_distinct(ga@, i as int);
        }
        while j < gb.len()
            invariant
                i < ga@.len(),
                e1 == ga@[i as int],
                j <= gb@.len(),
                weight_of(ga@, e1.0) == e1.1.as_int(),
                forall|a: int, b: int| 0 <= a < b < gb@.len() ==> gb@[a].0 != gb@[b].0,
                forall|x1: V1, x2: V2|
                    R::min_value() <= #[trigger] (weight_of(ga@, x1) * weight_of(gb@, x2))
                        <= R::max_value(),
                forall|k: K, x1: V1, x2: V2| #[trigger]
                    weight_of(out@, (k, (x1, x2))) == weight_of(out0, (k, (x1, x2))) + (if k
                        == key {
                        weight_of(ga@.take(i as int), x1) * weight_of(gb@, x2) + contribution(
                            e1,
                            x1,
                        ) * weight_of(gb@.take(j as int), x2)
                    } else {
                        0
                    }),
            decreases gb@.len() - j,
        {
            let ghost e2 = gb@[j as int];
            proof {
                lemma_weight_distinct(gb@, j as int);
                assert(R::min_value() <= weight_of(ga@, e1.0) * weight_of(gb@, e2.0)
                    <= R::max_value());
            }
            let w = ga[i].1.mul_by_ref(&gb[j].1);
            let ghost before = out@;
            let v1 = ga[i].0;
            let v2 = gb[j].0;
            out.push(((key, (v1, v2)), w));
            proof {
                assert forall|k: K, x1: V1, x2: V2| #[trigger]
                    weight_of(out@, (k, (x1, x2))) == weight_of(out0, (k, (x1, x2))) + (if k
                        == key {
                        weight_of(ga@.take(i as int), x1) * weight_of(gb@, x2) + contribution(
                            e1,
                            x1,
                        ) * weight_of(gb@.take(j + 1), x2)
                    } else {
                        0
                    }) by {
                    lemma_weight_push(before, ((key, (v1, v2)), w), (k, (x1, x2)));
                    lemma_weight_take_step(gb@, j as int, x2);
                    let c1 = contribution(e1, x1);
                    let c2 = contribution(e2, x2);
                    let wj = weight_of(gb@.take(j as int), x2);
                    assert(c1 * (wj + c2) == c1 * wj + c1 * c2) by (nonlinear_arith);
                    if k == key && x1 == v1 && x2 == v2 {
                        assert(contribution(((key, (v1, v2)), w), (k, (x1, x2))) == c1 * c2);
                    } else if k == key && x1 == v1 {
                        assert(c2 == 0);
                        assert(c1 * c2 == 0) by (nonlinear_arith)
                            requires
                                c2 == 0,
                        ;
                    } else if k == key {
                        assert(c1 == 0);
                        assert(c1 * c2 == 0) by (nonlinear_arith)
                            requires
                                c1 == 0,
                        ;
                    }
                }
            }
            j = j + 1;
        }
        proof {
            assert(gb@.take(gb@.len() as int) =~= gb@);
            assert forall|k: K, x1: V1, x2: V2| #[trigger]
                weight_of(out@, (k, (x1, x2))) == weight_of(out0, (k, (x1, x2))) + (if k == key {
                    weight_of(ga@.take(i + 1), x1) * weight_of(gb@, x2)
                } else {
                    0
                }) by {
                lemma_weight_take_step(ga@, i as int, x1);
                let a = weight_of(ga@.take(i as int), x1);
                let c = contribution(e1, x1);
                let wb = weight_of(gb@, x2);
                assert((a + c) * wb == a * wb + c * wb) by (nonlinear_arith);
            }
        }
        i = i + 1;
    }
    proof {
        assert(ga@.take(ga@.len() as int) =~= ga@);
    }
}

/// The join of two indexed Z-sets: for each key they share, each value of
/// `a` paired with each value of `b`, with the product of the weights.
pub fn join<K: Ord + Copy, V1: Ord + Copy, V2: Ord + Copy, R: ZRingValue>(
    a: &OrdZSet<(K, V1), R>,
    b: &OrdZSet<(K, V2), R>,
) -> (r: Vec<((K, (V1, V2)), R)>)
    requires
        ordered_key::<K>(),
        ordered_key::<V1>(),
        ordered_key::<V2>(),
        forall|k: K, v1: V1, v2: V2|
            R::min_value() <= #[trigger] join_weight(a@, b@, k, v1, v2) <= R::max_value(),
    ensures
        forall|k: K, v1: V1, v2: V2| #[trigger]
            weight_of(r@, (k, (v1, v2))) == join_weight(a@, b@, k, v1, v2),
{
    let aa = a.tuples();
    let bb = b.tuples();
    let mut out: Vec<((K, (V1, V2)), R)> = Vec::new();
    let mut d: usize = 0;
    let mut t: usize = 0;
    proof {
        assert(aa@.take(0) =~= Seq::<((K, V1), R)>::empty());
        lemma_key_order::<K>();
    }
    while d < aa.len()
        invariant
            ordered_key::<K>(),
            ordered_key::<V1>(),
            ordered_key::<V2>(),
            aa@ == a@,
            bb@ == b@,
            is_canonical(aa@),
            is_canonical(bb@),
            forall|k: K, v1: V1, v2: V2|
                R::min_value() <= #[trigger] join_weight(a@, b@, k, v1, v2) <= R::max_value(),
            d <= aa.len(),
            t <= bb.len(),
            d < aa.len() ==> forall|j: int| 0 <= j < d ==> key_lt((#[trigger] aa@[j]).0.0, aa@[d as int].0.0),
            d < aa.len() ==> forall|j: int| 0 <= j < t ==> key_lt((#[trigger] bb@[j]).0.0, aa@[d as int].0.0),
            forall|k: K, x1: V1, x2: V2| #[trigger]
                weight_of(out@, (k, (x1, x2))) == if key_set(aa@.take(d as int)).contains(k) {
                    join_weight(aa@, bb@, k, x1, x2)
                } else {
                    0
                },
        decreases aa.len() - d,
    {
        let key = aa[d].0.0;
        let (ga, d2) = extract_group(aa, d, key);
        let (gb, t2) = extract_group(bb, t, key);
        proof {
            lemma_next_key(aa@, d as int, d2 as int);
            assert forall|x1: V1, x2: V2|
                R::min_value() <= #[trigger] (weight_of(ga@, x1) * weight_of(gb@, x2))
                    <= R::max_value() by {
                assert(join_weight(a@, b@, key, x1, x2) == weight_of(ga@, x1) * weight_of(gb@, x2));
            }
        }
        let ghost before = out@;
        push_product(&mut out, key, &ga, &gb);
        proof {
            assert forall|k: K, x1: V1, x2: V2| #[trigger]
                weight_of(out@, (k, (x1, x2))) == if key_set(aa@.take(d2 as int)).contains(k) {
                    join_weight(aa@, bb@, k, x1, x2)
                } else {
                    0
                } by {
                assert(weight_of(before, (k, (x1, x2))) == if key_set(aa@.take(d as int)).contains(k) {
                    join_weight(aa@, bb@, k, x1, x2)
                } else {
                    0
                });
            }
            if d2 < aa.len() {
                let nk = aa@[d2 as int].0.0;
                assert forall|j: int| 0 <= j < t2 implies key_lt((#[trigger] bb@[j]).0.0, nk) by {
                    lemma_le_lt(bb@[j].0.0, key, nk);
                }
            }
        }
        d = d2;
        t = t2;
    }
    proof {
        assert(aa@.take(aa@.len() as int) =~= aa@);
        assert forall|k: K, v1: V1, v2: V2| #[trigger]
            weight_of(out@, (k, (v1, v2))) == join_weight(a@, b@, k, v1, v2) by {
            if !key_set(aa@).contains(k) {
                lemma_key_set_contains(aa@, k);
                crate::consolidation::lemma_weight_absent(aa@, (k, v1));
                assert(join_weight(a@, b@, k, v1, v2) == 0 * weight_of(b@, (k, v2)));
            }
        }
    }
    out
}

/// The join of the sums, less the join of the old values, is the sum of
/// the three joins of changes: the join is bilinear. With `a` and `b` the
/// values before a tick and `da`, `db` their changes,
/// `(a + da) ⋈ (b + db) − a ⋈ b == da ⋈ b + a ⋈ db + da ⋈ db`.
pub proof fn lemma_join_decomposition<K, V1, V2, R: ZRingValue>(
    a: Seq<((K, V1), R)>,
    da: Seq<((K, V1), R)>,
    a_new: Seq<((K, V1), R)>,
    b: Seq<((K, V2), R)>,
    db: Seq<((K, V2), R)>,
    b_new: Seq<((K, V2), R)>,
    k: K,
    v1: V1,
    v2: V2,
)
    requires
        forall|x: (K, V1)| #[trigger] weight_of(a_new, x) == weight_of(a, x) + weight_of(da, x),
        forall|x: (K, V2)| #[trigger] weight_of(b_new, x) == weight_of(b, x) + weight_of(db, x),
    ensures
        join_weight(a_new, b_new, k, v1, v2) - join_weight(a, b, k, v1, v2) == join_weight(
            da,
            b,
            k,
            v1,
            v2,
        ) + join_weight(a, db, k, v1, v2) + join_weight(da, db, k, v1, v2),
{
    let x = weight_of(a, (k, v1));
    let dx = weight_of(da, (k, v1));
    let y = weight_of(b, (k, v2));
    let dy = weight_of(db, (k, v2));
    assert(weight_of(a_new, (k, v1)) == x + dx);
    assert(weight_of(b_new, (k, v2)) == y + dy);
    assert((x + dx) * (y + dy) - x * y == dx * y + x * dy + dx * dy) by (nonlinear_arith);
}

} // verus!
