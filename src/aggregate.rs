//! Aggregation: each key of an indexed Z-set, with its group of values, is
//! reduced to one output record of weight one.

use vstd::prelude::*;
use crate::algebra::{ZRingValue, ordered_key, key_lt, lemma_key_order};
use crate::batch::OrdZSet;
use crate::consolidation::{
    abs, abs_weight_of, contribution, is_canonical, lemma_canonical_unique, lemma_weight_push,
    weight_of,
};
use crate::group::{extract_group, lemma_pair_order};

verus! {

broadcast use vstd::set::group_set_axioms;

/// The values and weights that pair with key `k`, in order.
pub open spec fn group_of<K, V, R>(s: Seq<((K, V), R)>, k: K) -> Seq<(V, R)>
    decreases s.len(),
{
    if s.len() == 0 {
        seq![]
    } else {
        let g = group_of(s.drop_last(), k);
        if s.last().0.0 == k {
            g.push((s.last().0.1, s.last().1))
        } else {
            g
        }
    }
}

/// The keys of an indexed sequence.
pub open spec fn key_set<K, V, R>(s: Seq<((K, V), R)>) -> Set<K>
    decreases s.len(),
{
    if s.len() == 0 {
        Set::empty()
    } else {
        key_set(s.drop_last()).insert(s.last().0.0)
    }
}

/// The keys of `keys` whose aggregate over their group in `s` is `o`.
pub open spec fn aggregate_set<K, V, R, O>(
    agg: spec_fn(K, Seq<(V, R)>) -> O,
    s: Seq<((K, V), R)>,
    keys: Set<K>,
    o: O,
) -> Set<K> {
    keys.filter(|k: K| agg(k, group_of(s, k)) == o)
}

/// The weight of `o` in the aggregate of `s`: the number of keys of `s`
/// whose group aggregates to `o`.
pub open spec fn aggregate_count<K, V, R, O>(
    agg: spec_fn(K, Seq<(V, R)>) -> O,
    s: Seq<((K, V), R)>,
    o: O,
) -> int {
    aggregate_set(agg, s, key_set(s), o).len() as int
}

/// The number of keys of `delta` that `s` holds and whose group in `s`
/// aggregates to `o`.
pub open spec fn incremental_count<K, V, R, O>(
    agg: spec_fn(K, Seq<(V, R)>) -> O,
    delta: Seq<((K, V), R)>,
    s: Seq<((K, V), R)>,
    o: O,
) -> int {
    aggregate_set(agg, s, key_set(delta).intersect(key_set(s)), o).len() as int
}

/// `f` returns `agg` of the key and the contents of the group it is given.
pub open spec fn computes<K, V, R, O, F: Fn(&K, &Vec<(V, R)>) -> O>(
    f: F,
    agg: spec_fn(K, Seq<(V, R)>) -> O,
) -> bool {
    forall|k: K, g: Vec<(V, R)>, o: O| #[trigger] call_ensures(f, (&k, &g), o) ==> o == agg(k, g@)
}

/// `f` may be called on every key and group.
pub open spec fn callable<K, V, R, O, F: Fn(&K, &Vec<(V, R)>) -> O>(f: F) -> bool {
    forall|k: K, g: Vec<(V, R)>| #[trigger] call_requires(f, (&k, &g))
}

pub proof fn lemma_key_set_finite<K, V, R>(s: Seq<((K, V), R)>)
    ensures
        key_set(s).finite(),
    decreases s.len(),
{
    if s.len() > 0 {
        lemma_key_set_finite(s.drop_last());
    }
}

pub proof fn lemma_key_set_contains<K, V, R>(s: Seq<((K, V), R)>, k: K)
    ensures
        key_set(s).contains(k) <==> exists|i: int| 0 <= i < s.len() && (#[trigger] s[i]).0.0 == k,
    decreases s.len(),
{
    if s.len() > 0 {
        let t = s.drop_last();
        lemma_key_set_contains(t, k);
        if exists|i: int| 0 <= i < t.len() && (#[trigger] t[i]).0.0 == k {
            let i = choose|i: int| 0 <= i < t.len() && (#[trigger] t[i]).0.0 == k;
            assert(s[i] == t[i]);
        }
        if exists|i: int| 0 <= i < s.len() && (#[trigger] s[i]).0.0 == k {
            let i = choose|i: int| 0 <= i < s.len() && (#[trigger] s[i]).0.0 == k;
            if i < s.len() - 1 {
                assert(t[i] == s[i]);
            }
        }
    }
}

pub proof fn lemma_group_weight<K, V, R: ZRingValue>(s: Seq<((K, V), R)>, k: K, v: V)
    ensures
        weight_of(group_of(s, k), v) == weight_of(s, (k, v)),
    decreases s.len(),
{
    if s.len() > 0 {
        lemma_group_weight(s.drop_last(), k, v);
        if s.last().0.0 == k {
            lemma_weight_push(group_of(s.drop_last(), k), (s.last().0.1, s.last().1), v);
        }
    }
}

pub proof fn lemma_group_nonempty<K, V, R>(s: Seq<((K, V), R)>, k: K)
    ensures
        key_set(s).contains(k) <==> group_of(s, k).len() > 0,
    decreases s.len(),
{
    if s.len() > 0 {
        lemma_group_nonempty(s.drop_last(), k);
    }
}

/// Each pair of a group comes from a pair of the sequence.
pub proof fn lemma_group_member<K, V, R>(s: Seq<((K, V), R)>, k: K, j: int) -> (i: int)
    requires
        0 <= j < group_of(s, k).len(),
    ensures
        0 <= i < s.len(),
        s[i].0 == (k, group_of(s, k)[j].0),
        s[i].1 == group_of(s, k)[j].1,
    decreases s.len(),
{
    let t = s.drop_last();
    if s.last().0.0 == k && j == group_of(s, k).len() - 1 {
        s.len() - 1
    } else {
        let i = lemma_group_member(t, k, j);
        assert(s[i] == t[i]);
        i
    }
}

/// The group of a canonical sequence is canonical.
pub proof fn lemma_group_canonical<K: Ord, V: Ord, R: ZRingValue>(s: Seq<((K, V), R)>, k: K)
    requires
        ordered_key::<K>(),
        ordered_key::<V>(),
        is_canonical(s),
    ensures
        is_canonical(group_of(s, k)),
    decreases s.len(),
{
    if s.len() > 0 {
        let t = s.drop_last();
        assert(is_canonical(t)) by {
            assert forall|i: int| 0 <= i < t.len() implies (#[trigger] t[i]).1.as_int() != 0 by {
                assert(t[i] == s[i]);
            }
            assert forall|i: int, j: int| 0 <= i < j < t.len() implies key_lt(
                #[trigger] t[i].0,
                #[trigger] t[j].0,
            ) by {
                assert(t[i] == s[i] && t[j] == s[j]);
            }
        }
        lemma_group_canonical(t, k);
        if s.last().0.0 == k {
            let g = group_of(t, k);
            let e = (s.last().0.1, s.last().1);
            assert(group_of(s, k) =~= g.push(e));
            assert forall|i: int, j: int| 0 <= i < j < g.push(e).len() implies key_lt(
                #[trigger] g.push(e)[i].0,
                #[trigger] g.push(e)[j].0,
            ) by {
                if j == g.len() {
                    let a = lemma_group_member(t, k, i);
                    assert(key_lt(s[a].0, s.last().0));
                    lemma_pair_order(s[a].0, s.last().0);
                } else {
                    assert(g.push(e)[i] == g[i] && g.push(e)[j] == g[j]);
                }
            }
            assert forall|i: int| 0 <= i < g.push(e).len() implies (#[trigger] g.push(
                e,
            )[i]).1.as_int() != 0 by {
                if i < g.len() {
                    assert(g.push(e)[i] == g[i]);
                }
            }
        }
    }
}

/// A canonical sequence with the weights of group `k` of a canonical `s`
/// is that group.
pub proof fn lemma_group_is<K: Ord, V: Ord, R: ZRingValue>(
    s: Seq<((K, V), R)>,
    k: K,
    g: Seq<(V, R)>,
)
    requires
        ordered_key::<K>(),
        ordered_key::<V>(),
        is_canonical(s),
        is_canonical(g),
        forall|v: V| #[trigger] weight_of(g, v) == weight_of(s, (k, v)),
    ensures
        g == group_of(s, k),
{
    lemma_group_canonical(s, k);
    assert forall|v: V| #[trigger] weight_of(g, v) == weight_of(group_of(s, k), v) by {
        lemma_group_weight(s, k, v);
    }
    lemma_canonical_unique(g, group_of(s, k));
}

/// Taking in a run of pairs of key `k` adds `k` to the keys.
proof fn lemma_key_set_run<K, V, R>(s: Seq<((K, V), R)>, d: int, e: int, k: K)
    requires
        0 <= d < e <= s.len(),
        forall|i: int| d <= i < e ==> (#[trigger] s[i]).0.0 == k,
    ensures
        key_set(s.take(e)) == key_set(s.take(d)).insert(k),
    decreases e - d,
{
    assert(s.take(e).drop_last() =~= s.take(e - 1));
    assert(s.take(e).last() == s[e - 1]);
    if e - 1 > d {
        lemma_key_set_run(s, d, e - 1, k);
        assert(key_set(s.take(d)).insert(k).insert(k) =~= key_set(s.take(d)).insert(k));
    }
}

/// The facts about the next key of a canonical indexed sequence that an
/// aggregation loop needs: its group ends at `e`, it was not seen before
/// `d`, and the keys before `e` are below the key at `e`.
pub proof fn lemma_next_key<K: Ord, V: Ord, R: ZRingValue>(s: Seq<((K, V), R)>, d: int, e: int)
    requires
        ordered_key::<K>(),
        ordered_key::<V>(),
        is_canonical(s),
        0 <= d < e <= s.len(),
        forall|i: int| 0 <= i < d ==> key_lt((#[trigger] s[i]).0.0, s[d].0.0),
        forall|i: int| d <= i < e ==> (#[trigger] s[i]).0.0 == s[d].0.0,
        e < s.len() ==> key_lt(s[d].0.0, s[e].0.0),
    ensures
        key_set(s.take(e)) == key_set(s.take(d)).insert(s[d].0.0),
        !key_set(s.take(d)).contains(s[d].0.0),
        e < s.len() ==> forall|i: int| 0 <= i < e ==> key_lt((#[trigger] s[i]).0.0, s[e].0.0),
{
    lemma_key_order::<K>();
    lemma_key_set_run(s, d, e, s[d].0.0);
    lemma_key_set_contains(s.take(d), s[d].0.0);
    if key_set(s.take(d)).contains(s[d].0.0) {
        let i = choose|i: int| 0 <= i < d && (#[trigger] s.take(d)[i]).0.0 == s[d].0.0;
        assert(s.take(d)[i] == s[i]);
    }
}

/// Adding a key to the keys considered adds one to the count exactly when
/// the key is new and its group aggregates to `o`.
proof fn lemma_aggregate_set_insert<K, V, R, O>(
    agg: spec_fn(K, Seq<(V, R)>) -> O,
    s: Seq<((K, V), R)>,
    keys: Set<K>,
    k: K,
    o: O,
)
    requires
        keys.finite(),
        !keys.contains(k),
    ensures
        aggregate_set(agg, s, keys, o).finite(),
        aggregate_set(agg, s, keys.insert(k), o).len() == aggregate_set(agg, s, keys, o).len() + (
        if agg(k, group_of(s, k)) == o {
            1int
        } else {
            0
        }),
{
    let a = aggregate_set(agg, s, keys, o);
    vstd::set_lib::lemma_len_subset(a, keys);
    if agg(k, group_of(s, k)) == o {
        assert(aggregate_set(agg, s, keys.insert(k), o) =~= a.insert(k));
    } else {
        assert(aggregate_set(agg, s, keys.insert(k), o) =~= a);
    }
}

/// A group function that leaves the weights of one new pair `(o, w)` to
/// the count of its key.
proof fn lemma_push_one<O, R: ZRingValue>(elements: Seq<(O, R)>, e: (O, R), x: O)
    requires
        abs(e.1.as_int()) == 1,
    ensures
        weight_of(elements.push(e), x) == weight_of(elements, x) + contribution(e, x),
        abs_weight_of(elements.push(e), x) == abs_weight_of(elements, x) + (if e.0 == x {
            1int
        } else {
            0
        }),
{
    lemma_weight_push(elements, e, x);
}

/// Aggregates each indexed Z-set of a stream.
pub struct Aggregate<F> {
    agg_func: F,
}

impl<F> Aggregate<F> {
    pub fn new(agg_func: F) -> (r: Self)
        ensures
            r.agg_func() == agg_func,
    {
        Aggregate { agg_func }
    }

    pub closed spec fn agg_func(&self) -> F {
        self.agg_func
    }

    /// For each key of `i`, applies the aggregation function to the key and
    /// its group, and returns the Z-set of the results, each with weight one
    /// per key that gave it.
    pub fn eval<K: Ord + Copy, V: Ord + Copy, R: ZRingValue, O: Ord + Copy>(
        &self,
        i: &OrdZSet<(K, V), R>,
    ) -> (r: OrdZSet<O, R>) where F: Fn(&K, &Vec<(V, R)>) -> O
        requires
            ordered_key::<K>(),
            ordered_key::<V>(),
            ordered_key::<O>(),
            callable(self.agg_func()),
            i@.len() <= R::max_value(),
        ensures
            is_canonical(r@),
            forall|agg: spec_fn(K, Seq<(V, R)>) -> O| #[trigger]
                computes(self.agg_func(), agg) ==> forall|o: O| #[trigger]
                    weight_of(r@, o) == aggregate_count(agg, i@, o),
    {
        let s = i.tuples();
        let mut elements: Vec<(O, R)> = Vec::new();
        let mut d: usize = 0;
        proof {
            assert(s@.take(0) =~= Seq::<((K, V), R)>::empty());
            lemma_key_order::<K>();
            assert forall|agg: spec_fn(K, Seq<(V, R)>) -> O, o: O|
                #[trigger] aggregate_set(agg, s@, key_set(s@.take(0)), o).len() == 0 by {
                assert(aggregate_set(agg, s@, key_set(s@.take(0)), o) =~= Set::<K>::empty());
            }
        }
        while d < s.len()
            invariant
                ordered_key::<K>(),
                ordered_key::<V>(),
                callable(self.agg_func()),
                s@ == i@,
                is_canonical(s@),
                s@.len() <= R::max_value(),
                d <= s.len(),
                elements@.len() <= d,
                d < s.len() ==> forall|j: int| 0 <= j < d ==> key_lt((#[trigger] s@[j]).0.0, s@[d as int].0.0),
                forall|o: O| #[trigger] abs_weight_of(elements@, o) <= elements@.len(),
                forall|agg: spec_fn(K, Seq<(V, R)>) -> O| #[trigger]
                    computes(self.agg_func(), agg) ==> forall|o: O| #[trigger]
                        weight_of(elements@, o) == aggregate_set(agg, s@, key_set(s@.take(d as int)), o).len(),
            decreases s.len() - d,
        {
            let key = s[d].0.0;
            let (g, d2) = extract_group(s, d, key);
            let o = (self.agg_func)(&key, &g);
            let one = R::one();
            let ghost before = elements@;
            elements.push((o, one));
            proof {
                lemma_group_is(s@, key, g@);
                lemma_next_key(s@, d as int, d2 as int);
                lemma_key_set_finite(s@.take(d as int));
                assert forall|x: O| #[trigger] abs_weight_of(elements@, x) <= elements@.len() by {
                    lemma_push_one(before, (o, one), x);
                }
                assert forall|agg: spec_fn(K, Seq<(V, R)>) -> O| #[trigger]
                    computes(self.agg_func(), agg) implies forall|x: O| #[trigger]
                    weight_of(elements@, x) == aggregate_set(agg, s@, key_set(s@.take(d2 as int)), x).len() by {
                    assert(o == agg(key, g@));
                    assert forall|x: O| #[trigger]
                        weight_of(elements@, x) == aggregate_set(agg, s@, key_set(s@.take(d2 as int)), x).len() by {
                        lemma_push_one(before, (o, one), x);
                        lemma_aggregate_set_insert(agg, s@, key_set(s@.take(d as int)), key, x);
                    }
                }
            }
            d = d2;
        }
        proof {
            assert(s@.take(s@.len() as int) =~= s@);
            R::lemma_bounds();
            assert forall|o: O| #[trigger] abs_weight_of(elements@, o) <= R::max_value() by {}
            crate::consolidation::lemma_runs_fit_of_abs(elements@);
        }
        OrdZSet::from_tuples(elements)
    }
}


/// Incremental version of [`Aggregate`]: over the keys that change in
/// `delta`, aggregates their groups in an integral and gives each result
/// weight `+1` (`polarity` set) or `-1`. Run on the integral after the
/// tick with `+1` and on the integral before it with `-1`, the sum is the
/// change of the aggregate of the integral.
pub struct AggregateIncremental<F> {
    polarity: bool,
    agg_func: F,
}

impl<F> AggregateIncremental<F> {
    pub fn new(polarity: bool, agg_func: F) -> (r: Self)
        ensures
            r.polarity() == polarity,
            r.agg_func() == agg_func,
    {
        AggregateIncremental { polarity, agg_func }
    }

    pub closed spec fn polarity(&self) -> bool {
        self.polarity
    }

    pub closed spec fn agg_func(&self) -> F {
        self.agg_func
    }

    pub open spec fn sign(&self) -> int {
        if self.polarity() {
            1
        } else {
            -1
        }
    }

    fn weight<R: ZRingValue>(&self) -> (r: R)
        ensures
            r.as_int() == self.sign(),
    {
        proof {
            R::lemma_bounds();
        }
        if self.polarity {
            R::one()
        } else {
            R::one().neg_by_ref()
        }
    }

    /// For each key of `delta` that `integral` holds, aggregates its group
    /// in `integral`; each result gets weight `sign()`.
    pub fn eval<K: Ord + Copy, V: Ord + Copy, R: ZRingValue, O: Ord + Copy>(
        &self,
        delta: &OrdZSet<(K, V), R>,
        integral: &OrdZSet<(K, V), R>,
    ) -> (r: OrdZSet<O, R>) where F: Fn(&K, &Vec<(V, R)>) -> O
        requires
            ordered_key::<K>(),
            ordered_key::<V>(),
            ordered_key::<O>(),
            callable(self.agg_func()),
            delta@.len() <= R::max_value(),
        ensures
            is_canonical(r@),
            forall|o: O| 0 <= #[trigger] (self.sign() * weight_of(r@, o)) <= delta@.len(),
            forall|agg: spec_fn(K, Seq<(V, R)>) -> O| #[trigger]
                computes(self.agg_func(), agg) ==> forall|o: O| #[trigger]
                    weight_of(r@, o) == self.sign() * incremental_count(agg, delta@, integral@, o),
    {
        let dd = delta.tuples();
        let ii = integral.tuples();
        let mut result: Vec<(O, R)> = Vec::new();
        let mut d: usize = 0;
        let mut t: usize = 0;
        let ghost ki = key_set(ii@);
        proof {
            assert(dd@.take(0) =~= Seq::<((K, V), R)>::empty());
            lemma_key_order::<K>();
            lemma_key_set_finite(ii@);
            assert forall|agg: spec_fn(K, Seq<(V, R)>) -> O, o: O|
                #[trigger] aggregate_set(agg, ii@, key_set(dd@.take(0)).intersect(ki), o).len()
                    == 0 by {
                assert(aggregate_set(agg, ii@, key_set(dd@.take(0)).intersect(ki), o)
                    =~= Set::<K>::empty());
            }
        }
        while d < dd.len()
            invariant
                ordered_key::<K>(),
                ordered_key::<V>(),
                callable(self.agg_func()),
                dd@ == delta@,
                ii@ == integral@,
                ki == key_set(ii@),
                ki.finite(),
                is_canonical(dd@),
                is_canonical(ii@),
                dd@.len() <= R::max_value(),
                d <= dd.len(),
                t <= ii.len(),
                result@.len() <= d,
                d < dd.len() ==> forall|j: int| 0 <= j < d ==> key_lt((#[trigger] dd@[j]).0.0, dd@[d as int].0.0),
                d < dd.len() ==> forall|j: int| 0 <= j < t ==> key_lt((#[trigger] ii@[j]).0.0, dd@[d as int].0.0),
                forall|o: O| #[trigger] abs_weight_of(result@, o) <= result@.len(),
                forall|o: O| #[trigger] abs_weight_of(result@, o) == self.sign() * weight_of(result@, o),
                forall|agg: spec_fn(K, Seq<(V, R)>) -> O| #[trigger]
                    computes(self.agg_func(), agg) ==> forall|o: O| #[trigger]
                        weight_of(result@, o) == self.sign() * aggregate_set(
                            agg,
                            ii@,
                            key_set(dd@.take(d as int)).intersect(ki),
                            o,
                        ).len(),
            decreases dd.len() - d,
        {
            let key = dd[d].0.0;
            let (dg, d2) = extract_group(dd, d, key);
            let (g, t2) = extract_group(ii, t, key);
            let ghost before = result@;
            let ghost keys = key_set(dd@.take(d as int)).intersect(ki);
            proof {
                lemma_group_is(ii@, key, g@);
                lemma_group_nonempty(ii@, key);
                lemma_next_key(dd@, d as int, d2 as int);
                lemma_key_set_finite(dd@.take(d as int));
                if ki.contains(key) {
                    assert(key_set(dd@.take(d2 as int)).intersect(ki) =~= keys.insert(key));
                } else {
                    assert(key_set(dd@.take(d2 as int)).intersect(ki) =~= keys);
                }
            }
            if g.len() > 0 {
                // Retract or insert the aggregate of the key's group.
                let o = (self.agg_func)(&key, &g);
                let w: R = self.weight();
                result.push((o, w));
                proof {
                    assert forall|x: O| #[trigger] abs_weight_of(result@, x) <= result@.len() by {
                        lemma_push_one(before, (o, w), x);
                    }
                    assert forall|x: O| #[trigger] abs_weight_of(result@, x) == self.sign()
                        * weight_of(result@, x) by {
                        lemma_push_one(before, (o, w), x);
                    }
                    assert forall|agg: spec_fn(K, Seq<(V, R)>) -> O| #[trigger]
                        computes(self.agg_func(), agg) implies forall|x: O| #[trigger]
                        weight_of(result@, x) == self.sign() * aggregate_set(
                            agg,
                            ii@,
                            key_set(dd@.take(d2 as int)).intersect(ki),
                            x,
                        ).len() by {
                        assert(o == agg(key, g@));
                        assert forall|x: O| #[trigger]
                            weight_of(result@, x) == self.sign() * aggregate_set(
                                agg,
                                ii@,
                                key_set(dd@.take(d2 as int)).intersect(ki),
                                x,
                            ).len() by {
                            lemma_push_one(before, (o, w), x);
                            lemma_aggregate_set_insert(agg, ii@, keys, key, x);
                        }
                    }
                }
            }
            proof {
                if d2 < dd.len() {
                    let nk = dd@[d2 as int].0.0;
                    assert forall|j: int| 0 <= j < t2 implies key_lt((#[trigger] ii@[j]).0.0, nk) by {
                        crate::group::lemma_le_lt(ii@[j].0.0, key, nk);
                    }
                }
            }
            d = d2;
            t = t2;
        }
        proof {
            assert(dd@.take(dd@.len() as int) =~= dd@);
            R::lemma_bounds();
            assert forall|o: O| #[trigger] abs_weight_of(result@, o) <= R::max_value() by {}
            crate::consolidation::lemma_runs_fit_of_abs(result@);
        }
        let r = OrdZSet::from_tuples(result);
        proof {
            assert forall|o: O| 0 <= #[trigger] (self.sign() * weight_of(r@, o)) <= delta@.len() by {
                assert(weight_of(r@, o) == weight_of(result@, o));
                crate::consolidation::lemma_abs_weight_nonneg(result@, o);
            }
        }
        r
    }
}

/// A finite set splits into its part inside `d` and its part outside.
pub proof fn lemma_len_split<A>(a: Set<A>, d: Set<A>)
    requires
        a.finite(),
    ensures
        a.len() == a.intersect(d).len() + a.difference(d).len(),
    decreases a.len(),
{
    if a.len() == 0 {
        assert(a =~= Set::<A>::empty()) by {
            if exists|x: A| a.contains(x) {
                let x = choose|x: A| a.contains(x);
                vstd::set::axiom_set_remove_len(a, x);
            }
        }
        assert(a.intersect(d) =~= Set::<A>::empty());
        assert(a.difference(d) =~= Set::<A>::empty());
    } else {
        let x = a.choose();
        let b = a.remove(x);
        lemma_len_split(b, d);
        if d.contains(x) {
            assert(a.intersect(d) =~= b.intersect(d).insert(x));
            assert(a.difference(d) =~= b.difference(d));
        } else {
            assert(a.intersect(d) =~= b.intersect(d));
            assert(a.difference(d) =~= b.difference(d).insert(x));
        }
    }
}

/// Incremental aggregation agrees with aggregating the integrals: where the
/// integral `b` after a tick is the integral `a` before it plus the change
/// `delta`, inserting the aggregates of the changed keys' groups in `b` and
/// retracting those in `a` changes the aggregate of the integral exactly as
/// aggregating `b` in full and subtracting the aggregate of `a` does.
pub proof fn lemma_aggregate_incremental<K: Ord, V: Ord, R: ZRingValue, O>(
    agg: spec_fn(K, Seq<(V, R)>) -> O,
    a: Seq<((K, V), R)>,
    delta: Seq<((K, V), R)>,
    b: Seq<((K, V), R)>,
    o: O,
)
    requires
        ordered_key::<K>(),
        ordered_key::<V>(),
        is_canonical(a),
        is_canonical(delta),
        is_canonical(b),
        forall|x: (K, V)| #[trigger] weight_of(b, x) == weight_of(a, x) + weight_of(delta, x),
    ensures
        incremental_count(agg, delta, b, o) - incremental_count(agg, delta, a, o) == aggregate_count(
            agg,
            b,
            o,
        ) - aggregate_count(agg, a, o),
{
    let kd = key_set(delta);
    let ka = key_set(a);
    let kb = key_set(b);
    lemma_key_set_finite(a);
    lemma_key_set_finite(b);
    let sa = aggregate_set(agg, a, ka, o);
    let sb = aggregate_set(agg, b, kb, o);
    vstd::set_lib::lemma_len_subset(sa, ka);
    vstd::set_lib::lemma_len_subset(sb, kb);
    // Outside the changed keys, the groups and the keys stay.
    assert forall|k: K| !kd.contains(k) implies group_of(b, k) == group_of(a, k) && (kb.contains(k)
        == ka.contains(k)) by {
        lemma_group_nonempty(delta, k);
        lemma_group_canonical(a, k);
        lemma_group_canonical(b, k);
        assert forall|v: V| #[trigger] weight_of(group_of(b, k), v) == weight_of(group_of(a, k), v) by {
            lemma_group_weight(a, k, v);
            lemma_group_weight(b, k, v);
            lemma_group_weight(delta, k, v);
            assert(group_of(delta, k) =~= Seq::<(V, R)>::empty());
        }
        lemma_canonical_unique(group_of(b, k), group_of(a, k));
        lemma_group_nonempty(a, k);
        lemma_group_nonempty(b, k);
    }
    assert(sb.difference(kd) =~= sa.difference(kd));
    assert(aggregate_set(agg, b, kd.intersect(kb), o) =~= sb.intersect(kd));
    assert(aggregate_set(agg, a, kd.intersect(ka), o) =~= sa.intersect(kd));
    lemma_len_split(sa, kd);
    lemma_len_split(sb, kd);
}


/// One tick of incremental aggregation. Integrates `delta` into `integral`
/// and returns the new integral with the change of the aggregate: the
/// aggregates of the changed keys' old groups retracted, those of their new
/// groups inserted. The change equals the aggregate of the new integral
/// minus that of the old one.
pub fn aggregate_incremental<K: Ord + Copy, V: Ord + Copy, R: ZRingValue, O: Ord + Copy, F: Fn(
    &K,
    &Vec<(V, R)>,
) -> O + Copy>(
    agg_func: F,
    delta: &OrdZSet<(K, V), R>,
    integral: &OrdZSet<(K, V), R>,
) -> (r: (OrdZSet<(K, V), R>, OrdZSet<O, R>))
    requires
        ordered_key::<K>(),
        ordered_key::<V>(),
        ordered_key::<O>(),
        callable(agg_func),
        delta@.len() <= R::max_value(),
        forall|x: (K, V)|
            R::min_value() <= #[trigger] weight_of(integral@, x) + weight_of(delta@, x)
                <= R::max_value(),
    ensures
        forall|x: (K, V)| #[trigger] weight_of(r.0@, x) == weight_of(integral@, x) + weight_of(delta@, x),
        is_canonical(r.0@),
        is_canonical(r.1@),
        forall|agg: spec_fn(K, Seq<(V, R)>) -> O| #[trigger]
            computes(agg_func, agg) ==> forall|o: O| #[trigger]
                weight_of(r.1@, o) == aggregate_count(agg, r.0@, o) - aggregate_count(
                    agg,
                    integral@,
                    o,
                ),
{
    proof {
        crate::group::lemma_pair_ordered::<K, V>();
    }
    let new_integral = integral.merge(delta);
    let _ = integral.tuples();
    let _ = delta.tuples();
    let _ = new_integral.tuples();
    let retract = AggregateIncremental::new(false, agg_func);
    let insert = AggregateIncremental::new(true, agg_func);
    let retract_old = retract.eval(delta, integral);
    let insert_new = insert.eval(delta, &new_integral);
    proof {
        R::lemma_bounds();
        assert forall|o: O|
            R::min_value() <= #[trigger] weight_of(retract_old@, o) + weight_of(insert_new@, o)
                <= R::max_value() by {
            assert(retract.sign() == -1);
            assert(insert.sign() == 1);
            assert(0 <= retract.sign() * weight_of(retract_old@, o) <= delta@.len());
            assert(0 <= insert.sign() * weight_of(insert_new@, o) <= delta@.len());
            assert(-delta@.len() <= weight_of(retract_old@, o) <= 0);
        }
    }
    let output = retract_old.merge(&insert_new);
    proof {
        assert forall|agg: spec_fn(K, Seq<(V, R)>) -> O| #[trigger]
            computes(agg_func, agg) implies forall|o: O| #[trigger]
            weight_of(output@, o) == aggregate_count(agg, new_integral@, o) - aggregate_count(
                agg,
                integral@,
                o,
            ) by {
            assert forall|o: O| #[trigger]
                weight_of(output@, o) == aggregate_count(agg, new_integral@, o) - aggregate_count(
                    agg,
                    integral@,
                    o,
                ) by {
                lemma_aggregate_incremental(agg, integral@, delta@, new_integral@, o);
            }
        }
    }
    (new_integral, output)
}


/// Over whole streams: incremental aggregation, integrated, is aggregation of
/// the integrated input. With `integrals[t]` the canonical integral of
/// `deltas` at tick `t`, and each `outputs[t]` what `aggregate_incremental`
/// returns at that tick (the aggregate of `integrals[t]` minus that of the
/// integral before it, empty at the first tick), the integral of the outputs
/// at every tick is the aggregate of the integral of the input.
pub proof fn lemma_aggregate_stream<K: Ord, V: Ord, R: ZRingValue, O>(
    agg: spec_fn(K, Seq<(V, R)>) -> O,
    deltas: Seq<Seq<((K, V), R)>>,
    integrals: Seq<Seq<((K, V), R)>>,
    outputs: Seq<Seq<(O, R)>>,
)
    requires
        integrals.len() == deltas.len(),
        outputs.len() == deltas.len(),
        forall|t: int, x: (K, V)|
            0 <= t < integrals.len() ==> #[trigger] weight_of(integrals[t], x)
                == crate::stream::integral_weight(deltas, t, x),
        forall|t: int, o: O|
            0 <= t < outputs.len() ==> #[trigger] weight_of(outputs[t], o) == aggregate_count(
                agg,
                integrals[t],
                o,
            ) - (if t == 0 {
                0
            } else {
                aggregate_count(agg, integrals[t - 1], o)
            }),
    ensures
        forall|t: int, o: O|
            0 <= t < outputs.len() ==> #[trigger] crate::stream::integral_weight(outputs, t, o)
                == aggregate_count(agg, integrals[t], o),
{
    assert forall|t: int, o: O| 0 <= t < outputs.len() implies #[trigger] crate::stream::integral_weight(
        outputs,
        t,
        o,
    ) == aggregate_count(agg, integrals[t], o) by {
        lemma_aggregate_stream_at(agg, deltas, integrals, outputs, t, o);
    }
}

proof fn lemma_aggregate_stream_at<K: Ord, V: Ord, R: ZRingValue, O>(
    agg: spec_fn(K, Seq<(V, R)>) -> O,
    deltas: Seq<Seq<((K, V), R)>>,
    integrals: Seq<Seq<((K, V), R)>>,
    outputs: Seq<Seq<(O, R)>>,
    t: int,
    o: O,
)
    requires
        0 <= t < outputs.len(),
        integrals.len() == outputs.len(),
        forall|u: int, o: O|
            0 <= u < outputs.len() ==> #[trigger] weight_of(outputs[u], o) == aggregate_count(
                agg,
                integrals[u],
                o,
            ) - (if u == 0 {
                0
            } else {
                aggregate_count(agg, integrals[u - 1], o)
            }),
    ensures
        crate::stream::integral_weight(outputs, t, o) == aggregate_count(agg, integrals[t], o),
    decreases t,
{
    assert(weight_of(outputs[t], o) == aggregate_count(agg, integrals[t], o) - (if t == 0 {
        0
    } else {
        aggregate_count(agg, integrals[t - 1], o)
    }));
    assert(crate::stream::integral_weight(outputs, t, o) == crate::stream::integral_weight(
        outputs,
        t - 1,
        o,
    ) + weight_of(outputs[t], o));
    if t > 0 {
        lemma_aggregate_stream_at(agg, deltas, integrals, outputs, t - 1, o);
    } else {
        assert(crate::stream::integral_weight(outputs, -1, o) == 0);
    }
}

} // verus!
