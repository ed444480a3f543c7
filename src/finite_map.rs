//! Finite maps from keys to weights, held in a hash map: a Z-set whose
//! records are integers, with only nonzero weights stored.

use vstd::prelude::*;
use crate::consolidation::{lemma_weight_take_step, runs_fit, weight_of};

verus! {

/// The hash map that holds the entries of a `FiniteHashMap`.
#[verifier::external_body]
pub struct HashStore {
    map: hashbrown::HashMap<u64, i64>,
}

/// What a `HashStore` holds.
pub uninterp spec fn store_contents(s: HashStore) -> Map<u64, i64>;

pub open spec fn no_entries() -> Map<u64, i64> {
    Map::empty()
}

/// Relies on hashbrown's `HashMap::new`: an empty map.
#[verifier::external_body]
fn store_new() -> (r: HashStore)
    ensures
        store_contents(r) == no_entries(),
{
    HashStore { map: hashbrown::HashMap::new() }
}

/// Relies on hashbrown's `HashMap::with_capacity`: an empty map.
#[verifier::external_body]
fn store_with_capacity(capacity: usize) -> (r: HashStore)
    ensures
        store_contents(r) == no_entries(),
{
    HashStore { map: hashbrown::HashMap::with_capacity(capacity) }
}

/// Relies on hashbrown's `HashMap::clone`: the same entries.
#[verifier::external_body]
fn store_clone(s: &HashStore) -> (r: HashStore)
    ensures
        store_contents(r) == store_contents(*s),
{
    HashStore { map: s.map.clone() }
}

/// Relies on hashbrown's `HashMap::get`: the value under `k`, if any.
#[verifier::external_body]
fn store_get(s: &HashStore, k: u64) -> (r: Option<i64>)
    ensures
        r == (if store_contents(*s).contains_key(k) {
            Some(store_contents(*s)[k])
        } else {
            None
        }),
{
    s.map.get(&k).copied()
}

/// Relies on hashbrown's `HashMap::insert`: `k` now maps to `v`.
#[verifier::external_body]
fn store_insert(s: &mut HashStore, k: u64, v: i64)
    ensures
        store_contents(*final(s)) == store_contents(*old(s)).insert(k, v),
{
    s.map.insert(k, v);
}

/// Relies on hashbrown's `HashMap::remove`: `k` is gone.
#[verifier::external_body]
fn store_remove(s: &mut HashStore, k: u64)
    ensures
        store_contents(*final(s)) == store_contents(*old(s)).remove(k),
{
    s.map.remove(&k);
}

/// Relies on hashbrown's `HashMap::len`: the number of entries.
#[verifier::external_body]
fn store_len(s: &HashStore) -> (r: usize)
    ensures
        r == store_contents(*s).dom().len(),
{
    s.map.len()
}

/// Relies on hashbrown's `HashMap::iter`: every entry once, in an order
/// that the hashing decides.
#[verifier::external_body]
fn store_entries(s: &HashStore) -> (r: Vec<(u64, i64)>)
    ensures
        forall|i: int, j: int| 0 <= i < j < r@.len() ==> r@[i].0 != r@[j].0,
        forall|i: int|
            0 <= i < r@.len() ==> store_contents(*s).contains_key((#[trigger] r@[i]).0)
                && store_contents(*s)[r@[i].0] == r@[i].1,
        forall|k: u64|
            store_contents(*s).contains_key(k) ==> exists|i: int|
                0 <= i < r@.len() && (#[trigger] r@[i]).0 == k,
{
    s.map.iter().map(|(k, v)| (*k, *v)).collect()
}

/// The weight of `k` in `m`: its value, or zero when absent.
pub open spec fn get0(m: Map<u64, i64>, k: u64) -> int {
    if m.contains_key(k) {
        m[k] as int
    } else {
        0
    }
}

/// A map holds only nonzero values, and finitely many.
pub open spec fn nonzero(m: Map<u64, i64>) -> bool {
    &&& m.dom().finite()
    &&& forall|k: u64| m.contains_key(k) ==> #[trigger] m[k] != 0
}

/// A finite map from keys to weights. A key whose weight is zero is absent:
/// exactly the keys of nonzero weight are stored.
pub struct FiniteHashMap {
    value: HashStore,
}

impl View for FiniteHashMap {
    type V = Map<u64, i64>;

    closed spec fn view(&self) -> Map<u64, i64> {
        store_contents(self.value)
    }
}

impl FiniteHashMap {
    pub open spec fn wf(&self) -> bool {
        nonzero(self@)
    }

    /// The weight of `k`.
    pub open spec fn weight(&self, k: u64) -> int {
        get0(self@, k)
    }

    /// Create a new map.
    pub fn new() -> (r: Self)
        ensures
            r.wf(),
            r@ == Map::<u64, i64>::empty(),
    {
        FiniteHashMap { value: store_new() }
    }

    /// Create an empty map with the capacity to hold `size` entries without
    /// reallocating.
    pub fn with_capacity(size: usize) -> (r: Self)
        ensures
            r.wf(),
            r@ == Map::<u64, i64>::empty(),
    {
        FiniteHashMap { value: store_with_capacity(size) }
    }

    /// The map whose weights are the sums of the weights paired with each
    /// key in `pairs`.
    pub fn from_iter(pairs: Vec<(u64, i64)>) -> (r: Self)
        requires
            runs_fit(pairs@),
        ensures
            r.wf(),
            forall|k: u64| #[trigger] r.weight(k) == weight_of(pairs@, k),
    {
        let mut result = Self::new();
        let mut i: usize = 0;
        proof {
            assert(pairs@.take(0) =~= Seq::<(u64, i64)>::empty());
        }
        while i < pairs.len()
            invariant
                result.wf(),
                i <= pairs@.len(),
                runs_fit(pairs@),
                forall|k: u64| #[trigger] result.weight(k) == weight_of(pairs@.take(i as int), k),
            decreases pairs@.len() - i,
        {
            let (k, v) = pairs[i];
            proof {
                lemma_weight_take_step(pairs@, i as int, k);
                assert(pairs@.subrange(0, i + 1) =~= pairs@.take(i + 1));
                assert(weight_of(pairs@.subrange(0, i + 1), k) <= i64::MAX);
            }
            result.increment(&k, v);
            proof {
                assert forall|x: u64| #[trigger] result.weight(x) == weight_of(pairs@.take(i + 1), x) by {
                    lemma_weight_take_step(pairs@, i as int, x);
                }
            }
            i = i + 1;
        }
        proof {
            assert(pairs@.take(pairs@.len() as int) =~= pairs@);
        }
        result
    }

    pub fn empty() -> (r: Self)
        ensures
            r.wf(),
            r@ == Map::<u64, i64>::empty(),
    {
        Self::new()
    }

    pub fn zero() -> (r: Self)
        ensures
            r.wf(),
            r@ == Map::<u64, i64>::empty(),
    {
        Self::new()
    }

    pub fn is_zero(&self) -> (r: bool)
        ensures
            r == (self@.dom().len() == 0),
    {
        store_len(&self.value) == 0
    }

    /// The number of keys of nonzero weight.
    pub fn support_size(&self) -> (r: usize)
        ensures
            r == self@.dom().len(),
    {
        store_len(&self.value)
    }

    /// The number of stored entries.
    pub fn num_entries(&self) -> (r: usize)
        ensures
            r == self@.dom().len(),
    {
        store_len(&self.value)
    }

    /// The keys of nonzero weight, each once, in no particular order.
    pub fn support(&self) -> (r: Vec<u64>)
        ensures
            forall|i: int, j: int| 0 <= i < j < r@.len() ==> r@[i] != r@[j],
            forall|i: int| 0 <= i < r@.len() ==> self@.contains_key(#[trigger] r@[i]),
            forall|k: u64| self@.contains_key(k) ==> r@.contains(k),
    {
        let entries = store_entries(&self.value);
        let mut keys: Vec<u64> = Vec::new();
        let mut i: usize = 0;
        while i < entries.len()
            invariant
                i <= entries@.len(),
                keys@.len() == i,
                forall|j: int| 0 <= j < i ==> keys@[j] == (#[trigger] entries@[j]).0,
                forall|a: int, b: int| 0 <= a < b < entries@.len() ==> entries@[a].0 != entries@[b].0,
                forall|a: int|
                    0 <= a < entries@.len() ==> self@.contains_key((#[trigger] entries@[a]).0),
            decreases entries@.len() - i,
        {
            keys.push(entries[i].0);
            i = i + 1;
        }
        proof {
            assert forall|a: int, b: int| 0 <= a < b < keys@.len() implies keys@[a] != keys@[b] by {
                assert(keys@[a] == entries@[a].0 && keys@[b] == entries@[b].0);
            }
            assert forall|a: int| 0 <= a < keys@.len() implies self@.contains_key(#[trigger] keys@[a]) by {
                assert(keys@[a] == entries@[a].0);
            }
            assert forall|k: u64| self@.contains_key(k) implies keys@.contains(k) by {
                let j = choose|j: int| 0 <= j < entries@.len() && (#[trigger] entries@[j]).0 == k;
                assert(keys@[j] == k);
            }
        }
        keys
    }

    /// The weight of `key`: zero when absent.
    pub fn lookup(&self, key: &u64) -> (r: i64)
        ensures
            r == self.weight(*key),
    {
        match store_get(&self.value, *key) {
            Some(v) => v,
            None => 0,
        }
    }

    /// The weight of `key` if it is nonzero.
    pub fn get_in_support(&self, key: &u64) -> (r: Option<i64>)
        ensures
            r == (if self@.contains_key(*key) {
                Some(self@[*key])
            } else {
                None
            }),
    {
        store_get(&self.value, *key)
    }

    /// Adds `value` to the weight of `key`; the key leaves the map when its
    /// weight becomes zero.
    pub fn increment(&mut self, key: &u64, value: i64)
        requires
            old(self).wf(),
            i64::MIN <= old(self).weight(*key) + value <= i64::MAX,
        ensures
            final(self).wf(),
            forall|k: u64| #[trigger]
                final(self).weight(k) == old(self).weight(k) + (if k == *key {
                    value as int
                } else {
                    0
                }),
    {
        if value == 0 {
            return;
        }
        match store_get(&self.value, *key) {
            None => {
                store_insert(&mut self.value, *key, value);
            },
            Some(v) => {
                let sum = v + value;
                if sum == 0 {
                    store_remove(&mut self.value, *key);
                } else {
                    store_insert(&mut self.value, *key, sum);
                }
            },
        }
    }

    /// Adds `value` to the weight of `key`, taking the key by value.
    pub fn increment_owned(&mut self, key: u64, value: i64)
        requires
            old(self).wf(),
            i64::MIN <= old(self).weight(key) + value <= i64::MAX,
        ensures
            final(self).wf(),
            forall|k: u64| #[trigger]
                final(self).weight(k) == old(self).weight(k) + (if k == key {
                    value as int
                } else {
                    0
                }),
    {
        self.increment(&key, value);
    }

    /// Replaces the weight `w` of `key` by `f(w)`; the key leaves the map
    /// when the new weight is zero.
    pub fn update<F: FnOnce(i64) -> i64>(&mut self, key: &u64, f: F)
        requires
            old(self).wf(),
            call_requires(f, (old(self).weight(*key) as i64,)),
        ensures
            final(self).wf(),
            exists|nw: i64|
                #[trigger] call_ensures(f, (old(self).weight(*key) as i64,), nw) && forall|k: u64| #[trigger]
                    final(self).weight(k) == if k == *key {
                        nw as int
                    } else {
                        old(self).weight(k)
                    },
    {
        let old_weight = match store_get(&self.value, *key) {
            Some(v) => v,
            None => 0,
        };
        let nw = f(old_weight);
        if nw == 0 {
            store_remove(&mut self.value, *key);
        } else {
            store_insert(&mut self.value, *key, nw);
        }
    }

    /// `update`, taking the key by value.
    pub fn update_owned<F: FnOnce(i64) -> i64>(&mut self, key: u64, f: F)
        requires
            old(self).wf(),
            call_requires(f, (old(self).weight(key) as i64,)),
        ensures
            final(self).wf(),
            exists|nw: i64|
                #[trigger] call_ensures(f, (old(self).weight(key) as i64,), nw) && forall|k: u64| #[trigger]
                    final(self).weight(k) == if k == key {
                        nw as int
                    } else {
                        old(self).weight(k)
                    },
    {
        self.update(&key, f);
    }

    /// Adds every weight of `other` into `self`.
    pub fn add_assign_by_ref(&mut self, other: &Self)
        requires
            old(self).wf(),
            other.wf(),
            forall|k: u64| i64::MIN <= #[trigger] old(self).weight(k) + other.weight(k) <= i64::MAX,
        ensures
            final(self).wf(),
            forall|k: u64| #[trigger] final(self).weight(k) == old(self).weight(k) + other.weight(k),
    {
        let entries = store_entries(&other.value);
        let ghost start = *self;
        let mut i: usize = 0;
        while i < entries.len()
            invariant
                self.wf(),
                other.wf(),
                i <= entries@.len(),
                forall|a: int, b: int| 0 <= a < b < entries@.len() ==> entries@[a].0 != entries@[b].0,
                forall|a: int|
                    0 <= a < entries@.len() ==> other@.contains_key((#[trigger] entries@[a]).0)
                        && other@[entries@[a].0] == entries@[a].1,
                forall|k: u64|
                    other@.contains_key(k) ==> exists|a: int|
                        0 <= a < entries@.len() && (#[trigger] entries@[a]).0 == k,
                forall|k: u64| i64::MIN <= #[trigger] start.weight(k) + other.weight(k) <= i64::MAX,
                forall|k: u64| #[trigger]
                    self.weight(k) == start.weight(k) + (if exists|a: int|
                        0 <= a < i && (#[trigger] entries@[a]).0 == k {
                        other.weight(k)
                    } else {
                        0
                    }),
            decreases entries@.len() - i,
        {
            let (k, v) = entries[i];
            proof {
                assert(!(exists|a: int| 0 <= a < i && (#[trigger] entries@[a]).0 == k)) by {
                    if exists|a: int| 0 <= a < i && (#[trigger] entries@[a]).0 == k {
                        let a = choose|a: int| 0 <= a < i && (#[trigger] entries@[a]).0 == k;
                        assert(entries@[a].0 != entries@[i as int].0);
                    }
                }
                assert(other.weight(k) == v);
            }
            self.increment(&k, v);
            proof {
                assert forall|x: u64| #[trigger]
                    self.weight(x) == start.weight(x) + (if exists|a: int|
                        0 <= a < i + 1 && (#[trigger] entries@[a]).0 == x {
                        other.weight(x)
                    } else {
                        0
                    }) by {
                    if x == k {
                        assert(entries@[i as int].0 == x);
                    } else if exists|a: int| 0 <= a < i + 1 && (#[trigger] entries@[a]).0 == x {
                        let a = choose|a: int| 0 <= a < i + 1 && (#[trigger] entries@[a]).0 == x;
                        assert(a < i);
                    }
                }
            }
            i = i + 1;
        }
        proof {
            assert forall|k: u64| #[trigger] self.weight(k) == start.weight(k) + other.weight(k) by {
                if !(exists|a: int| 0 <= a < entries@.len() && (#[trigger] entries@[a]).0 == k) {
                    assert(!other@.contains_key(k));
                }
            }
        }
    }

    /// The sum of two maps. The larger map is copied and the smaller one
    /// added into it.
    pub fn add_by_ref(&self, other: &Self) -> (r: Self)
        requires
            self.wf(),
            other.wf(),
            forall|k: u64| i64::MIN <= #[trigger] self.weight(k) + other.weight(k) <= i64::MAX,
        ensures
            r.wf(),
            forall|k: u64| #[trigger] r.weight(k) == self.weight(k) + other.weight(k),
    {
        if self.support_size() > other.support_size() {
            let mut this = FiniteHashMap { value: store_clone(&self.value) };
            let ghost copy = this;
            proof {
                assert forall|k: u64| #[trigger] this.weight(k) == self.weight(k) by {}
            }
            this.add_assign_by_ref(other);
            proof {
                assert forall|k: u64| #[trigger] this.weight(k) == self.weight(k) + other.weight(k) by {
                    assert(copy.weight(k) == self.weight(k));
                }
            }
            this
        } else {
            let mut this = FiniteHashMap { value: store_clone(&other.value) };
            let ghost copy = this;
            proof {
                assert forall|k: u64| #[trigger] this.weight(k) == other.weight(k) by {}
                assert forall|k: u64|
                    i64::MIN <= #[trigger] this.weight(k) + self.weight(k) <= i64::MAX by {
                    assert(self.weight(k) + other.weight(k) <= i64::MAX);
                }
            }
            this.add_assign_by_ref(self);
            proof {
                assert forall|k: u64| #[trigger] this.weight(k) == self.weight(k) + other.weight(k) by {
                    assert(copy.weight(k) == other.weight(k));
                }
            }
            this
        }
    }

    /// The sum of two maps, consuming both.
    pub fn add(self, other: Self) -> (r: Self)
        requires
            self.wf(),
            other.wf(),
            forall|k: u64| i64::MIN <= #[trigger] self.weight(k) + other.weight(k) <= i64::MAX,
        ensures
            r.wf(),
            forall|k: u64| #[trigger] r.weight(k) == self.weight(k) + other.weight(k),
    {
        if self.support_size() > other.support_size() {
            let mut this = self;
            this.add_assign_by_ref(&other);
            this
        } else {
            proof {
                assert forall|k: u64|
                    i64::MIN <= #[trigger] other.weight(k) + self.weight(k) <= i64::MAX by {
                    assert(self.weight(k) + other.weight(k) <= i64::MAX);
                }
            }
            let mut this = other;
            this.add_assign_by_ref(&self);
            this
        }
    }

    /// Adds every weight of `other` into `self`, consuming `other`.
    pub fn add_assign(&mut self, other: Self)
        requires
            old(self).wf(),
            other.wf(),
            forall|k: u64| i64::MIN <= #[trigger] old(self).weight(k) + other.weight(k) <= i64::MAX,
        ensures
            final(self).wf(),
            forall|k: u64| #[trigger] final(self).weight(k) == old(self).weight(k) + other.weight(k),
    {
        self.add_assign_by_ref(&other);
    }

    /// The map with every weight negated.
    pub fn neg_by_ref(&self) -> (r: Self)
        requires
            self.wf(),
            forall|k: u64| self@.contains_key(k) ==> #[trigger] self@[k] != i64::MIN,
        ensures
            r.wf(),
            forall|k: u64| #[trigger] r.weight(k) == -self.weight(k),
    {
        let entries = store_entries(&self.value);
        let mut result = FiniteHashMap::new();
        let mut i: usize = 0;
        while i < entries.len()
            invariant
                result.wf(),
                self.wf(),
                i <= entries@.len(),
                forall|k: u64| self@.contains_key(k) ==> #[trigger] self@[k] != i64::MIN,
                forall|a: int, b: int| 0 <= a < b < entries@.len() ==> entries@[a].0 != entries@[b].0,
                forall|a: int|
                    0 <= a < entries@.len() ==> self@.contains_key((#[trigger] entries@[a]).0)
                        && self@[entries@[a].0] == entries@[a].1,
                forall|k: u64|
                    self@.contains_key(k) ==> exists|a: int|
                        0 <= a < entries@.len() && (#[trigger] entries@[a]).0 == k,
                forall|k: u64| #[trigger]
                    result.weight(k) == (if exists|a: int|
                        0 <= a < i && (#[trigger] entries@[a]).0 == k {
                        -self.weight(k)
                    } else {
                        0
                    }),
            decreases entries@.len() - i,
        {
            let (k, v) = entries[i];
            proof {
                assert(!(exists|a: int| 0 <= a < i && (#[trigger] entries@[a]).0 == k)) by {
                    if exists|a: int| 0 <= a < i && (#[trigger] entries@[a]).0 == k {
                        let a = choose|a: int| 0 <= a < i && (#[trigger] entries@[a]).0 == k;
                        assert(entries@[a].0 != entries@[i as int].0);
                    }
                }
                assert(self.weight(k) == v);
            }
            result.increment(&k, -v);
            proof {
                assert forall|x: u64| #[trigger]
                    result.weight(x) == (if exists|a: int|
                        0 <= a < i + 1 && (#[trigger] entries@[a]).0 == x {
                        -self.weight(x)
                    } else {
                        0
                    }) by {
                    if x == k {
                        assert(entries@[i as int].0 == x);
                    } else if exists|a: int| 0 <= a < i + 1 && (#[trigger] entries@[a]).0 == x {
                        let a = choose|a: int| 0 <= a < i + 1 && (#[trigger] entries@[a]).0 == x;
                        assert(a < i);
                    }
                }
            }
            i = i + 1;
        }
        proof {
            assert forall|k: u64| #[trigger] result.weight(k) == -self.weight(k) by {
                if !(exists|a: int| 0 <= a < entries@.len() && (#[trigger] entries@[a]).0 == k) {
                    assert(!self@.contains_key(k));
                }
            }
        }
        result
    }

    /// The map with every weight negated, consuming `self`.
    pub fn neg(self) -> (r: Self)
        requires
            self.wf(),
            forall|k: u64| self@.contains_key(k) ==> #[trigger] self@[k] != i64::MIN,
        ensures
            r.wf(),
            forall|k: u64| #[trigger] r.weight(k) == -self.weight(k),
    {
        self.neg_by_ref()
    }

    /// Two maps are equal when every key has the same weight in both.
    pub fn eq(&self, other: &Self) -> (r: bool)
        requires
            self.wf(),
            other.wf(),
        ensures
            r == (forall|k: u64| #[trigger] self.weight(k) == other.weight(k)),
    {
        if self.support_size() != other.support_size() {
            proof {
                if forall|k: u64| #[trigger] self.weight(k) == other.weight(k) {
                    assert forall|k: u64| self@.contains_key(k) == other@.contains_key(k) by {
                        assert(self.weight(k) == other.weight(k));
                    }
                    assert(self@.dom() =~= other@.dom());
                }
            }
            return false;
        }
        let entries = store_entries(&self.value);
        let mut i: usize = 0;
        while i < entries.len()
            invariant
                self.wf(),
                other.wf(),
                self@.dom().len() == other@.dom().len(),
                i <= entries@.len(),
                forall|a: int|
                    0 <= a < entries@.len() ==> self@.contains_key((#[trigger] entries@[a]).0)
                        && self@[entries@[a].0] == entries@[a].1,
                forall|k: u64|
                    self@.contains_key(k) ==> exists|a: int|
                        0 <= a < entries@.len() && (#[trigger] entries@[a]).0 == k,
                forall|a: int| 0 <= a < i ==> other.weight((#[trigger] entries@[a]).0) == entries@[a].1,
            decreases entries@.len() - i,
        {
            let (k, v) = entries[i];
            match store_get(&other.value, k) {
                Some(w) => {
                    if w != v {
                        proof {
                            assert(self.weight(k) != other.weight(k));
                        }
                        return false;
                    }
                },
                None => {
                    proof {
                        assert(self.weight(k) != other.weight(k));
                    }
                    return false;
                },
            }
            i = i + 1;
        }
        proof {
            // Every key of `self` has its weight in `other`; with as many keys,
            // `other` has no others.
            assert(self@.dom().subset_of(other@.dom())) by {
                assert forall|k: u64| self@.contains_key(k) implies other@.contains_key(k) by {
                    let a = choose|a: int| 0 <= a < entries@.len() && (#[trigger] entries@[a]).0 == k;
                    assert(other.weight(k) == entries@[a].1);
                }
            }
            vstd::set_lib::lemma_subset_equality(self@.dom(), other@.dom());
        }
        true
    }
}


/// Two well-formed maps with the same weight for every key are the same map.
pub proof fn lemma_weights_determine(a: FiniteHashMap, b: FiniteHashMap)
    requires
        a.wf(),
        b.wf(),
        forall|k: u64| #[trigger] a.weight(k) == b.weight(k),
    ensures
        a@ == b@,
{
    assert forall|k: u64| a@.contains_key(k) == b@.contains_key(k) by {
        assert(a.weight(k) == b.weight(k));
    }
    assert forall|k: u64| a@.contains_key(k) implies a@[k] == b@[k] by {
        assert(a.weight(k) == b.weight(k));
    }
    assert(a@ =~= b@);
}

/// Differentiating the integral gives back the change: if `integral` is
/// `previous.add(delta)` and `diff` is `integral.add(previous.neg())`, then
/// `diff` is `delta`, as a map.
pub proof fn lemma_map_differentiate_integrate(
    previous: FiniteHashMap,
    delta: FiniteHashMap,
    integral: FiniteHashMap,
    diff: FiniteHashMap,
)
    requires
        delta.wf(),
        diff.wf(),
        forall|k: u64| #[trigger] integral.weight(k) == previous.weight(k) + delta.weight(k),
        forall|k: u64| #[trigger] diff.weight(k) == integral.weight(k) - previous.weight(k),
    ensures
        diff@ == delta@,
{
    assert forall|k: u64| #[trigger] diff.weight(k) == delta.weight(k) by {
        assert(integral.weight(k) == previous.weight(k) + delta.weight(k));
    }
    lemma_weights_determine(diff, delta);
}

/// Integrating the change gives back the value: if `diff` is
/// `current.add(previous.neg())` and `integral` is `previous.add(diff)`, then
/// `integral` is `current`, as a map.
pub proof fn lemma_map_integrate_differentiate(
    previous: FiniteHashMap,
    current: FiniteHashMap,
    diff: FiniteHashMap,
    integral: FiniteHashMap,
)
    requires
        current.wf(),
        integral.wf(),
        forall|k: u64| #[trigger] diff.weight(k) == current.weight(k) - previous.weight(k),
        forall|k: u64| #[trigger] integral.weight(k) == previous.weight(k) + diff.weight(k),
    ensures
        integral@ == current@,
{
    assert forall|k: u64| #[trigger] integral.weight(k) == current.weight(k) by {
        assert(diff.weight(k) == current.weight(k) - previous.weight(k));
    }
    lemma_weights_determine(integral, current);
}

} // verus!
