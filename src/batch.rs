//! Batches: immutable Z-sets held in canonical form.

use vstd::prelude::*;
use crate::algebra::{ZRingValue, ordered_key, key_lt};
use crate::consolidation::{
    consolidate, is_canonical, is_consolidation_of, lemma_weight_push, lemma_weight_take_step,
    runs_fit, weight_of,
};
use crate::cursor::{BatchCursor, CursorPair, Direction};

verus! {

/// A Z-set over records `K` with weights `R`, kept in canonical form:
/// records strictly ascending, no zero weight.
pub struct OrdZSet<K: Ord, R: ZRingValue> {
    data: Vec<(K, R)>,
}

impl<K: Ord, R: ZRingValue> View for OrdZSet<K, R> {
    type V = Seq<(K, R)>;

    closed spec fn view(&self) -> Seq<(K, R)> {
        self.data@
    }
}

impl<K: Ord, R: ZRingValue> OrdZSet<K, R> {
    #[verifier::type_invariant]
    closed spec fn canonical(&self) -> bool {
        is_canonical(self.data@)
    }

    /// The empty Z-set.
    pub fn empty() -> (r: Self)
        ensures
            r@.len() == 0,
    {
        OrdZSet { data: Vec::new() }
    }

    /// Builds a batch from `(record, weight)` pairs in any order, with
    /// repetitions and zero weights: they are consolidated.
    pub fn from_tuples(tuples: Vec<(K, R)>) -> (r: Self)
        requires
            ordered_key::<K>(),
            runs_fit(tuples@),
        ensures
            is_consolidation_of(r@, tuples@),
    {
        let mut data = tuples;
        consolidate(&mut data);
        OrdZSet { data }
    }

    /// The pairs, in canonical order.
    pub fn tuples(&self) -> (r: &Vec<(K, R)>)
        ensures
            r@ == self@,
            is_canonical(self@),
    {
        proof {
            use_type_invariant(self);
        }
        &self.data
    }

    /// The number of pairs.
    pub fn len(&self) -> (r: usize)
        ensures
            r == self@.len(),
    {
        self.data.len()
    }

    /// The number of distinct keys: in a flat batch, the number of pairs.
    pub fn keys(&self) -> (r: usize)
        ensures
            r == self@.len(),
    {
        self.data.len()
    }

    pub fn is_empty(&self) -> (r: bool)
        ensures
            r == (self@.len() == 0),
    {
        self.data.len() == 0
    }

    /// A forward cursor at the first pair.
    pub fn cursor(&self) -> (r: BatchCursor<'_, K, R>)
        ensures
            r.inv(),
            r.data() == self@,
            r.pos() == 0,
            r.direction() == Direction::Forward,
            is_canonical(self@),
    {
        proof {
            use_type_invariant(self);
        }
        BatchCursor::new(&self.data)
    }
}

impl<K: Ord + Copy, R: ZRingValue> OrdZSet<K, R> {
    /// The Z-set with every weight negated.
    pub fn neg(&self) -> (r: Self)
        requires
            forall|i: int| 0 <= i < self@.len() ==> R::min_value() < (#[trigger] self@[i]).1.as_int(),
        ensures
            r@.len() == self@.len(),
            forall|i: int|
                0 <= i < self@.len() ==> (#[trigger] r@[i]).0 == self@[i].0 && r@[i].1.as_int()
                    == -self@[i].1.as_int(),
            forall|k: K| #[trigger] weight_of(r@, k) == -weight_of(self@, k),
    {
        proof {
            use_type_invariant(self);
            R::lemma_bounds();
        }
        let mut data: Vec<(K, R)> = Vec::new();
        let mut i: usize = 0;
        while i < self.data.len()
            invariant
                i <= self.data@.len(),
                is_canonical(self.data@),
                R::min_value() + R::max_value() == -1,
                forall|j: int| 0 <= j < self@.len() ==> R::min_value() < (#[trigger] self@[j]).1.as_int(),
                self@ == self.data@,
                data@.len() == i,
                forall|j: int|
                    0 <= j < i ==> (#[trigger] data@[j]).0 == self@[j].0 && data@[j].1.as_int()
                        == -self@[j].1.as_int(),
                forall|k: K| #[trigger] weight_of(data@, k) == -weight_of(self@.take(i as int), k),
            decreases self.data@.len() - i,
        {
            proof {
                R::lemma_in_range(&self.data@[i as int].1);
            }
            let k = self.data[i].0;
            let w = self.data[i].1.neg_by_ref();
            let ghost before = data@;
            data.push((k, w));
            proof {
                assert forall|x: K| #[trigger] weight_of(data@, x) == -weight_of(
                    self@.take(i + 1),
                    x,
                ) by {
                    lemma_weight_push(before, (k, w), x);
                    lemma_weight_take_step(self@, i as int, x);
                }
            }
            i = i + 1;
        }
        proof {
            assert(self@.take(self@.len() as int) =~= self@);
            assert forall|a: int, b: int| 0 <= a < b < data@.len() implies key_lt(
                #[trigger] data@[a].0,
                #[trigger] data@[b].0,
            ) by {
                assert(key_lt(self@[a].0, self@[b].0));
            }
        }
        OrdZSet { data }
    }

    /// The sum of two Z-sets. Keys of one side only are copied; the weights
    /// of a key on both sides are added, and the key is dropped where they
    /// cancel.
    pub fn merge(&self, other: &Self) -> (r: Self)
        requires
            ordered_key::<K>(),
            forall|k: K|
                R::min_value() <= #[trigger] weight_of(self@, k) + weight_of(other@, k)
                    <= R::max_value(),
        ensures
            is_consolidation_of(r@, self@ + other@),
            forall|k: K| #[trigger] weight_of(r@, k) == weight_of(self@, k) + weight_of(other@, k),
    {
        let data = merge_tuples(self.tuples(), other.tuples());
        OrdZSet { data }
    }
}

/// Merges two canonical sequences by walking a `CursorPair` over them.
fn merge_tuples<K: Ord + Copy, R: ZRingValue>(a: &Vec<(K, R)>, b: &Vec<(K, R)>) -> (r: Vec<(K, R)>)
    requires
        ordered_key::<K>(),
        is_canonical(a@),
        is_canonical(b@),
        forall|k: K|
            R::min_value() <= #[trigger] weight_of(a@, k) + weight_of(b@, k) <= R::max_value(),
    ensures
        is_consolidation_of(r@, a@ + b@),
        forall|k: K| #[trigger] weight_of(r@, k) == weight_of(a@, k) + weight_of(b@, k),
{
    let mut pair = CursorPair::new(BatchCursor::new(a), BatchCursor::new(b));
    pair.collect()
}

} // verus!
