//! Cursors: stateful positions in sorted batches of `(key, weight)` pairs.

use vstd::prelude::*;
use vstd::std_specs::cmp::OrdSpec;
use crate::algebra::{ZRingValue, ordered_key, key_lt, lemma_key_order};
use crate::consolidation::{
    is_canonical, is_consolidation_of, lemma_weight_concat, lemma_weight_distinct,
    lemma_weight_push, lemma_weight_take_step, weight_of,
};
use core::cmp::Ordering;

verus! {

/// The direction in which a cursor moves.
#[derive(Clone, Copy, PartialEq, Eq, Structural, Debug)]
pub enum Direction {
    Forward,
    Backward,
}

/// A cursor over a batch: a canonical sequence of `(key, weight)` pairs.
///
/// The cursor borrows the batch. Its position is valid while it is inside
/// the batch; moving past either end makes it invalid.
pub struct BatchCursor<'s, K, R> {
    data: &'s Vec<(K, R)>,
    pos: usize,
    direction: Direction,
}

impl<'s, K: Ord, R: ZRingValue> BatchCursor<'s, K, R> {
    /// The pairs of the batch.
    pub closed spec fn data(&self) -> Seq<(K, R)> {
        self.data@
    }

    /// The position; `data().len()` stands for "past the end".
    pub closed spec fn pos(&self) -> int {
        self.pos as int
    }

    pub closed spec fn direction(&self) -> Direction {
        self.direction
    }

    pub open spec fn inv(&self) -> bool {
        0 <= self.pos() <= self.data().len()
    }

    pub open spec fn valid(&self) -> bool {
        self.pos() < self.data().len()
    }

    pub open spec fn current_key(&self) -> K {
        self.data()[self.pos()].0
    }

    pub open spec fn current_weight(&self) -> R {
        self.data()[self.pos()].1
    }

    /// A forward cursor at the first pair of `data`.
    pub fn new(data: &'s Vec<(K, R)>) -> (r: Self)
        ensures
            r.inv(),
            r.data() == data@,
            r.pos() == 0,
            r.direction() == Direction::Forward,
    {
        BatchCursor { data, pos: 0, direction: Direction::Forward }
    }

    pub fn key_valid(&self) -> (r: bool)
        requires
            self.inv(),
        ensures
            r == self.valid(),
    {
        self.pos < self.data.len()
    }

    pub fn key(&self) -> (r: &'s K)
        requires
            self.inv(),
            self.valid(),
        ensures
            *r == self.current_key(),
    {
        &self.data[self.pos].0
    }

    pub fn weight(&self) -> (r: &'s R)
        requires
            self.inv(),
            self.valid(),
        ensures
            *r == self.current_weight(),
    {
        &self.data[self.pos].1
    }

    /// Moves to the next key.
    pub fn step_key(&mut self)
        requires
            old(self).inv(),
            old(self).valid(),
            old(self).direction() == Direction::Forward,
        ensures
            final(self).inv(),
            final(self).data() == old(self).data(),
            final(self).direction() == Direction::Forward,
            final(self).pos() == old(self).pos() + 1,
    {
        let len = self.data.len();
        self.pos = self.pos + 1;
    }

    /// Moves to the previous key; before the first one the cursor is invalid.
    pub fn step_key_reverse(&mut self)
        requires
            old(self).inv(),
            old(self).valid(),
            old(self).direction() == Direction::Backward,
        ensures
            final(self).inv(),
            final(self).data() == old(self).data(),
            final(self).direction() == Direction::Backward,
            final(self).pos() == if old(self).pos() == 0 {
                old(self).data().len() as int
            } else {
                old(self).pos() - 1
            },
    {
        if self.pos == 0 {
            self.pos = self.data.len();
        } else {
            self.pos = self.pos - 1;
        }
    }

    /// Advances to the first key at or after the current position that is
    /// not below `key`.
    pub fn seek_key(&mut self, key: &K)
        requires
            ordered_key::<K>(),
            is_canonical(old(self).data()),
            old(self).inv(),
            old(self).direction() == Direction::Forward,
        ensures
            final(self).inv(),
            final(self).data() == old(self).data(),
            final(self).direction() == Direction::Forward,
            old(self).pos() <= final(self).pos(),
            forall|i: int|
                old(self).pos() <= i < final(self).pos() ==> key_lt(
                    #[trigger] final(self).data()[i].0,
                    *key,
                ),
            final(self).valid() ==> !key_lt(final(self).current_key(), *key),
    {
        proof {
            lemma_key_order::<K>();
        }
        while self.pos < self.data.len()
            invariant
                ordered_key::<K>(),
                K::obeys_cmp_spec(),
                self.inv(),
                self.data() == old(self).data(),
                self.direction() == Direction::Forward,
                old(self).pos() <= self.pos(),
                forall|i: int|
                    old(self).pos() <= i < self.pos() ==> key_lt(#[trigger] self.data()[i].0, *key),
            ensures
                self.inv(),
                self.data() == old(self).data(),
                self.direction() == Direction::Forward,
                old(self).pos() <= self.pos(),
                forall|i: int|
                    old(self).pos() <= i < self.pos() ==> key_lt(#[trigger] self.data()[i].0, *key),
                self.valid() ==> !key_lt(self.current_key(), *key),
            decreases self.data().len() - self.pos(),
        {
            match self.data[self.pos].0.cmp(key) {
                Ordering::Less => {
                    self.pos = self.pos + 1;
                },
                _ => {
                    break;
                },
            }
        }
    }

    /// Moves back to the last key at or before the current position that is
    /// not above `key`; the cursor is invalid when there is none.
    pub fn seek_key_reverse(&mut self, key: &K)
        requires
            ordered_key::<K>(),
            old(self).inv(),
            old(self).direction() == Direction::Backward,
        ensures
            final(self).inv(),
            final(self).data() == old(self).data(),
            final(self).direction() == Direction::Backward,
            !old(self).valid() ==> final(self).pos() == old(self).pos(),
            final(self).valid() ==> final(self).pos() <= old(self).pos() && !key_lt(
                *key,
                final(self).current_key(),
            ),
            old(self).valid() ==> forall|i: int|
                (if final(self).valid() {
                    final(self).pos()
                } else {
                    -1
                }) < i <= old(self).pos() && i < final(self).data().len() ==> key_lt(
                    *key,
                    #[trigger] final(self).data()[i].0,
                ),
    {
        proof {
            lemma_key_order::<K>();
        }
        let len = self.data.len();
        if self.pos >= len {
            return;
        }
        loop
            invariant_except_break
                self.pos() < len,
                self.pos() <= old(self).pos(),
            invariant
                ordered_key::<K>(),
                K::obeys_cmp_spec(),
                len == self.data().len(),
                self.pos() <= len,
                old(self).pos() < len,
                self.data() == old(self).data(),
                self.direction() == Direction::Backward,
                forall|i: int|
                    self.pos() < i <= old(self).pos() && i < len ==> key_lt(
                        *key,
                        #[trigger] self.data()[i].0,
                    ),
            ensures
                self.inv(),
                self.data() == old(self).data(),
                self.direction() == Direction::Backward,
                self.valid() ==> self.pos() <= old(self).pos() && !key_lt(*key, self.current_key()),
                forall|i: int|
                    (if self.valid() {
                        self.pos()
                    } else {
                        -1
                    }) < i <= old(self).pos() && i < len ==> key_lt(
                        *key,
                        #[trigger] self.data()[i].0,
                    ),
            decreases self.pos(),
        {
            proof {
                lemma_key_order::<K>();
            }
            match self.data[self.pos].0.cmp(key) {
                Ordering::Greater => {
                    if self.pos == 0 {
                        self.pos = len;
                        break;
                    }
                    self.pos = self.pos - 1;
                },
                _ => {
                    break;
                },
            }
        }
    }

    /// Moves to the first key, forward.
    pub fn rewind_keys(&mut self)
        requires
            old(self).inv(),
        ensures
            final(self).inv(),
            final(self).data() == old(self).data(),
            final(self).direction() == Direction::Forward,
            final(self).pos() == 0,
    {
        self.pos = 0;
        self.direction = Direction::Forward;
    }

    /// Moves to the last key, backward.
    pub fn fast_forward_keys(&mut self)
        requires
            old(self).inv(),
        ensures
            final(self).inv(),
            final(self).data() == old(self).data(),
            final(self).direction() == Direction::Backward,
            final(self).pos() == if old(self).data().len() == 0 {
                0
            } else {
                old(self).data().len() - 1
            },
    {
        let len = self.data.len();
        self.pos = if len == 0 {
            0
        } else {
            len - 1
        };
        self.direction = Direction::Backward;
    }
}


/// Where `seek_key(key)` leaves a forward cursor `c` that started at `c0`.
pub open spec fn sought<K: Ord, R: ZRingValue>(
    c0: BatchCursor<'_, K, R>,
    c: BatchCursor<'_, K, R>,
    key: K,
) -> bool {
    &&& c.inv()
    &&& c.data() == c0.data()
    &&& c0.pos() <= c.pos()
    &&& forall|i: int| c0.pos() <= i < c.pos() ==> key_lt(#[trigger] c.data()[i].0, key)
    &&& c.valid() ==> !key_lt(c.current_key(), key)
}

/// Where `seek_key_reverse(key)` leaves a backward cursor `c` that started
/// at `c0`.
pub open spec fn sought_reverse<K: Ord, R: ZRingValue>(
    c0: BatchCursor<'_, K, R>,
    c: BatchCursor<'_, K, R>,
    key: K,
) -> bool {
    &&& c.inv()
    &&& c.data() == c0.data()
    &&& !c0.valid() ==> c.pos() == c0.pos()
    &&& c.valid() ==> c.pos() <= c0.pos() && !key_lt(key, c.current_key())
    &&& c0.valid() ==> forall|i: int|
        (if c.valid() {
            c.pos()
        } else {
            -1
        }) < i <= c0.pos() && i < c.data().len() ==> key_lt(key, #[trigger] c.data()[i].0)
}

/// How the current keys of two cursors compare, in the order of `dir`. An
/// invalid cursor sorts after every key when moving forward and before
/// every key when moving backward.
pub open spec fn order_of<K: Ord, R: ZRingValue>(
    c1: BatchCursor<'_, K, R>,
    c2: BatchCursor<'_, K, R>,
    dir: Direction,
) -> Ordering {
    if dir == Direction::Forward {
        if !c1.valid() {
            Ordering::Greater
        } else if !c2.valid() {
            Ordering::Less
        } else {
            c1.current_key().cmp_spec(&c2.current_key())
        }
    } else {
        if !c1.valid() {
            Ordering::Less
        } else if !c2.valid() {
            Ordering::Greater
        } else {
            c1.current_key().cmp_spec(&c2.current_key())
        }
    }
}

/// A cursor over the combined pairs of two cursors.
///
/// It presents the union of the two batches in key order; where both hold
/// a key, it presents the key once with the two weights summed.
pub struct CursorPair<'s, K, R> {
    cursor1: BatchCursor<'s, K, R>,
    cursor2: BatchCursor<'s, K, R>,
    key_order: Ordering,
    key_direction: Direction,
}

impl<'s, K: Ord, R: ZRingValue> CursorPair<'s, K, R> {
    pub closed spec fn cursor1(&self) -> BatchCursor<'s, K, R> {
        self.cursor1
    }

    pub closed spec fn cursor2(&self) -> BatchCursor<'s, K, R> {
        self.cursor2
    }

    pub closed spec fn key_order(&self) -> Ordering {
        self.key_order
    }

    pub closed spec fn key_direction(&self) -> Direction {
        self.key_direction
    }

    pub open spec fn wf(&self) -> bool {
        &&& ordered_key::<K>()
        &&& self.cursor1().inv()
        &&& self.cursor2().inv()
        &&& is_canonical(self.cursor1().data())
        &&& is_canonical(self.cursor2().data())
        &&& self.cursor1().direction() == self.key_direction()
        &&& self.cursor2().direction() == self.key_direction()
        &&& self.key_order() == order_of(self.cursor1(), self.cursor2(), self.key_direction())
    }

    /// The current key comes from the first cursor alone.
    pub open spec fn on1(&self) -> bool {
        ||| self.key_direction() == Direction::Forward && self.key_order() == Ordering::Less
        ||| self.key_direction() == Direction::Backward && self.key_order() == Ordering::Greater
    }

    /// The current key comes from the second cursor alone.
    pub open spec fn on2(&self) -> bool {
        ||| self.key_direction() == Direction::Forward && self.key_order() == Ordering::Greater
        ||| self.key_direction() == Direction::Backward && self.key_order() == Ordering::Less
    }

    /// Both cursors are at the current key.
    pub open spec fn on12(&self) -> bool {
        self.key_order() == Ordering::Equal
    }

    pub open spec fn valid(&self) -> bool {
        if self.on1() {
            self.cursor1().valid()
        } else if self.on2() {
            self.cursor2().valid()
        } else {
            true
        }
    }

    pub open spec fn current_key(&self) -> K {
        if self.on1() {
            self.cursor1().current_key()
        } else {
            self.cursor2().current_key()
        }
    }

    /// The weight presented at the current key.
    pub open spec fn current_weight(&self) -> int {
        if self.on1() {
            self.cursor1().current_weight().as_int()
        } else if self.on2() {
            self.cursor2().current_weight().as_int()
        } else {
            self.cursor1().current_weight().as_int() + self.cursor2().current_weight().as_int()
        }
    }

    /// Pairs two forward cursors.
    pub fn new(cursor1: BatchCursor<'s, K, R>, cursor2: BatchCursor<'s, K, R>) -> (r: Self)
        requires
            ordered_key::<K>(),
            cursor1.inv(),
            cursor2.inv(),
            is_canonical(cursor1.data()),
            is_canonical(cursor2.data()),
            cursor1.direction() == Direction::Forward,
            cursor2.direction() == Direction::Forward,
        ensures
            r.wf(),
            r.cursor1() == cursor1,
            r.cursor2() == cursor2,
            r.key_direction() == Direction::Forward,
    {
        proof {
            lemma_key_order::<K>();
        }
        let key_order = if !cursor1.key_valid() {
            Ordering::Greater
        } else if !cursor2.key_valid() {
            Ordering::Less
        } else {
            cursor1.key().cmp(cursor2.key())
        };
        CursorPair { cursor1, cursor2, key_order, key_direction: Direction::Forward }
    }

    fn current_key1(&self) -> (r: bool)
        ensures
            r == self.on1(),
    {
        match (self.key_direction, self.key_order) {
            (Direction::Forward, Ordering::Less) => true,
            (Direction::Backward, Ordering::Greater) => true,
            _ => false,
        }
    }

    fn current_key2(&self) -> (r: bool)
        ensures
            r == self.on2(),
    {
        match (self.key_direction, self.key_order) {
            (Direction::Forward, Ordering::Greater) => true,
            (Direction::Backward, Ordering::Less) => true,
            _ => false,
        }
    }

    fn current_key12(&self) -> (r: bool)
        ensures
            r == self.on12(),
    {
        match self.key_order {
            Ordering::Equal => true,
            _ => false,
        }
    }

    fn update_key_order_forward(&mut self)
        requires
            ordered_key::<K>(),
            old(self).cursor1().inv(),
            old(self).cursor2().inv(),
            old(self).key_direction() == Direction::Forward,
        ensures
            final(self).cursor1() == old(self).cursor1(),
            final(self).cursor2() == old(self).cursor2(),
            final(self).key_direction() == Direction::Forward,
            final(self).key_order() == order_of(
                old(self).cursor1(),
                old(self).cursor2(),
                Direction::Forward,
            ),
    {
        proof {
            lemma_key_order::<K>();
        }
        self.key_order = if !self.cursor1.key_valid() {
            Ordering::Greater
        } else if !self.cursor2.key_valid() {
            Ordering::Less
        } else {
            self.cursor1.key().cmp(self.cursor2.key())
        };
    }

    fn update_key_order_reverse(&mut self)
        requires
            ordered_key::<K>(),
            old(self).cursor1().inv(),
            old(self).cursor2().inv(),
            old(self).key_direction() == Direction::Backward,
        ensures
            final(self).cursor1() == old(self).cursor1(),
            final(self).cursor2() == old(self).cursor2(),
            final(self).key_direction() == Direction::Backward,
            final(self).key_order() == order_of(
                old(self).cursor1(),
                old(self).cursor2(),
                Direction::Backward,
            ),
    {
        proof {
            lemma_key_order::<K>();
        }
        self.key_order = if !self.cursor1.key_valid() {
            Ordering::Less
        } else if !self.cursor2.key_valid() {
            Ordering::Greater
        } else {
            self.cursor1.key().cmp(self.cursor2.key())
        };
    }

    pub fn key_valid(&self) -> (r: bool)
        requires
            self.wf(),
        ensures
            r == self.valid(),
            r == (self.cursor1().valid() || self.cursor2().valid()),
    {
        if self.current_key1() {
            self.cursor1.key_valid()
        } else if self.current_key2() {
            self.cursor2.key_valid()
        } else {
            true
        }
    }

    pub fn key(&self) -> (r: &'s K)
        requires
            self.wf(),
            self.valid(),
        ensures
            *r == self.current_key(),
    {
        if self.current_key1() {
            self.cursor1.key()
        } else {
            self.cursor2.key()
        }
    }

    /// The weight at the current key: the sum of the weights of the cursors
    /// that are at it.
    pub fn weight(&self) -> (r: R)
        requires
            self.wf(),
            self.valid(),
            self.on12() ==> R::min_value() <= self.current_weight() <= R::max_value(),
        ensures
            r.as_int() == self.current_weight(),
    {
        proof {
            R::lemma_bounds();
            R::lemma_in_range(&self.cursor1().current_weight());
            R::lemma_in_range(&self.cursor2().current_weight());
        }
        let mut res = R::zero();
        let on1 = self.current_key1();
        let on2 = self.current_key2();
        let on12 = self.current_key12();
        if on1 || on12 {
            res.add_assign_by_ref(self.cursor1.weight());
        }
        if on2 || on12 {
            res.add_assign_by_ref(self.cursor2.weight());
        }
        res
    }

    /// Moves past the current key: each cursor at it steps forward.
    pub fn step_key(&mut self)
        requires
            old(self).wf(),
            old(self).valid(),
            old(self).key_direction() == Direction::Forward,
        ensures
            final(self).wf(),
            final(self).key_direction() == Direction::Forward,
            final(self).cursor1().data() == old(self).cursor1().data(),
            final(self).cursor2().data() == old(self).cursor2().data(),
            final(self).cursor1().pos() == old(self).cursor1().pos() + (if old(self).on2() {
                0int
            } else {
                1int
            }),
            final(self).cursor2().pos() == old(self).cursor2().pos() + (if old(self).on1() {
                0int
            } else {
                1int
            }),
    {
        match self.key_order {
            Ordering::Greater => {},
            _ => {
                self.cursor1.step_key();
            },
        }
        match self.key_order {
            Ordering::Less => {},
            _ => {
                self.cursor2.step_key();
            },
        }
        self.update_key_order_forward();
    }

    /// Moves before the current key: each cursor at it steps backward.
    pub fn step_key_reverse(&mut self)
        requires
            old(self).wf(),
            old(self).valid(),
            old(self).key_direction() == Direction::Backward,
        ensures
            final(self).wf(),
            final(self).key_direction() == Direction::Backward,
            final(self).cursor1().data() == old(self).cursor1().data(),
            final(self).cursor2().data() == old(self).cursor2().data(),
            old(self).on2() ==> final(self).cursor1() == old(self).cursor1(),
            old(self).on1() ==> final(self).cursor2() == old(self).cursor2(),
            !old(self).on2() ==> final(self).cursor1().pos() == (if old(self).cursor1().pos()
                == 0 {
                old(self).cursor1().data().len() as int
            } else {
                old(self).cursor1().pos() - 1
            }),
            !old(self).on1() ==> final(self).cursor2().pos() == (if old(self).cursor2().pos()
                == 0 {
                old(self).cursor2().data().len() as int
            } else {
                old(self).cursor2().pos() - 1
            }),
    {
        match self.key_order {
            Ordering::Less => {},
            _ => {
                self.cursor1.step_key_reverse();
            },
        }
        match self.key_order {
            Ordering::Greater => {},
            _ => {
                self.cursor2.step_key_reverse();
            },
        }
        self.update_key_order_reverse();
    }

    /// Seeks both cursors forward to `key`.
    pub fn seek_key(&mut self, key: &K)
        requires
            old(self).wf(),
            old(self).key_direction() == Direction::Forward,
        ensures
            final(self).wf(),
            final(self).key_direction() == Direction::Forward,
            sought(old(self).cursor1(), final(self).cursor1(), *key),
            sought(old(self).cursor2(), final(self).cursor2(), *key),
    {
        self.cursor1.seek_key(key);
        self.cursor2.seek_key(key);
        self.update_key_order_forward();
    }

    /// Seeks both cursors backward to `key`.
    pub fn seek_key_reverse(&mut self, key: &K)
        requires
            old(self).wf(),
            old(self).key_direction() == Direction::Backward,
        ensures
            final(self).wf(),
            final(self).key_direction() == Direction::Backward,
            sought_reverse(old(self).cursor1(), final(self).cursor1(), *key),
            sought_reverse(old(self).cursor2(), final(self).cursor2(), *key),
    {
        self.cursor1.seek_key_reverse(key);
        self.cursor2.seek_key_reverse(key);
        self.update_key_order_reverse();
    }

    /// Moves both cursors to their first keys, forward.
    pub fn rewind_keys(&mut self)
        requires
            old(self).wf(),
        ensures
            final(self).wf(),
            final(self).key_direction() == Direction::Forward,
            final(self).cursor1().data() == old(self).cursor1().data(),
            final(self).cursor2().data() == old(self).cursor2().data(),
            final(self).cursor1().pos() == 0,
            final(self).cursor2().pos() == 0,
    {
        self.cursor1.rewind_keys();
        self.cursor2.rewind_keys();
        self.key_direction = Direction::Forward;
        self.update_key_order_forward();
    }

    /// Moves both cursors to their last keys, backward.
    pub fn fast_forward_keys(&mut self)
        requires
            old(self).wf(),
        ensures
            final(self).wf(),
            final(self).key_direction() == Direction::Backward,
            final(self).cursor1().data() == old(self).cursor1().data(),
            final(self).cursor2().data() == old(self).cursor2().data(),
            final(self).cursor1().valid() == (old(self).cursor1().data().len() > 0),
            final(self).cursor2().valid() == (old(self).cursor2().data().len() > 0),
            final(self).cursor1().valid() ==> final(self).cursor1().pos()
                == final(self).cursor1().data().len() - 1,
            final(self).cursor2().valid() ==> final(self).cursor2().pos()
                == final(self).cursor2().data().len() - 1,
    {
        self.cursor1.fast_forward_keys();
        self.cursor2.fast_forward_keys();
        self.key_direction = Direction::Backward;
        self.update_key_order_reverse();
    }
}

impl<'s, K: Ord + Copy, R: ZRingValue> CursorPair<'s, K, R> {
    /// Walks the pair from the start to the end and collects what it presents,
    /// leaving out keys whose weights cancel: the canonical form of the sum of
    /// the two batches.
    pub fn collect(&mut self) -> (r: Vec<(K, R)>)
        requires
            old(self).wf(),
            old(self).key_direction() == Direction::Forward,
            old(self).cursor1().pos() == 0,
            old(self).cursor2().pos() == 0,
            forall|k: K|
                R::min_value() <= #[trigger] weight_of(old(self).cursor1().data(), k) + weight_of(
                    old(self).cursor2().data(),
                    k,
                ) <= R::max_value(),
        ensures
            final(self).wf(),
            final(self).cursor1().data() == old(self).cursor1().data(),
            final(self).cursor2().data() == old(self).cursor2().data(),
            is_consolidation_of(r@, old(self).cursor1().data() + old(self).cursor2().data()),
            forall|k: K| #[trigger]
                weight_of(r@, k) == weight_of(old(self).cursor1().data(), k) + weight_of(
                    old(self).cursor2().data(),
                    k,
                ),
    {
        let ghost a = self.cursor1().data();
        let ghost b = self.cursor2().data();
        proof {
            assert(a.take(0) =~= seq![]);
            assert(b.take(0) =~= seq![]);
        }
        let mut out: Vec<(K, R)> = Vec::new();
        while self.key_valid()
            invariant
                self.wf(),
                self.key_direction() == Direction::Forward,
                self.cursor1().data() == a,
                self.cursor2().data() == b,
                forall|k: K|
                    R::min_value() <= #[trigger] weight_of(a, k) + weight_of(b, k) <= R::max_value(),
                is_canonical(out@),
                forall|k: K| #[trigger]
                    weight_of(out@, k) == weight_of(a.take(self.cursor1().pos()), k) + weight_of(
                        b.take(self.cursor2().pos()),
                        k,
                    ),
                forall|i: int|
                    0 <= i < out@.len() ==> (self.cursor1().valid() ==> key_lt(
                        #[trigger] out@[i].0,
                        self.cursor1().current_key(),
                    )) && (self.cursor2().valid() ==> key_lt(out@[i].0, self.cursor2().current_key())),
            decreases (a.len() - self.cursor1().pos()) + (b.len() - self.cursor2().pos()),
        {
            proof {
                lemma_key_order::<K>();
            }
            let ghost pair0 = *self;
            let ghost at1 = self.cursor1().pos();
            let ghost at2 = self.cursor2().pos();
            let ghost out0 = out@;
            let k = *self.key();
            proof {
                if self.on12() {
                    lemma_weight_distinct(a, at1);
                    lemma_weight_distinct(b, at2);
                    assert(weight_of(a, k) + weight_of(b, k) == self.current_weight());
                }
            }
            let w = self.weight();
            let zero = w.is_zero();
            if !zero {
                out.push((k, w));
            }
            self.step_key();
            proof {
                // The weights taken in.
                assert forall|x: K| #[trigger]
                    weight_of(out@, x) == weight_of(a.take(self.cursor1().pos()), x) + weight_of(
                        b.take(self.cursor2().pos()),
                        x,
                    ) by {
                    if !pair0.on2() {
                        lemma_weight_take_step(a, at1, x);
                    }
                    if !pair0.on1() {
                        lemma_weight_take_step(b, at2, x);
                    }
                    if !zero {
                        lemma_weight_push(out0, (k, w), x);
                    } else {
                        assert(weight_of(out@, x) == weight_of(out0, x));
                    }
                }
                // The order kept.
                let c1 = self.cursor1();
                let c2 = self.cursor2();
                assert(pair0.on1() ==> key_lt(k, pair0.cursor2().current_key()) || !pair0.cursor2().valid());
                assert(pair0.on2() ==> key_lt(k, pair0.cursor1().current_key()) || !pair0.cursor1().valid());
                if c1.valid() {
                    if !pair0.on2() {
                        assert(key_lt(a[at1].0, a[at1 + 1].0));
                    }
                }
                if c2.valid() {
                    if !pair0.on1() {
                        assert(key_lt(b[at2].0, b[at2 + 1].0));
                    }
                }
                assert forall|i: int| 0 <= i < out@.len() implies (c1.valid() ==> key_lt(
                    #[trigger] out@[i].0,
                    c1.current_key(),
                )) && (c2.valid() ==> key_lt(out@[i].0, c2.current_key())) by {
                    if c1.valid() {
                        if i < out0.len() {
                            if !pair0.on2() {
                                assert(key_lt(out0[i].0, a[at1].0));
                            }
                        }
                    }
                    if c2.valid() {
                        if i < out0.len() {
                            if !pair0.on1() {
                                assert(key_lt(out0[i].0, b[at2].0));
                            }
                        }
                    }
                }
                if !zero {
                    assert forall|i: int, j: int| 0 <= i < j < out@.len() implies key_lt(
                        #[trigger] out@[i].0,
                        #[trigger] out@[j].0,
                    ) by {
                        if j == out0.len() {
                            if pair0.on2() {
                                assert(key_lt(out0[i].0, pair0.cursor2().current_key()));
                            } else {
                                assert(key_lt(out0[i].0, pair0.cursor1().current_key()));
                            }
                        }
                    }
                }
            }
        }
        proof {
            assert(a.take(a.len() as int) =~= a);
            assert(b.take(b.len() as int) =~= b);
            assert forall|k: K| #[trigger] weight_of(out@, k) == weight_of(a + b, k) by {
                lemma_weight_concat(a, b, k);
            }
        }
        out
    }
}

} // verus!
