//! Timestamps of nested clocks, forming lattices.

use vstd::prelude::*;

verus! {

/// A partial order.
pub trait PartialOrder: Sized {
    spec fn le(&self, other: &Self) -> bool;

    proof fn lemma_partial_order(a: &Self, b: &Self, c: &Self)
        ensures
            a.le(a),
            a.le(b) && b.le(a) ==> a == b,
            a.le(b) && b.le(c) ==> a.le(c),
    ;

    fn less_equal(&self, other: &Self) -> (r: bool)
        ensures
            r == self.le(other),
    ;
}

/// A lattice: every two elements have a least upper bound (`join`) and a
/// greatest lower bound (`meet`).
pub trait Lattice: PartialOrder {
    spec fn spec_join(&self, other: &Self) -> Self;

    spec fn spec_meet(&self, other: &Self) -> Self;

    proof fn lemma_join_meet(a: &Self, b: &Self, c: &Self)
        ensures
            a.le(&a.spec_join(b)),
            b.le(&a.spec_join(b)),
            a.le(c) && b.le(c) ==> a.spec_join(b).le(c),
            a.spec_meet(b).le(a),
            a.spec_meet(b).le(b),
            c.le(a) && c.le(b) ==> c.le(&a.spec_meet(b)),
    ;

    fn join(&self, other: &Self) -> (r: Self)
        ensures
            r == self.spec_join(other),
    ;

    fn meet(&self, other: &Self) -> (r: Self)
        ensures
            r == self.spec_meet(other),
    ;
}

/// The timestamp of a clock, possibly nested. Scope `0` is the innermost
/// clock; higher scopes are the enclosing ones.
pub trait Timestamp: Lattice {
    spec fn spec_minimum() -> Self;

    spec fn spec_clock_start() -> Self;

    /// `advance(scope)` does not overflow.
    spec fn can_advance(&self, scope: u16) -> bool;

    /// `recede(scope)` does not underflow.
    spec fn can_recede(&self, scope: u16) -> bool;

    spec fn spec_advance(&self, scope: u16) -> Self;

    spec fn spec_recede(&self, scope: u16) -> Self;

    spec fn spec_epoch_start(&self, scope: u16) -> Self;

    spec fn spec_epoch_end(&self, scope: u16) -> Self;

    proof fn lemma_minimum(t: &Self)
        ensures
            Self::spec_minimum().le(t),
    ;

    /// Receding undoes advancing within the same scope.
    proof fn lemma_recede_advance(t: &Self, scope: u16)
        requires
            t.can_advance(scope),
            scope == 0,
        ensures
            t.spec_advance(scope).can_recede(scope),
            t.spec_advance(scope).spec_recede(scope) == *t,
    ;

    fn minimum() -> (r: Self)
        ensures
            r == Self::spec_minimum(),
    ;

    fn clock_start() -> (r: Self)
        ensures
            r == Self::spec_clock_start(),
    ;

    fn advance(&self, scope: u16) -> (r: Self)
        requires
            self.can_advance(scope),
        ensures
            r == self.spec_advance(scope),
    ;

    fn recede(&self, scope: u16) -> (r: Self)
        requires
            self.can_recede(scope),
        ensures
            r == self.spec_recede(scope),
    ;

    fn epoch_start(&self, scope: u16) -> (r: Self)
        ensures
            r == self.spec_epoch_start(scope),
    ;

    fn epoch_end(&self, scope: u16) -> (r: Self)
        ensures
            r == self.spec_epoch_end(scope),
    ;
}

impl PartialOrder for () {
    open spec fn le(&self, other: &Self) -> bool {
        true
    }

    proof fn lemma_partial_order(a: &Self, b: &Self, c: &Self) {
    }

    fn less_equal(&self, other: &Self) -> (r: bool) {
        true
    }
}

impl Lattice for () {
    open spec fn spec_join(&self, other: &Self) -> Self {
        ()
    }

    open spec fn spec_meet(&self, other: &Self) -> Self {
        ()
    }

    proof fn lemma_join_meet(a: &Self, b: &Self, c: &Self) {
    }

    fn join(&self, other: &Self) -> (r: Self) {
    }

    fn meet(&self, other: &Self) -> (r: Self) {
    }
}

/// The timestamp of a circuit that is not nested: it has no clock of its
/// own to move.
impl Timestamp for () {
    open spec fn spec_minimum() -> Self {
        ()
    }

    open spec fn spec_clock_start() -> Self {
        ()
    }

    open spec fn can_advance(&self, scope: u16) -> bool {
        true
    }

    open spec fn can_recede(&self, scope: u16) -> bool {
        true
    }

    open spec fn spec_advance(&self, scope: u16) -> Self {
        ()
    }

    open spec fn spec_recede(&self, scope: u16) -> Self {
        ()
    }

    open spec fn spec_epoch_start(&self, scope: u16) -> Self {
        ()
    }

    open spec fn spec_epoch_end(&self, scope: u16) -> Self {
        ()
    }

    proof fn lemma_minimum(t: &Self) {
    }

    proof fn lemma_recede_advance(t: &Self, scope: u16) {
    }

    fn minimum() -> (r: Self) {
    }

    fn clock_start() -> (r: Self) {
    }

    fn advance(&self, scope: u16) -> (r: Self) {
    }

    fn recede(&self, scope: u16) -> (r: Self) {
    }

    fn epoch_start(&self, scope: u16) -> (r: Self) {
    }

    fn epoch_end(&self, scope: u16) -> (r: Self) {
    }
}

impl PartialOrder for u32 {
    open spec fn le(&self, other: &Self) -> bool {
        *self <= *other
    }

    proof fn lemma_partial_order(a: &Self, b: &Self, c: &Self) {
    }

    fn less_equal(&self, other: &Self) -> (r: bool) {
        *self <= *other
    }
}

impl Lattice for u32 {
    open spec fn spec_join(&self, other: &Self) -> Self {
        if *self >= *other {
            *self
        } else {
            *other
        }
    }

    open spec fn spec_meet(&self, other: &Self) -> Self {
        if *self <= *other {
            *self
        } else {
            *other
        }
    }

    proof fn lemma_join_meet(a: &Self, b: &Self, c: &Self) {
    }

    fn join(&self, other: &Self) -> (r: Self) {
        if *self >= *other {
            *self
        } else {
            *other
        }
    }

    fn meet(&self, other: &Self) -> (r: Self) {
        if *self <= *other {
            *self
        } else {
            *other
        }
    }
}

/// The clock of one level of iteration: a counter. It moves in scope `0`
/// only; at its epoch's end it holds its largest value.
impl Timestamp for u32 {
    open spec fn spec_minimum() -> Self {
        0
    }

    open spec fn spec_clock_start() -> Self {
        0
    }

    open spec fn can_advance(&self, scope: u16) -> bool {
        scope == 0 ==> *self < u32::MAX
    }

    open spec fn can_recede(&self, scope: u16) -> bool {
        scope == 0 ==> *self > 0
    }

    open spec fn spec_advance(&self, scope: u16) -> Self {
        if scope == 0 {
            (*self + 1) as u32
        } else {
            *self
        }
    }

    open spec fn spec_recede(&self, scope: u16) -> Self {
        if scope == 0 {
            (*self - 1) as u32
        } else {
            *self
        }
    }

    open spec fn spec_epoch_start(&self, scope: u16) -> Self {
        if scope == 0 {
            0
        } else {
            *self
        }
    }

    open spec fn spec_epoch_end(&self, scope: u16) -> Self {
        if scope == 0 {
            u32::MAX
        } else {
            *self
        }
    }

    proof fn lemma_minimum(t: &Self) {
    }

    proof fn lemma_recede_advance(t: &Self, scope: u16) {
    }

    fn minimum() -> (r: Self) {
        0
    }

    fn clock_start() -> (r: Self) {
        0
    }

    fn advance(&self, scope: u16) -> (r: Self) {
        if scope == 0 {
            *self + 1
        } else {
            *self
        }
    }

    fn recede(&self, scope: u16) -> (r: Self) {
        if scope == 0 {
            *self - 1
        } else {
            *self
        }
    }

    fn epoch_start(&self, scope: u16) -> (r: Self) {
        if scope == 0 {
            0
        } else {
            *self
        }
    }

    fn epoch_end(&self, scope: u16) -> (r: Self) {
        if scope == 0 {
            u32::MAX
        } else {
            *self
        }
    }
}

/// A nested pair of timestamps, one outer and one inner.
#[derive(Clone, Copy, PartialEq, Eq, Structural, PartialOrd, Ord, Hash, Default, Debug)]
pub struct Product<TOuter, TInner> {
    /// Outer timestamp.
    pub outer: TOuter,
    /// Inner timestamp.
    pub inner: TInner,
}

impl<TOuter, TInner> Product<TOuter, TInner> {
    /// Creates a new product from outer and inner coordinates.
    pub fn new(outer: TOuter, inner: TInner) -> (r: Product<TOuter, TInner>)
        ensures
            r.outer == outer,
            r.inner == inner,
    {
        Product { outer, inner }
    }
}

/// The order is componentwise.
impl<TOuter: PartialOrder, TInner: PartialOrder> PartialOrder for Product<TOuter, TInner> {
    open spec fn le(&self, other: &Self) -> bool {
        self.outer.le(&other.outer) && self.inner.le(&other.inner)
    }

    proof fn lemma_partial_order(a: &Self, b: &Self, c: &Self) {
        TOuter::lemma_partial_order(&a.outer, &b.outer, &c.outer);
        TInner::lemma_partial_order(&a.inner, &b.inner, &c.inner);
    }

    fn less_equal(&self, other: &Self) -> (r: bool) {
        self.outer.less_equal(&other.outer) && self.inner.less_equal(&other.inner)
    }
}

/// Joins and meets are componentwise.
impl<TOuter: Lattice, TInner: Lattice> Lattice for Product<TOuter, TInner> {
    open spec fn spec_join(&self, other: &Self) -> Self {
        Product { outer: self.outer.spec_join(&other.outer), inner: self.inner.spec_join(&other.inner) }
    }

    open spec fn spec_meet(&self, other: &Self) -> Self {
        Product { outer: self.outer.spec_meet(&other.outer), inner: self.inner.spec_meet(&other.inner) }
    }

    proof fn lemma_join_meet(a: &Self, b: &Self, c: &Self) {
        TOuter::lemma_join_meet(&a.outer, &b.outer, &c.outer);
        TInner::lemma_join_meet(&a.inner, &b.inner, &c.inner);
    }

    fn join(&self, other: &Self) -> (r: Self) {
        Product { outer: self.outer.join(&other.outer), inner: self.inner.join(&other.inner) }
    }

    fn meet(&self, other: &Self) -> (r: Self) {
        Product { outer: self.outer.meet(&other.outer), inner: self.inner.meet(&other.inner) }
    }
}

/// Scope `0` moves the inner clock; scope `k > 0` moves the outer timestamp
/// in scope `k - 1` and starts the inner clock over.
impl<TOuter: Timestamp + Copy, TInner: Timestamp + Copy> Timestamp for Product<TOuter, TInner> {
    open spec fn spec_minimum() -> Self {
        Product { outer: TOuter::spec_minimum(), inner: TInner::spec_minimum() }
    }

    open spec fn spec_clock_start() -> Self {
        Product { outer: TOuter::spec_clock_start(), inner: TInner::spec_clock_start() }
    }

    open spec fn can_advance(&self, scope: u16) -> bool {
        if scope == 0 {
            self.inner.can_advance(0)
        } else {
            self.outer.can_advance((scope - 1) as u16)
        }
    }

    open spec fn can_recede(&self, scope: u16) -> bool {
        if scope == 0 {
            self.inner.can_recede(0)
        } else {
            self.outer.can_recede((scope - 1) as u16)
        }
    }

    open spec fn spec_advance(&self, scope: u16) -> Self {
        if scope == 0 {
            Product { outer: self.outer, inner: self.inner.spec_advance(0) }
        } else {
            Product { outer: self.outer.spec_advance((scope - 1) as u16), inner: TInner::spec_minimum() }
        }
    }

    open spec fn spec_recede(&self, scope: u16) -> Self {
        if scope == 0 {
            Product { outer: self.outer, inner: self.inner.spec_recede(0) }
        } else {
            Product { outer: self.outer.spec_recede((scope - 1) as u16), inner: self.inner }
        }
    }

    open spec fn spec_epoch_start(&self, scope: u16) -> Self {
        if scope == 0 {
            Product { outer: self.outer, inner: TInner::spec_minimum() }
        } else {
            Product {
                outer: self.outer.spec_epoch_start((scope - 1) as u16),
                inner: TInner::spec_minimum(),
            }
        }
    }

    open spec fn spec_epoch_end(&self, scope: u16) -> Self {
        if scope == 0 {
            Product { outer: self.outer, inner: self.inner.spec_epoch_end(0) }
        } else {
            Product {
                outer: self.outer.spec_epoch_end((scope - 1) as u16),
                inner: self.inner.spec_epoch_end(0),
            }
        }
    }

    proof fn lemma_minimum(t: &Self) {
        TOuter::lemma_minimum(&t.outer);
        TInner::lemma_minimum(&t.inner);
    }

    proof fn lemma_recede_advance(t: &Self, scope: u16) {
        TInner::lemma_recede_advance(&t.inner, 0);
    }

    fn minimum() -> (r: Self) {
        Self::new(TOuter::minimum(), TInner::minimum())
    }

    fn clock_start() -> (r: Self) {
        Self::new(TOuter::clock_start(), TInner::clock_start())
    }

    fn advance(&self, scope: u16) -> (r: Self) {
        if scope == 0 {
            Self::new(self.outer, self.inner.advance(0))
        } else {
            Self::new(self.outer.advance(scope - 1), TInner::minimum())
        }
    }

    fn recede(&self, scope: u16) -> (r: Self) {
        if scope == 0 {
            Self::new(self.outer, self.inner.recede(0))
        } else {
            Self::new(self.outer.recede(scope - 1), self.inner)
        }
    }

    fn epoch_start(&self, scope: u16) -> (r: Self) {
        if scope == 0 {
            Self::new(self.outer, TInner::minimum())
        } else {
            Self::new(self.outer.epoch_start(scope - 1), TInner::minimum())
        }
    }

    fn epoch_end(&self, scope: u16) -> (r: Self) {
        if scope == 0 {
            Self::new(self.outer, self.inner.epoch_end(0))
        } else {
            Self::new(self.outer.epoch_end(scope - 1), self.inner.epoch_end(0))
        }
    }
}

} // verus!
