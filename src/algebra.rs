//! Weights of Z-sets: signed multiplicities that form a ring.

use vstd::prelude::*;
use vstd::laws_cmp::obeys_cmp;
use vstd::laws_eq::obeys_concrete_eq;
use vstd::std_specs::cmp::{OrdSpec, PartialOrdSpec};

verus! {

/// A weight type: a ring of signed integers with a bounded representation.
///
/// Every operation is exact: a caller shows that the result is representable.
pub trait ZRingValue: Sized {
    /// The integer that this weight stands for.
    spec fn as_int(&self) -> int;

    /// The smallest representable weight.
    spec fn min_value() -> int;

    /// The largest representable weight.
    spec fn max_value() -> int;

    proof fn lemma_bounds()
        ensures
            Self::min_value() < 0 < Self::max_value(),
            Self::min_value() + Self::max_value() == -1,
    ;

    proof fn lemma_in_range(w: &Self)
        ensures
            Self::min_value() <= w.as_int() <= Self::max_value(),
    ;

    /// A weight is determined by the integer it stands for.
    proof fn lemma_as_int_injective(a: &Self, b: &Self)
        ensures
            a.as_int() == b.as_int() ==> a == b,
    ;

    fn zero() -> (r: Self)
        ensures
            r.as_int() == 0,
    ;

    fn one() -> (r: Self)
        ensures
            r.as_int() == 1,
    ;

    fn is_zero(&self) -> (r: bool)
        ensures
            r == (self.as_int() == 0),
    ;

    fn is_positive(&self) -> (r: bool)
        ensures
            r == (self.as_int() > 0),
    ;

    fn add_by_ref(&self, other: &Self) -> (r: Self)
        requires
            Self::min_value() <= self.as_int() + other.as_int() <= Self::max_value(),
        ensures
            r.as_int() == self.as_int() + other.as_int(),
    ;

    fn add_assign_by_ref(&mut self, other: &Self)
        requires
            Self::min_value() <= old(self).as_int() + other.as_int() <= Self::max_value(),
        ensures
            final(self).as_int() == old(self).as_int() + other.as_int(),
    ;

    fn neg_by_ref(&self) -> (r: Self)
        requires
            Self::min_value() <= -self.as_int() <= Self::max_value(),
        ensures
            r.as_int() == -self.as_int(),
    ;

    fn mul_by_ref(&self, other: &Self) -> (r: Self)
        requires
            Self::min_value() <= self.as_int() * other.as_int() <= Self::max_value(),
        ensures
            r.as_int() == self.as_int() * other.as_int(),
    ;
}

/// True of a record type whose `Ord` is a lawful total order and whose `==`
/// is identity: the records of a Z-set are kept sorted by it.
pub open spec fn ordered_key<T: Ord>() -> bool {
    obeys_cmp::<T>() && obeys_concrete_eq::<T>()
}

/// `a` sorts strictly before `b`.
pub open spec fn key_lt<T: Ord>(a: T, b: T) -> bool {
    a.cmp_spec(&b) == core::cmp::Ordering::Less
}

/// The order facts that `ordered_key` gives, in a form that proofs use.
pub proof fn lemma_key_order<T: Ord>()
    requires
        ordered_key::<T>(),
    ensures
        forall|a: T, b: T| #[trigger] a.cmp_spec(&b) == core::cmp::Ordering::Equal <==> a == b,
        forall|a: T, b: T|
            #[trigger] a.cmp_spec(&b) == core::cmp::Ordering::Less <==> b.cmp_spec(&a)
                == core::cmp::Ordering::Greater,
        forall|a: T, b: T, c: T|
            #[trigger] key_lt(a, b) && #[trigger] key_lt(b, c) ==> key_lt(a, c),
        forall|a: T, b: T| #[trigger] key_lt(a, b) ==> a != b,
        T::obeys_cmp_spec(),
{
    reveal(vstd::laws_cmp::obeys_cmp_partial_ord);
    reveal(vstd::laws_cmp::obeys_cmp_ord);
    reveal(vstd::laws_cmp::obeys_partial_cmp_spec_properties);
    reveal(vstd::laws_eq::obeys_concrete_eq);
    assert forall|a: T, b: T| #[trigger] a.cmp_spec(&b) == core::cmp::Ordering::Equal <==> a
        == b by {
        assert(a.partial_cmp_spec(&b) == Some(a.cmp_spec(&b)));
    }
    assert forall|a: T, b: T|
        #[trigger] a.cmp_spec(&b) == core::cmp::Ordering::Less <==> b.cmp_spec(&a)
            == core::cmp::Ordering::Greater by {
        assert(a.partial_cmp_spec(&b) == Some(a.cmp_spec(&b)));
        assert(b.partial_cmp_spec(&a) == Some(b.cmp_spec(&a)));
    }
    assert forall|a: T, b: T, c: T| #[trigger] key_lt(a, b) && #[trigger] key_lt(b, c) implies key_lt(
        a,
        c,
    ) by {
        assert(a.partial_cmp_spec(&b) == Some(a.cmp_spec(&b)));
        assert(b.partial_cmp_spec(&c) == Some(b.cmp_spec(&c)));
        assert(a.partial_cmp_spec(&c) == Some(a.cmp_spec(&c)));
    }
}

impl ZRingValue for i32 {
    open spec fn as_int(&self) -> int {
        *self as int
    }

    open spec fn min_value() -> int {
        i32::MIN as int
    }

    open spec fn max_value() -> int {
        i32::MAX as int
    }

    proof fn lemma_bounds() {
    }

    proof fn lemma_in_range(w: &Self) {
    }

    proof fn lemma_as_int_injective(a: &Self, b: &Self) {
    }

    fn zero() -> (r: Self) {
        0
    }

    fn one() -> (r: Self) {
        1
    }

    fn is_zero(&self) -> (r: bool) {
        *self == 0
    }

    fn is_positive(&self) -> (r: bool) {
        *self > 0
    }

    fn add_by_ref(&self, other: &Self) -> (r: Self) {
        *self + *other
    }

    fn add_assign_by_ref(&mut self, other: &Self) {
        *self = *self + *other;
    }

    fn neg_by_ref(&self) -> (r: Self) {
        -*self
    }

    fn mul_by_ref(&self, other: &Self) -> (r: Self) {
        *self * *other
    }
}

impl ZRingValue for i64 {
    open spec fn as_int(&self) -> int {
        *self as int
    }

    open spec fn min_value() -> int {
        i64::MIN as int
    }

    open spec fn max_value() -> int {
        i64::MAX as int
    }

    proof fn lemma_bounds() {
    }

    proof fn lemma_in_range(w: &Self) {
    }

    proof fn lemma_as_int_injective(a: &Self, b: &Self) {
    }

    fn zero() -> (r: Self) {
        0
    }

    fn one() -> (r: Self) {
        1
    }

    fn is_zero(&self) -> (r: bool) {
        *self == 0
    }

    fn is_positive(&self) -> (r: bool) {
        *self > 0
    }

    fn add_by_ref(&self, other: &Self) -> (r: Self) {
        *self + *other
    }

    fn add_assign_by_ref(&mut self, other: &Self) {
        *self = *self + *other;
    }

    fn neg_by_ref(&self) -> (r: Self) {
        -*self
    }

    fn mul_by_ref(&self, other: &Self) -> (r: Self) {
        *self * *other
    }
}

impl ZRingValue for isize {
    open spec fn as_int(&self) -> int {
        *self as int
    }

    open spec fn min_value() -> int {
        isize::MIN as int
    }

    open spec fn max_value() -> int {
        isize::MAX as int
    }

    proof fn lemma_bounds() {
    }

    proof fn lemma_in_range(w: &Self) {
    }

    proof fn lemma_as_int_injective(a: &Self, b: &Self) {
    }

    fn zero() -> (r: Self) {
        0
    }

    fn one() -> (r: Self) {
        1
    }

    fn is_zero(&self) -> (r: bool) {
        *self == 0
    }

    fn is_positive(&self) -> (r: bool) {
        *self > 0
    }

    fn add_by_ref(&self, other: &Self) -> (r: Self) {
        *self + *other
    }

    fn add_assign_by_ref(&mut self, other: &Self) {
        *self = *self + *other;
    }

    fn neg_by_ref(&self) -> (r: Self) {
        -*self
    }

    fn mul_by_ref(&self, other: &Self) -> (r: Self) {
        *self * *other
    }
}

} // verus!
