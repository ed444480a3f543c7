//! Weights that never wrap: each operation either gives the exact result or
//! reports an overflow.

use vstd::prelude::*;
use crate::algebra::ZRingValue;

verus! {

/// An operation on weights whose exact result is not representable.
#[derive(Debug, Clone, Copy, PartialEq, Eq, Structural)]
pub enum WeightError {
    Overflow,
}

/// A ring on integers that refuses to overflow.
///
/// Computes exactly like the underlying signed integer; an operation whose
/// result does not fit fails instead of wrapping.
#[derive(Clone, Copy, PartialEq, Eq, Structural, PartialOrd, Ord, Hash, Default, Debug)]
pub struct CheckedInt<T> {
    value: T,
}

/// Relies on num's `CheckedAdd` for `i64`: `None` exactly when the sum
/// leaves the range of `i64`.
#[verifier::external_body]
fn i64_checked_add(a: i64, b: i64) -> (r: Option<i64>)
    ensures
        r == (if i64::MIN <= a + b <= i64::MAX {
            Some((a + b) as i64)
        } else {
            None
        }),
{
    num::CheckedAdd::checked_add(&a, &b)
}

/// Relies on num's `CheckedMul` for `i64`: `None` exactly when the product
/// leaves the range of `i64`.
#[verifier::external_body]
fn i64_checked_mul(a: i64, b: i64) -> (r: Option<i64>)
    ensures
        r == (if i64::MIN <= a * b <= i64::MAX {
            Some((a * b) as i64)
        } else {
            None
        }),
{
    num::CheckedMul::checked_mul(&a, &b)
}

/// Relies on num's `CheckedNeg` for `i64`: `None` exactly for `i64::MIN`,
/// whose negation does not fit.
#[verifier::external_body]
fn i64_checked_neg(a: i64) -> (r: Option<i64>)
    ensures
        r == (if a != i64::MIN {
            Some((-a) as i64)
        } else {
            None
        }),
{
    num::traits::CheckedNeg::checked_neg(&a)
}

impl CheckedInt<i64> {
    fn new(value: i64) -> (r: Self)
        ensures
            r.as_int() == value,
    {
        CheckedInt { value }
    }

    /// The largest weight.
    pub fn max_weight() -> (r: Self)
        ensures
            r.as_int() == i64::MAX,
    {
        CheckedInt::new(i64::MAX)
    }

    /// The integer held.
    pub fn get(&self) -> (r: i64)
        ensures
            r == self.as_int(),
    {
        self.value
    }

    /// The sum, or `Overflow` when it does not fit.
    pub fn checked_add_by_ref(&self, other: &Self) -> (r: Result<Self, WeightError>)
        ensures
            i64::MIN <= self.as_int() + other.as_int() <= i64::MAX ==> (r matches Ok(s) && s.as_int()
                == self.as_int() + other.as_int()),
            !(i64::MIN <= self.as_int() + other.as_int() <= i64::MAX) ==> r == Err::<
                Self,
                WeightError,
            >(WeightError::Overflow),
    {
        match i64_checked_add(self.value, other.value) {
            Some(v) => Ok(CheckedInt::new(v)),
            None => Err(WeightError::Overflow),
        }
    }

    /// The product, or `Overflow` when it does not fit.
    pub fn checked_mul_by_ref(&self, other: &Self) -> (r: Result<Self, WeightError>)
        ensures
            i64::MIN <= self.as_int() * other.as_int() <= i64::MAX ==> (r matches Ok(s) && s.as_int()
                == self.as_int() * other.as_int()),
            !(i64::MIN <= self.as_int() * other.as_int() <= i64::MAX) ==> r == Err::<
                Self,
                WeightError,
            >(WeightError::Overflow),
    {
        match i64_checked_mul(self.value, other.value) {
            Some(v) => Ok(CheckedInt::new(v)),
            None => Err(WeightError::Overflow),
        }
    }

    /// The negation, or `Overflow` for the one value whose negation does not fit.
    pub fn checked_neg_by_ref(&self) -> (r: Result<Self, WeightError>)
        ensures
            self.as_int() != i64::MIN ==> (r matches Ok(s) && s.as_int() == -self.as_int()),
            self.as_int() == i64::MIN ==> r == Err::<Self, WeightError>(WeightError::Overflow),
    {
        match i64_checked_neg(self.value) {
            Some(v) => Ok(CheckedInt::new(v)),
            None => Err(WeightError::Overflow),
        }
    }
}

impl ZRingValue for CheckedInt<i64> {
    closed spec fn as_int(&self) -> int {
        self.value as int
    }

    open spec fn min_value() -> int {
        i64::MIN as int
    }

    open spec fn max_value() -> int {
        i64::MAX as int
    }

    proof fn lemma_bounds() {
    }

    proof fn lemma_in_range(w: &Self) {
    }

    proof fn lemma_as_int_injective(a: &Self, b: &Self) {
    }

    fn zero() -> (r: Self) {
        CheckedInt::new(0)
    }

    fn one() -> (r: Self) {
        CheckedInt::new(1)
    }

    fn is_zero(&self) -> (r: bool) {
        self.value == 0
    }

    fn is_positive(&self) -> (r: bool) {
        self.value > 0
    }

    fn add_by_ref(&self, other: &Self) -> (r: Self) {
        match i64_checked_add(self.value, other.value) {
            Some(v) => CheckedInt::new(v),
            None => CheckedInt::new(0),
        }
    }

    fn add_assign_by_ref(&mut self, other: &Self) {
        *self = self.add_by_ref(other);
    }

    fn neg_by_ref(&self) -> (r: Self) {
        match i64_checked_neg(self.value) {
            Some(v) => CheckedInt::new(v),
            None => CheckedInt::new(0),
        }
    }

    fn mul_by_ref(&self, other: &Self) -> (r: Self) {
        match i64_checked_mul(self.value, other.value) {
            Some(v) => CheckedInt::new(v),
            None => CheckedInt::new(0),
        }
    }
}

impl From<i64> for CheckedInt<i64> {
    fn from(value: i64) -> (r: Self)
        ensures
            r.as_int() == value,
    {
        CheckedInt { value }
    }
}

impl vstd::std_specs::convert::FromSpecImpl<i64> for CheckedInt<i64> {
    open spec fn obeys_from_spec() -> bool {
        true
    }

    closed spec fn from_spec(v: i64) -> Self {
        CheckedInt { value: v }
    }
}

impl From<CheckedInt<i64>> for i64 {
    fn from(w: CheckedInt<i64>) -> (r: i64)
        ensures
            r == w.as_int(),
    {
        w.value
    }
}

impl vstd::std_specs::convert::FromSpecImpl<CheckedInt<i64>> for i64 {
    open spec fn obeys_from_spec() -> bool {
        true
    }

    closed spec fn from_spec(w: CheckedInt<i64>) -> i64 {
        w.value
    }
}

} // verus!
