use dbsp::algebra::ZRingValue;
use dbsp::checked_int::{CheckedInt, WeightError};

type CheckedI64 = CheckedInt<i64>;

#[test]
fn fixed_integer_tests() {
    assert_eq!(0i64, CheckedI64::zero().into());
    assert_eq!(1i64, CheckedI64::one().into());

    let two = CheckedI64::one().add_by_ref(&CheckedI64::one());
    assert_eq!(2i64, two.into());
    assert_eq!(-2i64, two.neg_by_ref().into());
    assert_eq!(-4i64, two.mul_by_ref(&two.neg_by_ref()).into());

    let mut three = two;
    three.add_assign_by_ref(&CheckedI64::from(1i64));
    assert_eq!(3i64, three.into());
    assert!(!three.is_zero());
}

#[test]
fn checked_add_overflows_at_max() {
    let max = CheckedI64::from(i64::MAX);
    assert_eq!(max.get(), CheckedI64::max_weight().get());
    assert_eq!(max.checked_add_by_ref(&CheckedI64::one()), Err(WeightError::Overflow));
}

#[test]
fn checked_add_in_range() {
    let a = CheckedI64::from(i64::MAX - 1);
    let sum = a.checked_add_by_ref(&CheckedI64::one()).unwrap();
    assert_eq!(sum.get(), i64::MAX);
    let neg = CheckedI64::from(-5).checked_add_by_ref(&CheckedI64::from(3)).unwrap();
    assert_eq!(neg.get(), -2);
}

#[test]
fn checked_mul_overflow_and_product() {
    let big = CheckedI64::from(i64::MAX / 2 + 1);
    assert_eq!(big.checked_mul_by_ref(&CheckedI64::from(2)), Err(WeightError::Overflow));
    let p = CheckedI64::from(-3).checked_mul_by_ref(&CheckedI64::from(7)).unwrap();
    assert_eq!(p.get(), -21);
}

#[test]
fn checked_neg_of_min_overflows() {
    let min = CheckedI64::from(i64::MIN);
    assert_eq!(min.checked_neg_by_ref(), Err(WeightError::Overflow));
    assert_eq!(CheckedI64::from(9).checked_neg_by_ref().unwrap().get(), -9);
}

#[test]
fn positive_and_zero_weights() {
    assert!(CheckedI64::from(4).is_positive());
    assert!(!CheckedI64::from(0).is_positive());
    assert!(!CheckedI64::from(-4).is_positive());
    assert!(CheckedI64::zero().is_zero());
    assert!(7i32.is_positive());
    assert!(!(-7isize).is_positive());
}
