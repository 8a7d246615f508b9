use caliph::gcd::gcd_u128;
use caliph::rational::{ArithError, Rational, ROOT_RESOLUTION};

fn frac(num: i64, den: i64) -> Rational {
    Rational::new(num, den).unwrap()
}

#[test]
fn new_brings_to_lowest_terms() {
    let half = frac(2, 4);
    assert_eq!(half.numerator(), 1);
    assert_eq!(half.denominator(), 2);
    let negative = frac(3, -6);
    assert_eq!(negative.numerator(), -1);
    assert_eq!(negative.denominator(), 2);
    let both = frac(-10, -4);
    assert_eq!(both.numerator(), 5);
    assert_eq!(both.denominator(), 2);
    let zero = frac(0, -17);
    assert_eq!(zero.numerator(), 0);
    assert_eq!(zero.denominator(), 1);
    assert_eq!(frac(397, 100), frac(3970000, 1000000));
}

#[test]
fn new_refuses_a_zero_denominator() {
    assert_eq!(Rational::new(1, 0), Err(ArithError::DivisionByZero));
    assert_eq!(Rational::new(0, 0), Err(ArithError::DivisionByZero));
}

#[test]
fn new_refuses_what_does_not_fit() {
    assert_eq!(Rational::new(i64::MIN, 1), Err(ArithError::Overflow));
    assert_eq!(Rational::new(1, i64::MIN), Err(ArithError::Overflow));
    assert_eq!(Rational::new(i64::MIN, 3), Err(ArithError::Overflow));
    assert_eq!(Rational::new(i64::MIN, 2), Ok(frac(-(1 << 62), 1)));
    assert_eq!(Rational::new(i64::MIN, i64::MIN), Ok(Rational::from_int(1)));
    assert_eq!(Rational::new(i64::MAX, i64::MAX), Ok(Rational::from_int(1)));
    assert_eq!(Rational::new(-i64::MAX, 1).unwrap().numerator(), -i64::MAX);
}

#[test]
fn whole_numbers_and_hundredths() {
    assert_eq!(Rational::from_int(-3), frac(-3, 1));
    assert_eq!(Rational::from_int(i32::MIN).numerator(), i32::MIN as i64);
    assert_eq!(Rational::zero(), frac(0, 1));
    assert_eq!(Rational::default(), Rational::zero());
    assert_eq!(Rational::from_hundredths(401), frac(401, 100));
    assert_eq!(Rational::from_hundredths(420), frac(21, 5));
    assert_eq!(Rational::from_hundredths(-250), frac(-5, 2));
    assert_eq!(Rational::from_hundredths(0), Rational::zero());
}

#[test]
fn sums_differences_products_quotients() {
    let a = frac(1, 3);
    let b = frac(1, 6);
    assert_eq!(a.checked_add(&b), Ok(frac(1, 2)));
    assert_eq!(a.checked_sub(&b), Ok(frac(1, 6)));
    assert_eq!(b.checked_sub(&a), Ok(frac(-1, 6)));
    assert_eq!(a.checked_mul(&b), Ok(frac(1, 18)));
    assert_eq!(a.checked_div(&b), Ok(frac(2, 1)));
    assert_eq!(a.checked_div(&frac(-1, 6)), Ok(frac(-2, 1)));
    assert_eq!(a.checked_div(&Rational::zero()), Err(ArithError::DivisionByZero));
    assert_eq!(Rational::zero().checked_div(&a), Ok(Rational::zero()));
    assert_eq!(frac(7, 2).div_count(7), Ok(frac(1, 2)));
    assert_eq!(frac(7, 2).div_count(1), Ok(frac(7, 2)));
}

#[test]
fn results_that_do_not_fit_are_reported() {
    let big = frac(i64::MAX, 1);
    let small = frac(1, i64::MAX);
    assert_eq!(big.checked_add(&Rational::from_int(1)), Err(ArithError::Overflow));
    assert_eq!(big.checked_add(&Rational::from_int(-1)), Ok(frac(i64::MAX - 1, 1)));
    assert_eq!(frac(-i64::MAX, 1).checked_sub(&Rational::from_int(1)), Err(ArithError::Overflow));
    assert_eq!(big.checked_mul(&frac(2, 1)), Err(ArithError::Overflow));
    assert_eq!(big.checked_mul(&small), Ok(Rational::from_int(1)));
    assert_eq!(small.checked_mul(&small), Err(ArithError::Overflow));
    assert_eq!(small.checked_div(&big), Err(ArithError::Overflow));
    assert_eq!(big.checked_div(&big), Ok(Rational::from_int(1)));
    assert_eq!(small.div_count(2), Err(ArithError::Overflow));
    assert_eq!(small.checked_add(&frac(1, 3)), Err(ArithError::Overflow));
}

#[test]
fn order_and_equality() {
    let a = frac(1, 3);
    let b = frac(2, 6);
    let c = frac(1, 2);
    assert!(a.same(&b));
    assert!(!a.same(&c));
    assert!(a.lt(&c));
    assert!(!c.lt(&a));
    assert!(!a.lt(&b));
    assert!(!b.lt(&a));
    assert!(frac(-1, 2).lt(&frac(-1, 3)));
    assert!(!frac(-1, 3).lt(&frac(-1, 2)));
    assert!(frac(-i64::MAX, 1).lt(&frac(i64::MAX, 1)));
    assert!(frac(i64::MAX - 1, i64::MAX).lt(&Rational::from_int(1)));
    assert!(Rational::zero().lt(&frac(1, i64::MAX)));
    assert!(frac(-1, 100).is_negative());
    assert!(!Rational::zero().is_negative());
    assert!(!frac(1, i64::MAX).is_negative());
}

#[test]
fn square_roots_are_taken_downwards() {
    assert_eq!(ROOT_RESOLUTION, 1_000_000_000);
    assert_eq!(Rational::zero().sqrt_floor(), Some(Rational::zero()));
    assert_eq!(frac(4, 1).sqrt_floor(), Some(frac(2, 1)));
    assert_eq!(frac(9, 16).sqrt_floor(), Some(frac(3, 4)));
    assert_eq!(frac(2, 1).sqrt_floor(), Some(frac(1_414_213_562, 1_000_000_000)));
    assert_eq!(frac(1, 3).sqrt_floor(), Some(frac(577_350_269, 1_000_000_000)));
    assert_eq!(frac(-1, 100).sqrt_floor(), None);
    assert_eq!(frac(1, i64::MAX).sqrt_floor(), Some(Rational::zero()));
    let root = frac(i64::MAX, 1).sqrt_floor().unwrap();
    assert_eq!(root, frac(3_037_000_499_976_049_692, 1_000_000_000));
}

#[test]
fn greatest_common_divisors() {
    assert_eq!(gcd_u128(0, 0), 0);
    assert_eq!(gcd_u128(0, 7), 7);
    assert_eq!(gcd_u128(7, 0), 7);
    assert_eq!(gcd_u128(12, 18), 6);
    assert_eq!(gcd_u128(18, 12), 6);
    assert_eq!(gcd_u128(17, 5), 1);
    assert_eq!(gcd_u128(1 << 100, 1 << 64), 1 << 64);
    assert_eq!(gcd_u128(u128::MAX, 3), 3);
}
