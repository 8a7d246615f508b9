use caliph::rational::{ArithError, Rational};
use caliph::stats::{covariance, mean, variance};
use float_cmp::{ApproxEq, F64Margin};

fn whole(n: i32) -> Rational {
    Rational::from_int(n)
}

fn frac(num: i64, den: i64) -> Rational {
    Rational::new(num, den).unwrap()
}

fn float(r: &Rational) -> f64 {
    r.numerator() as f64 / r.denominator() as f64
}

fn close(expected: f64, result: f64) -> bool {
    expected.approx_eq(result, F64Margin::default())
}

#[test]
fn test_mean() {
    let values = vec![whole(1), whole(2), whole(3), whole(4)];
    let result: f64 = float(&mean(&values).unwrap());

    assert!(close(2.5_f64, result));
}

#[test]
fn test_mean_empty() {
    let values: Vec<Rational> = Vec::new();
    let result: f64 = float(&mean(&values).unwrap());

    assert!(close(0.0_f64, result));
}

#[test]
fn test_mean_single() {
    let values: Vec<Rational> = vec![whole(2)];
    let result: f64 = float(&mean(&values).unwrap());

    assert!(close(2.0_f64, result));
}

#[test]
fn test_variance() {
    let values = vec![whole(1), whole(2), whole(3), whole(4)];
    let result: f64 = float(&variance(&values).unwrap());

    assert!(close(1.25_f64, result));
}

#[test]
fn test_variance_empty() {
    let values: Vec<Rational> = Vec::new();
    let result: f64 = float(&variance(&values).unwrap());

    assert!(close(0.0_f64, result));
}

#[test]
fn test_varaince_single() {
    let x: Vec<Rational> = vec![whole(2)];
    let y: Vec<Rational> = vec![whole(1)];
    let result: f64 = float(&covariance(&x, &y).unwrap());

    assert!(close(0.0_f64, result));
}

#[test]
fn test_covariance() {
    let x = vec![whole(1), whole(2), whole(3), whole(4)];
    let y = vec![whole(3), whole(4), whole(5), whole(6)];
    let result: f64 = float(&covariance(&x, &y).unwrap());

    assert!(close(1.25_f64, result));
}

#[test]
fn test_covariance_empty() {
    let values: Vec<Rational> = Vec::new();
    let result: f64 = float(&covariance(&values, &values).unwrap());

    assert!(close(0.0_f64, result));
}

#[test]
fn mean_is_exact() {
    let values = vec![whole(1), whole(2), whole(3), whole(4)];
    assert_eq!(mean(&values), Ok(frac(5, 2)));
    assert_eq!(mean(&[]), Ok(whole(0)));
    assert_eq!(mean(&[frac(-7, 3)]), Ok(frac(-7, 3)));
    assert_eq!(mean(&[frac(1, 3), frac(1, 6)]), Ok(frac(1, 4)));
}

#[test]
fn variance_is_the_population_variance() {
    let values = vec![whole(1), whole(2), whole(3), whole(4)];
    assert_eq!(variance(&values), Ok(frac(5, 4)));
    assert_eq!(variance(&[]), Ok(whole(0)));
    assert_eq!(variance(&[frac(9, 7)]), Ok(whole(0)));
    assert_eq!(variance(&[whole(1), whole(3)]), Ok(whole(1)));
    assert_eq!(variance(&[whole(5), whole(5), whole(5)]), Ok(whole(0)));
}

#[test]
fn covariance_is_the_population_covariance() {
    let x = vec![whole(1), whole(2), whole(3), whole(4)];
    let y = vec![whole(3), whole(4), whole(5), whole(6)];
    assert_eq!(covariance(&x, &y), Ok(frac(5, 4)));
    assert_eq!(covariance(&x, &x), variance(&x));
    let down = vec![whole(6), whole(5), whole(4), whole(3)];
    assert_eq!(covariance(&x, &down), Ok(frac(-5, 4)));
    assert_eq!(covariance(&[], &[]), Ok(whole(0)));
}

#[test]
fn a_sum_that_does_not_fit_is_reported() {
    let big = frac(i64::MAX, 1);
    assert_eq!(mean(&[big, big]), Err(ArithError::Overflow));
    assert_eq!(variance(&[big, whole(-1)]), Err(ArithError::Overflow));
    assert_eq!(covariance(&[big, big], &[whole(1), whole(2)]), Err(ArithError::Overflow));
    assert_eq!(mean(&[big]), Ok(big));
}

#[test]
fn a_square_that_does_not_fit_is_reported() {
    let values = vec![whole(0), frac(8_000_000_000, 1)];
    assert_eq!(mean(&values), Ok(frac(4_000_000_000, 1)));
    assert_eq!(variance(&values), Err(ArithError::Overflow));
}
