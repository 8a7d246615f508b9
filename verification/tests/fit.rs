use caliph::fit::{evaluate, fit, predict, root_mean_squared_error, rsquared};
use caliph::rational::{ArithError, Rational};
use float_cmp::{ApproxEq, F64Margin};

fn whole(n: i32) -> Rational {
    Rational::from_int(n)
}

fn frac(num: i64, den: i64) -> Rational {
    Rational::new(num, den).unwrap()
}

fn float(r: &Rational) -> f64 {
    r.numerator() as f64 / r.denominator() as f64
}

fn close(expected: f64, result: f64) -> bool {
    expected.approx_eq(result, F64Margin::default())
}

#[test]
fn fit_finds_the_exact_line() {
    let x = [whole(1), whole(2), whole(3)];
    let y = [whole(3), whole(5), whole(7)];

    let result = fit(&x, &y).unwrap();

    assert_eq!(result, [whole(2), whole(1)]);
    assert!(close(float(&result[0]), 2.0) && close(float(&result[1]), 1.0));
}

#[test]
fn predict_evaluates_the_line() {
    let model = [frac(2, 1), frac(35, 10)];
    let x = frac(15, 10);

    let result = predict(&x, &model).unwrap();

    assert_eq!(result, frac(65, 10));
    assert!(close(float(&result), 6.5));
}

#[test]
fn evaluate_reports_error_and_quality() {
    let x = [frac(105, 100), frac(1992, 1000), frac(303, 100)];
    let y = [frac(2993, 1000), frac(492, 100), frac(699, 100)];

    let model = fit(&x, &y).unwrap();
    let result = evaluate(&x, &y, &model).unwrap();

    assert_eq!(model, [frac(1979659, 980868), frac(72149621, 81739000)]);
    assert_eq!(result[0], frac(11_967_558, 1_000_000_000));
    assert_eq!(result[1], frac(11933264989, 11987119000));
    assert!((float(&result[0]) - 1.19675583971723e-2).abs() < 1e-9);
    assert!((float(&result[1]) - 0.99550).abs() < 1e-4);
}

#[test]
fn the_quality_figure_is_one_minus_error_over_variance() {
    let y = [whole(1), whole(2), whole(3), whole(4)];
    let rms = frac(1, 4);

    assert_eq!(rsquared(&y, &rms), Ok(frac(4, 5)));
    assert_eq!(rsquared(&y, &whole(0)), Ok(whole(1)));
    assert_eq!(rsquared(&y, &frac(5, 2)), Ok(whole(-1)));
    assert_eq!(rsquared(&[whole(3), whole(3)], &rms), Err(ArithError::DivisionByZero));
    assert_eq!(rsquared(&[], &rms), Err(ArithError::DivisionByZero));
}

#[test]
fn the_error_is_the_root_of_the_mean_square() {
    let actual = [whole(1), whole(2), whole(3), whole(4)];
    let predicted = [whole(4), whole(6), whole(3), whole(4)];

    assert_eq!(root_mean_squared_error(&actual, &predicted), Ok(frac(5, 2)));
    assert_eq!(root_mean_squared_error(&actual, &actual), Ok(whole(0)));
    assert_eq!(
        root_mean_squared_error(&[whole(0), whole(0)], &[whole(1), whole(-1)]),
        Ok(whole(1))
    );
    assert_eq!(
        root_mean_squared_error(&[whole(0)], &[whole(2)]).map(|r| float(&r)),
        Ok(2.0)
    );
    assert_eq!(
        root_mean_squared_error(&[whole(0), whole(0)], &[whole(1), whole(0)]),
        Ok(frac(707_106_781, 1_000_000_000))
    );
}

#[test]
fn the_error_pairs_what_has_a_partner_and_divides_by_the_actual_values() {
    let actual = [whole(0), whole(0), whole(0), whole(0)];
    let predicted = [whole(2), whole(2)];

    assert_eq!(root_mean_squared_error(&actual, &predicted), Ok(frac(1_414_213_562, 1_000_000_000)));
    assert_eq!(root_mean_squared_error(&predicted, &actual), Ok(whole(2)));
    assert_eq!(root_mean_squared_error(&actual, &[]), Ok(whole(0)));
    assert_eq!(root_mean_squared_error(&[], &predicted), Err(ArithError::DivisionByZero));
    assert_eq!(root_mean_squared_error(&[], &[]), Err(ArithError::DivisionByZero));
}

#[test]
fn equal_x_define_no_line() {
    let x = [whole(2), whole(2), whole(2)];
    let y = [whole(1), whole(5), whole(9)];

    assert_eq!(fit(&x, &y), Err(ArithError::DivisionByZero));
    assert_eq!(fit(&[whole(7)], &[whole(1)]), Err(ArithError::DivisionByZero));
    assert_eq!(fit(&[], &[]), Err(ArithError::DivisionByZero));
}

#[test]
fn evaluate_is_undefined_without_points() {
    let model = [whole(1), whole(0)];

    assert_eq!(evaluate(&[], &[], &model), Err(ArithError::DivisionByZero));
    assert_eq!(evaluate(&[], &[whole(1), whole(2)], &model), Err(ArithError::DivisionByZero));
    assert_eq!(evaluate(&[whole(1)], &[], &model), Err(ArithError::DivisionByZero));
}

#[test]
fn evaluate_is_undefined_without_variance_in_y() {
    let model = [whole(0), whole(4)];
    let x = [whole(1), whole(2)];
    let y = [whole(4), whole(4)];

    assert_eq!(evaluate(&x, &y, &model), Err(ArithError::DivisionByZero));
}

#[test]
fn evaluate_of_a_line_through_its_points() {
    let x = [whole(1), whole(2), whole(3)];
    let y = [whole(3), whole(5), whole(7)];
    let model = fit(&x, &y).unwrap();

    assert_eq!(evaluate(&x, &y, &model), Ok([whole(0), whole(1)]));
}

#[test]
fn evaluate_of_another_line() {
    let x = [whole(0), whole(1)];
    let y = [whole(0), whole(2)];
    let model = [whole(1), whole(1)];

    assert_eq!(evaluate(&x, &y, &model), Ok([frac(707_106_781, 1_000_000_000), frac(292_893_219, 1_000_000_000)]));
}

#[test]
fn a_line_through_two_points_returns_them() {
    let x = [frac(397, 100), frac(102, 10)];
    let y = [frac(401, 100), frac(1001, 100)];
    let model = fit(&x, &y).unwrap();

    assert_eq!(predict(&x[0], &model), Ok(y[0]));
    assert_eq!(predict(&x[1], &model), Ok(y[1]));
    assert_eq!(model[0], frac(600, 623));
    assert_eq!(model[1], frac(11623, 62300));

    let steep = fit(&[frac(-1, 7), frac(2, 9)], &[frac(5, 3), frac(-11, 13)]).unwrap();
    assert_eq!(predict(&frac(-1, 7), &steep), Ok(frac(5, 3)));
    assert_eq!(predict(&frac(2, 9), &steep), Ok(frac(-11, 13)));
}

#[test]
fn predictions_that_do_not_fit_are_reported() {
    let model = [frac(i64::MAX, 1), whole(0)];

    assert_eq!(predict(&whole(2), &model), Err(ArithError::Overflow));
    assert_eq!(predict(&whole(1), &[frac(i64::MAX, 1), whole(1)]), Err(ArithError::Overflow));
    assert_eq!(predict(&whole(1), &model), Ok(frac(i64::MAX, 1)));
    assert_eq!(evaluate(&[whole(2)], &[whole(1)], &model), Err(ArithError::Overflow));
    assert_eq!(
        fit(&[frac(i64::MAX, 1), whole(-1)], &[whole(0), whole(1)]),
        Err(ArithError::Overflow)
    );
}
