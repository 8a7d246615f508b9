use caliph::rational::{ArithError, Rational};
use caliph::routines::{interp_ph10, interp_ph4, ph_calibration, ph_convert, Calibration};
use float_cmp::{ApproxEq, F64Margin};

fn whole(n: i32) -> Rational {
    Rational::from_int(n)
}

fn frac(num: i64, den: i64) -> Rational {
    Rational::new(num, den).unwrap()
}

fn float(r: &Rational) -> f64 {
    r.numerator() as f64 / r.denominator() as f64
}

fn close(expected: f64, result: f64) -> bool {
    expected.approx_eq(result, F64Margin::default())
}

#[test]
fn test_ph_calibration() {
    let temperature = whole(21);
    let ph_measured = [frac(375, 100), frac(949, 100)];
    let res = ph_calibration(&ph_measured, &temperature).unwrap();
    let slope = 1.053658536585366;
    let offset = 0.05078048780487787;
    let test_calib = Calibration::default().with_slope(slope).with_offset(offset);

    assert!(
        close(float(&res.slope), test_calib.slope) && close(float(&res.offset), test_calib.offset)
    )
}

#[test]
fn calibration_at_room_temperature() {
    let res = ph_calibration(&[frac(397, 100), frac(102, 10)], &whole(25)).unwrap();

    assert_eq!(res.slope, frac(600, 623));
    assert_eq!(res.offset, frac(11623, 62300));
    assert_eq!(res.rms, Some(whole(0)));
    assert_eq!(res.rsq, Some(whole(1)));
    assert!((float(&res.slope) - 0.96308).abs() < 5e-6);
    assert!((float(&res.offset) - 0.18657).abs() < 5e-6);
}

#[test]
fn calibration_at_another_temperature() {
    let res = ph_calibration(&[frac(397, 100), frac(102, 10)], &frac(223, 10)).unwrap();

    assert_eq!(res.slope, frac(15081, 15575));
    assert_eq!(res.offset, frac(100003, 623000));
    assert!((float(&res.slope) - 0.96828).abs() < 5e-6);
    assert!((float(&res.offset) - 0.16052).abs() < 5e-6);
}

#[test]
fn calibration_outside_the_curves_takes_the_nominal_values() {
    let measured = [frac(397, 100), frac(102, 10)];
    let room = ph_calibration(&measured, &whole(25)).unwrap();
    let hot = ph_calibration(&measured, &whole(100)).unwrap();
    let cold = ph_calibration(&measured, &frac(-1, 10)).unwrap();

    assert_eq!(hot.slope, room.slope);
    assert_eq!(hot.offset, room.offset);
    assert_eq!(cold.slope, frac(600, 623));
    assert_eq!(cold.offset, frac(11623, 62300));
    assert_eq!(cold.rms, Some(whole(0)));
    assert_eq!(cold.rsq, Some(whole(1)));
}

#[test]
fn calibration_at_the_last_control_point() {
    let res = ph_calibration(&[whole(4), whole(10)], &whole(95)).unwrap();

    assert_eq!(res.slope, frac(556, 600));
    assert_eq!(res.offset, frac(420, 100).checked_sub(&frac(4 * 556, 600)).unwrap());
}

#[test]
fn the_calibration_maps_each_reading_to_its_reference() {
    let measured = [frac(375, 100), frac(949, 100)];
    let temperature = whole(21);
    let res = ph_calibration(&measured, &temperature).unwrap();
    let model = [res.slope, res.offset];

    assert_eq!(ph_convert(&measured[0], &model), interp_ph4(&temperature).map(|v| v.unwrap()));
    assert_eq!(ph_convert(&measured[1], &model), interp_ph10(&temperature).map(|v| v.unwrap()));
    assert_eq!(ph_convert(&measured[0], &model), Ok(frac(4002, 1000)));
    assert_eq!(ph_convert(&measured[1], &model), Ok(frac(1005, 100)));
}

#[test]
fn equal_readings_define_no_calibration() {
    let res = ph_calibration(&[whole(7), whole(7)], &whole(25));

    assert!(matches!(res, Err(ArithError::DivisionByZero)));
}

#[test]
fn a_calibration_that_does_not_fit_is_reported() {
    let res = ph_calibration(&[frac(1, i64::MAX), whole(10)], &whole(25));
    assert!(matches!(res, Err(ArithError::Overflow)));

    let res = ph_calibration(&[whole(4), whole(10)], &frac(1, i64::MAX));
    assert!(matches!(res, Err(ArithError::Overflow)));
}

#[test]
fn conversion_applies_the_calibration() {
    let result = ph_convert(&frac(35, 10), &[whole(1), frac(495, 10000)]).unwrap();
    assert_eq!(result, frac(35495, 10000));
    assert!(close(float(&result), 3.5495));

    let custom = ph_convert(&frac(35, 10), &[frac(11, 10), frac(2, 100)]).unwrap();
    assert_eq!(custom, frac(387, 100));
    assert!(close(float(&custom), 3.87));

    assert_eq!(ph_convert(&whole(2), &[frac(i64::MAX, 1), whole(0)]), Err(ArithError::Overflow));
}

#[test]
fn the_buffer_curves_at_their_control_points() {
    assert_eq!(interp_ph4(&whole(25)), Ok(Some(frac(401, 100))));
    assert_eq!(interp_ph10(&whole(25)), Ok(Some(frac(1001, 100))));
    assert_eq!(interp_ph4(&whole(0)), Ok(Some(frac(401, 100))));
    assert_eq!(interp_ph10(&whole(0)), Ok(Some(frac(1032, 100))));
    assert_eq!(interp_ph4(&whole(60)), Ok(Some(frac(409, 100))));
    assert_eq!(interp_ph10(&whole(80)), Ok(Some(frac(973, 100))));
    assert_eq!(interp_ph4(&whole(95)), Ok(Some(frac(42, 10))));
    assert_eq!(interp_ph10(&whole(95)), Ok(Some(frac(976, 100))));
}

#[test]
fn the_buffer_curves_between_and_beyond_their_control_points() {
    assert_eq!(interp_ph4(&whole(21)), Ok(Some(frac(4002, 1000))));
    assert_eq!(interp_ph10(&whole(21)), Ok(Some(frac(1005, 100))));
    assert_eq!(interp_ph4(&frac(-1, 100)), Ok(None));
    assert_eq!(interp_ph10(&frac(-1, 100)), Ok(None));
    assert_eq!(interp_ph4(&frac(9501, 100)), Ok(None));
    assert_eq!(interp_ph10(&frac(9501, 100)), Ok(None));
    assert_eq!(interp_ph4(&frac(1, i64::MAX)), Err(ArithError::Overflow));
}

#[test]
fn calibrations_are_built_from_their_parts() {
    let c = Calibration::new(2.0, 1.0, Some(0.5), None);
    assert_eq!(c.slope, 2.0);
    assert_eq!(c.offset, 1.0);
    assert_eq!(c.rms, Some(0.5));
    assert_eq!(c.rsq, None);

    let steeper = c.with_slope(3.0);
    assert_eq!(steeper.slope, 3.0);
    assert_eq!(steeper.offset, 1.0);
    assert_eq!(steeper.rms, Some(0.5));
    assert_eq!(steeper.rsq, None);

    let higher = c.with_offset(-4.0);
    assert_eq!(higher.slope, 2.0);
    assert_eq!(higher.offset, -4.0);
    assert_eq!(higher.rms, Some(0.5));
    assert_eq!(higher.rsq, None);
}

#[test]
fn the_default_calibration_has_no_figures() {
    let c: Calibration<Rational> = Calibration::default();
    assert_eq!(c.slope, whole(0));
    assert_eq!(c.offset, whole(0));
    assert_eq!(c.rms, None);
    assert_eq!(c.rsq, None);

    let f: Calibration<f64> = Calibration::default();
    assert_eq!(f.slope, 0.0);
    assert_eq!(f.offset, 0.0);
    assert!(f.rms.is_none() && f.rsq.is_none());
}
