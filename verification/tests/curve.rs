use caliph::curve::{line_through, ReferenceCurve};
use caliph::rational::{ArithError, Rational};

fn whole(n: i32) -> Rational {
    Rational::from_int(n)
}

fn frac(num: i64, den: i64) -> Rational {
    Rational::new(num, den).unwrap()
}

const PH4: [i32; 20] = [
    401, 400, 400, 400, 400, 401, 402, 403, 404, 405, 406, 407, 409, 411, 412, 414, 416, 417, 419,
    420,
];

const PH10: [i32; 20] = [
    1032, 1025, 1018, 1012, 1006, 1001, 996, 992, 988, 985, 982, 979, 977, 976, 975, 974, 973,
    974, 975, 976,
];

#[test]
fn the_standard_curves_have_twenty_control_points() {
    assert_eq!(ReferenceCurve::ph4_buffer().len(), 20);
    assert_eq!(ReferenceCurve::ph10_buffer().len(), 20);
}

#[test]
fn a_control_point_gives_its_own_value() {
    let ph4 = ReferenceCurve::ph4_buffer();
    let ph10 = ReferenceCurve::ph10_buffer();
    for i in 0..20 {
        let t = whole(5 * i as i32);
        assert_eq!(ph4.interpolate(&t), Ok(Some(Rational::from_hundredths(PH4[i]))));
        assert_eq!(ph10.interpolate(&t), Ok(Some(Rational::from_hundredths(PH10[i]))));
    }
    assert_eq!(ph4.interpolate(&whole(25)), Ok(Some(frac(401, 100))));
    assert_eq!(ph10.interpolate(&whole(25)), Ok(Some(frac(1001, 100))));
}

#[test]
fn the_ends_of_a_curve_belong_to_it() {
    let ph4 = ReferenceCurve::ph4_buffer();
    assert_eq!(ph4.interpolate(&whole(0)), Ok(Some(frac(401, 100))));
    assert_eq!(ph4.interpolate(&whole(95)), Ok(Some(frac(42, 10))));
    let ph10 = ReferenceCurve::ph10_buffer();
    assert_eq!(ph10.interpolate(&whole(0)), Ok(Some(frac(1032, 100))));
    assert_eq!(ph10.interpolate(&whole(95)), Ok(Some(frac(976, 100))));
}

#[test]
fn outside_a_curve_there_is_no_value() {
    let ph4 = ReferenceCurve::ph4_buffer();
    assert_eq!(ph4.interpolate(&frac(-1, 1000)), Ok(None));
    assert_eq!(ph4.interpolate(&frac(95001, 1000)), Ok(None));
    assert_eq!(ph4.interpolate(&whole(-40)), Ok(None));
    assert_eq!(ph4.interpolate(&whole(100)), Ok(None));
    assert_eq!(ph4.interpolate(&frac(i64::MAX, 1)), Ok(None));
    let ph10 = ReferenceCurve::ph10_buffer();
    assert_eq!(ph10.interpolate(&frac(-1, i64::MAX)), Ok(None));
    assert_eq!(ph10.interpolate(&frac(96, 1)), Ok(None));
}

#[test]
fn between_control_points_the_curve_is_a_straight_line() {
    let ph4 = ReferenceCurve::ph4_buffer();
    assert_eq!(ph4.interpolate(&frac(223, 10)), Ok(Some(frac(40046, 10000))));
    assert_eq!(ph4.interpolate(&whole(21)), Ok(Some(frac(4002, 1000))));
    assert_eq!(ph4.interpolate(&frac(25, 10)), Ok(Some(frac(4005, 1000))));
    assert_eq!(ph4.interpolate(&whole(12)), Ok(Some(whole(4))));
    assert_eq!(ph4.interpolate(&frac(925, 10)), Ok(Some(frac(4195, 1000))));
    let ph10 = ReferenceCurve::ph10_buffer();
    assert_eq!(ph10.interpolate(&frac(223, 10)), Ok(Some(frac(10037, 1000))));
    assert_eq!(ph10.interpolate(&whole(21)), Ok(Some(frac(1005, 100))));
    assert_eq!(ph10.interpolate(&whole(82)), Ok(Some(frac(9734, 1000))));
    assert_eq!(ph10.interpolate(&frac(949, 10)), Ok(Some(frac(97598, 10000))));
}

#[test]
fn an_interpolation_that_does_not_fit_is_reported() {
    let ph10 = ReferenceCurve::ph10_buffer();
    assert_eq!(ph10.interpolate(&frac(1, i64::MAX)), Err(ArithError::Overflow));
    assert_eq!(ph10.interpolate(&frac(i64::MAX, i64::MAX / 90)), Err(ArithError::Overflow));
}

#[test]
fn a_curve_needs_increasing_temperatures() {
    let values = vec![whole(1), whole(2), whole(3)];
    assert!(ReferenceCurve::new(vec![whole(0), whole(1), whole(2)], values.clone()).is_some());
    assert!(ReferenceCurve::new(vec![whole(0), whole(1), whole(1)], values.clone()).is_none());
    assert!(ReferenceCurve::new(vec![whole(0), whole(2), whole(1)], values.clone()).is_none());
    assert!(ReferenceCurve::new(vec![whole(1), whole(0), whole(2)], values.clone()).is_none());
    assert!(ReferenceCurve::new(vec![whole(0), whole(1)], values.clone()).is_none());
    assert!(ReferenceCurve::new(vec![whole(0), whole(1), whole(2), whole(3)], values).is_none());
    assert!(ReferenceCurve::new(Vec::new(), Vec::new()).is_some());
    assert!(ReferenceCurve::new(vec![whole(4)], vec![whole(9)]).is_some());
}

#[test]
fn curves_of_one_point_and_of_none() {
    let empty = ReferenceCurve::new(Vec::new(), Vec::new()).unwrap();
    assert_eq!(empty.len(), 0);
    assert_eq!(empty.interpolate(&whole(0)), Ok(None));
    let single = ReferenceCurve::new(vec![whole(4)], vec![whole(9)]).unwrap();
    assert_eq!(single.len(), 1);
    assert_eq!(single.interpolate(&whole(4)), Ok(Some(whole(9))));
    assert_eq!(single.interpolate(&frac(41, 10)), Ok(None));
    assert_eq!(single.interpolate(&frac(39, 10)), Ok(None));
}

#[test]
fn a_curve_of_uneven_steps() {
    let curve = ReferenceCurve::new(
        vec![whole(-10), whole(0), frac(1, 2), whole(8)],
        vec![whole(3), whole(-1), whole(0), frac(15, 2)],
    )
    .unwrap();
    assert_eq!(curve.interpolate(&whole(-5)), Ok(Some(whole(1))));
    assert_eq!(curve.interpolate(&frac(1, 4)), Ok(Some(frac(-1, 2))));
    assert_eq!(curve.interpolate(&frac(1, 2)), Ok(Some(whole(0))));
    assert_eq!(curve.interpolate(&whole(3)), Ok(Some(frac(5, 2))));
    assert_eq!(curve.interpolate(&whole(8)), Ok(Some(frac(15, 2))));
    assert_eq!(curve.interpolate(&frac(81, 10)), Ok(None));
}

#[test]
fn the_line_through_two_points() {
    let (t0, v0, t1, v1) = (whole(20), whole(4), whole(25), frac(401, 100));
    assert_eq!(line_through(&t0, &v0, &t1, &v1, &frac(223, 10)), Ok(frac(40046, 10000)));
    assert_eq!(line_through(&t0, &v0, &t1, &v1, &t0), Ok(v0));
    assert_eq!(line_through(&t0, &v0, &t1, &v1, &t1), Ok(v1));
    assert_eq!(line_through(&t0, &v0, &t1, &v1, &whole(30)), Ok(frac(402, 100)));
    assert_eq!(line_through(&t0, &v0, &t0, &v1, &whole(30)), Err(ArithError::DivisionByZero));
}
