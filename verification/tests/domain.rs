use caliph::fit::predict;
use caliph::rational::{ArithError, Rational};
use caliph::routines::{interp_ph10, interp_ph4, ph_calibration, ph_convert};
use caliph::stats::mean;

fn frac(num: i64, den: i64) -> Rational {
    Rational::new(num, den).unwrap()
}

fn reading(millionths: i64) -> Rational {
    frac(millionths, 1_000_000)
}

fn temperature(thousandths: i64) -> Rational {
    frac(thousandths, 1_000)
}

fn coefficient(thousand_millionths: i64) -> Rational {
    frac(thousand_millionths, 1_000_000_000)
}

#[test]
fn readings_at_the_limits_are_calibrated() {
    let extremes = [
        100_000_000,
        99_999_999,
        99_999_989,
        1,
        0,
        -1,
        -99_999_999,
        -100_000_000,
        3_970_000,
        10_200_001,
    ];
    let temperatures = [0, 1, 4_999, 24_999, 25_000, 25_001, 94_999, 95_000, 95_001, -1, 22_300];
    for a in extremes {
        for b in extremes {
            for t in temperatures {
                let result = ph_calibration(&[reading(a), reading(b)], &temperature(t));
                if a == b {
                    assert!(matches!(result, Err(ArithError::DivisionByZero)));
                } else {
                    let calibration = result.ok().unwrap();
                    assert_eq!(calibration.rms, Some(Rational::zero()));
                    assert_eq!(calibration.rsq, Some(Rational::from_int(1)));
                    let model = [calibration.slope, calibration.offset];
                    let at = temperature(t);
                    let ph4 = interp_ph4(&at).unwrap().unwrap_or(frac(401, 100));
                    let ph10 = interp_ph10(&at).unwrap().unwrap_or(frac(1001, 100));
                    assert_eq!(predict(&reading(a), &model), Ok(ph4));
                    assert_eq!(predict(&reading(b), &model), Ok(ph10));
                }
            }
        }
    }
}

#[test]
fn temperatures_in_thousandths_are_interpolated() {
    for t in [
        -1_000_000_000_000_000,
        -1,
        0,
        1,
        2_500,
        4_999,
        5_001,
        47_123,
        89_999,
        94_999,
        95_000,
        95_001,
        1_000_000_000_000_000,
    ] {
        let at = temperature(t);
        let inside = (0..=95_000).contains(&t);
        assert_eq!(interp_ph4(&at).map(|v| v.is_some()), Ok(inside));
        assert_eq!(interp_ph10(&at).map(|v| v.is_some()), Ok(inside));
    }
    assert_eq!(interp_ph4(&temperature(94_999)), Ok(Some(frac(4_199_998, 1_000_000))));
    assert_eq!(interp_ph10(&temperature(1)), Ok(Some(frac(10_319_986, 1_000_000))));
}

#[test]
fn readings_at_the_limits_are_corrected() {
    let readings = [100_000_000, 99_999_999, 1, 0, -1, -99_999_999, -100_000_000];
    let slopes = [10_000_000_000, 9_999_999_999, 963_081_862, 1, 0, -1, -10_000_000_000];
    let offsets = [1_000_000_000_000, 999_999_999_999, 186_565_008, 0, -1, -1_000_000_000_000];
    for x in readings {
        for s in slopes {
            for o in offsets {
                let model = [coefficient(s), coefficient(o)];
                let corrected = ph_convert(&reading(x), &model).unwrap();
                let exact = (x as i128) * (s as i128) + (o as i128) * 1_000_000;
                let scale = 1_000_000_000_000_000_i128;
                assert_eq!(
                    (corrected.numerator() as i128) * scale,
                    exact * (corrected.denominator() as i128)
                );
                assert_eq!(predict(&reading(x), &model), Ok(corrected));
            }
        }
    }
}

#[test]
fn the_mean_of_many_readings() {
    let mut values = Vec::new();
    for i in 0..100_000 {
        values.push(reading(100_000_000 - (i % 7)));
    }
    let sum: i64 = values.iter().map(|v| v.numerator() * (1_000_000 / v.denominator())).sum();
    assert_eq!(mean(&values), Ok(frac(sum, 100_000 * 1_000_000)));

    let low: Vec<Rational> = (0..1000).map(|_| reading(-100_000_000)).collect();
    assert_eq!(mean(&low), Ok(Rational::from_int(-100)));
}
