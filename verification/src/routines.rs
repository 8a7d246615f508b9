//! Calibrating a pH meter against the two buffer solutions, and correcting a
//! reading with a calibration.
use crate::curve::{
    from_hundredths, interpolate_checked, interpolate_of, lift_optional, ph10_hundredths,
    ph4_hundredths, standard_temperatures, ReferenceCurve,
};
use crate::domain::{
    is_offset, is_reading, is_slope, is_temperature, lemma_calibration_fits, lemma_ph10_bounds,
    lemma_ph4_bounds, lemma_reference_fits,
};
use crate::fit::{
    evaluate, evaluate_checked, fit, fit_checked, lemma_fit_checked, predict, predict_checked,
    predict_of,
};
use crate::rational::{lift, ratio, ArithError, Rational};
use crate::stats::reals;
use crate::two_point::{lemma_two_point_line, lemma_two_point_moments, lemma_two_point_quality};
use vstd::prelude::*;

verus! {

/// A linear calibration `corrected = slope * measured + offset`, with the
/// figures that say how well the line fitted where they were computed.
pub struct Calibration<F> {
    /// The factor of the reading.
    pub slope: F,
    /// What is added to the product of slope and reading.
    pub offset: F,
    /// The root-mean-square error of the line against its points.
    pub rms: Option<F>,
    /// One minus that error over the variance of the reference values.
    pub rsq: Option<F>,
}

impl<F: Copy> Calibration<F> {
    /// A calibration of the given parts.
    pub fn new(slope: F, offset: F, rms: Option<F>, rsq: Option<F>) -> (c: Calibration<F>)
        ensures
            c.slope == slope,
            c.offset == offset,
            c.rms == rms,
            c.rsq == rsq,
    {
        Calibration { slope, offset, rms, rsq }
    }

    /// The same calibration with another slope.
    pub fn with_slope(&self, slope: F) -> (c: Calibration<F>)
        ensures
            c.slope == slope,
            c.offset == self.offset,
            c.rms == self.rms,
            c.rsq == self.rsq,
    {
        Calibration { slope, offset: self.offset, rms: self.rms, rsq: self.rsq }
    }

    /// The same calibration with another offset.
    pub fn with_offset(&self, offset: F) -> (c: Calibration<F>)
        ensures
            c.slope == self.slope,
            c.offset == offset,
            c.rms == self.rms,
            c.rsq == self.rsq,
    {
        Calibration { slope: self.slope, offset, rms: self.rms, rsq: self.rsq }
    }
}

impl<F: Default> Default for Calibration<F> {
    /// Slope and offset as the number type makes them by default, and no
    /// figures of quality.
    fn default() -> (c: Self)
        ensures
            call_ensures(F::default, (), c.slope),
            call_ensures(F::default, (), c.offset),
            c.rms is None,
            c.rsq is None,
    {
        Calibration { slope: F::default(), offset: F::default(), rms: None, rsq: None }
    }
}

/// The pH that stands for the pH 4.01 buffer solution where its curve has no
/// value: 4.01.
pub open spec fn ph4_nominal() -> real {
    ratio(401, 100)
}

/// The pH that stands for the pH 10.01 buffer solution where its curve has
/// no value: 10.01.
pub open spec fn ph10_nominal() -> real {
    ratio(1001, 100)
}

/// The pH of the buffer solution with the given table at temperature `t`;
/// outside the table, `nominal`.
pub open spec fn reference_of(table: Seq<i32>, nominal: real, t: real) -> real {
    match interpolate_of(standard_temperatures(), from_hundredths(table), t) {
        Some(v) => v,
        None => nominal,
    }
}

/// The reference pH as [`ph_calibration`] finds it: the interpolation, with
/// `nominal` in place of a value outside the table.
pub open spec fn reference_checked(table: Seq<i32>, nominal: real, t: real) -> Result<
    real,
    ArithError,
> {
    match interpolate_checked(standard_temperatures(), from_hundredths(table), t) {
        Err(e) => Err(e),
        Ok(Some(v)) => Ok(v),
        Ok(None) => Ok(nominal),
    }
}

/// Slope, offset, error and quality figure as [`ph_calibration`] computes
/// them: the two reference values, the line through the two points, its
/// quality.
pub open spec fn ph_calibration_checked(ph4: real, ph10: real, t: real) -> Result<
    (real, real, Option<real>, Option<real>),
    ArithError,
> {
    match reference_checked(ph4_hundredths(), ph4_nominal(), t) {
        Err(e) => Err(e),
        Ok(r4) => match reference_checked(ph10_hundredths(), ph10_nominal(), t) {
            Err(e) => Err(e),
            Ok(r10) => match fit_checked(seq![ph4, ph10], seq![r4, r10]) {
                Err(e) => Err(e),
                Ok((s, o)) => match evaluate_checked(seq![ph4, ph10], seq![r4, r10], s, o) {
                    Err(e) => Err(e),
                    Ok((rms, rsq)) => Ok((s, o, Some(rms), Some(rsq))),
                },
            },
        },
    }
}

/// A figure that may be missing, replaced by the number it stands for.
pub open spec fn lift_figure(f: Option<Rational>) -> Option<real> {
    match f {
        Some(v) => Some(v@),
        None => None,
    }
}

/// The outcome of a calibration with each value replaced by the number it
/// stands for.
pub open spec fn lift_calibration(r: Result<Calibration<Rational>, ArithError>) -> Result<
    (real, real, Option<real>, Option<real>),
    ArithError,
> {
    match r {
        Ok(c) => Ok((c.slope@, c.offset@, lift_figure(c.rms), lift_figure(c.rsq))),
        Err(e) => Err(e),
    }
}

/// The pH of the pH 4.01 buffer solution at `temperature`, read off its
/// curve; nothing below 0 or above 95 degrees Celsius.
pub fn interp_ph4(temperature: &Rational) -> (r: Result<Option<Rational>, ArithError>)
    ensures
        lift_optional(r) == interpolate_checked(
            standard_temperatures(),
            from_hundredths(ph4_hundredths()),
            temperature@,
        ),
        lift_optional(r) is Ok ==> lift_optional(r) == Ok::<Option<real>, ArithError>(
            interpolate_of(
                standard_temperatures(),
                from_hundredths(ph4_hundredths()),
                temperature@,
            ),
        ),
        r matches Ok(None) <==> !(0real <= temperature@ <= 95real),
        r matches Err(e) ==> e == ArithError::Overflow,
        is_temperature(temperature@) ==> r is Ok,
        forall|j: int|
            0 <= j < 20 && temperature@ == (5 * j) as real ==> lift_optional(r) == Ok::<
                Option<real>,
                ArithError,
            >(Some(ratio(#[trigger] ph4_hundredths()[j] as int, 100))),
{
    let curve = ReferenceCurve::ph4_buffer();
    let r = curve.interpolate(temperature);
    proof {
        if is_temperature(temperature@) {
            lemma_ph4_bounds();
            let c = choose|c: int| #[trigger] ratio(c, 1000) == temperature@;
            lemma_reference_fits(ph4_hundredths(), 401, 400, 420, c);
        }
        assert forall|j: int| 0 <= j < 20 && temperature@ == (5 * j) as real implies lift_optional(
            r,
        ) == Ok::<Option<real>, ArithError>(
            Some(ratio(#[trigger] ph4_hundredths()[j] as int, 100)),
        ) by {
            assert(curve.temps()[j] == temperature@);
        }
    }
    r
}

/// The pH of the pH 10.01 buffer solution at `temperature`, read off its
/// curve; nothing below 0 or above 95 degrees Celsius.
pub fn interp_ph10(temperature: &Rational) -> (r: Result<Option<Rational>, ArithError>)
    ensures
        lift_optional(r) == interpolate_checked(
            standard_temperatures(),
            from_hundredths(ph10_hundredths()),
            temperature@,
        ),
        lift_optional(r) is Ok ==> lift_optional(r) == Ok::<Option<real>, ArithError>(
            interpolate_of(
                standard_temperatures(),
                from_hundredths(ph10_hundredths()),
                temperature@,
            ),
        ),
        r matches Ok(None) <==> !(0real <= temperature@ <= 95real),
        r matches Err(e) ==> e == ArithError::Overflow,
        is_temperature(temperature@) ==> r is Ok,
        forall|j: int|
            0 <= j < 20 && temperature@ == (5 * j) as real ==> lift_optional(r) == Ok::<
                Option<real>,
                ArithError,
            >(Some(ratio(#[trigger] ph10_hundredths()[j] as int, 100))),
{
    let curve = ReferenceCurve::ph10_buffer();
    let r = curve.interpolate(temperature);
    proof {
        if is_temperature(temperature@) {
            lemma_ph10_bounds();
            let c = choose|c: int| #[trigger] ratio(c, 1000) == temperature@;
            lemma_reference_fits(ph10_hundredths(), 1001, 973, 1032, c);
        }
        assert forall|j: int| 0 <= j < 20 && temperature@ == (5 * j) as real implies lift_optional(
            r,
        ) == Ok::<Option<real>, ArithError>(
            Some(ratio(#[trigger] ph10_hundredths()[j] as int, 100)),
        ) by {
            assert(curve.temps()[j] == temperature@);
        }
    }
    r
}

/// The calibration for the readings `ph_measured`, taken in the pH 4.01 and
/// in the pH 10.01 buffer solution at `temperature`: the line that maps each
/// reading to the pH that its solution has at that temperature, with the
/// error and the quality figure of that line.  Outside the curves the two
/// solutions count as pH 4.01 and pH 10.01.  Two equal readings define no
/// line.
pub fn ph_calibration(ph_measured: &[Rational; 2], temperature: &Rational) -> (r: Result<
    Calibration<Rational>,
    ArithError,
>)
    ensures
        lift_calibration(r) == ph_calibration_checked(
            ph_measured[0]@,
            ph_measured[1]@,
            temperature@,
        ),
        r matches Ok(c) ==> {
            let r4 = reference_of(ph4_hundredths(), ph4_nominal(), temperature@);
            let r10 = reference_of(ph10_hundredths(), ph10_nominal(), temperature@);
            &&& ph_measured[0]@ != ph_measured[1]@
            &&& c.slope@ == (r10 - r4) / (ph_measured[1]@ - ph_measured[0]@)
            &&& c.offset@ == r4 - c.slope@ * ph_measured[0]@
            &&& predict_of(ph_measured[0]@, c.slope@, c.offset@) == r4
            &&& predict_of(ph_measured[1]@, c.slope@, c.offset@) == r10
            &&& lift_figure(c.rms) == Some(0real)
            &&& lift_figure(c.rsq) == Some(1real)
        },
        is_reading(ph_measured[0]@) && is_reading(ph_measured[1]@) && is_temperature(temperature@)
            ==> (r is Ok <==> ph_measured[0]@ != ph_measured[1]@) && (r matches Err(e) ==> e
            == ArithError::DivisionByZero),
{
    proof {
        if is_reading(ph_measured[0]@) && is_reading(ph_measured[1]@) && is_temperature(
            temperature@,
        ) {
            lemma_calibration_fits(ph_measured[0]@, ph_measured[1]@, temperature@);
        }
    }
    let ph4_cal = match interp_ph4(temperature) {
        Ok(Some(v)) => v,
        Ok(None) => Rational::from_hundredths(401),
        Err(e) => {
            return Err(e);
        },
    };
    let ph10_cal = match interp_ph10(temperature) {
        Ok(Some(v)) => v,
        Ok(None) => Rational::from_hundredths(1001),
        Err(e) => {
            return Err(e);
        },
    };
    let ph_cal = [ph4_cal, ph10_cal];
    let ghost x = seq![ph_measured[0]@, ph_measured[1]@];
    let ghost y = seq![ph4_cal@, ph10_cal@];
    proof {
        assert(reals(ph_measured@) =~= x);
        assert(reals(ph_cal@) =~= y);
    }
    let calibration = match fit(ph_measured.as_slice(), ph_cal.as_slice()) {
        Ok(m) => m,
        Err(e) => {
            return Err(e);
        },
    };
    let fit_eval = match evaluate(ph_measured.as_slice(), ph_cal.as_slice(), &calibration) {
        Ok(q) => q,
        Err(e) => {
            return Err(e);
        },
    };
    proof {
        lemma_fit_checked(x, y);
        if x[0] == x[1] {
            lemma_two_point_moments(x, y);
            assert((x[1] - x[0]) * (x[1] - x[0]) / 4real == 0real) by (nonlinear_arith)
                requires
                    x[0] == x[1],
            ;
        }
        lemma_two_point_line(x, y);
        lemma_two_point_quality(x, y, calibration[0]@, calibration[1]@);
    }
    Ok(Calibration::new(calibration[0], calibration[1], Some(fit_eval[0]), Some(fit_eval[1])))
}

/// The corrected pH for the reading `ph_measured` under the calibration
/// whose slope is `calibration[0]` and whose offset is `calibration[1]`.
pub fn ph_convert(ph_measured: &Rational, calibration: &[Rational; 2]) -> (r: Result<
    Rational,
    ArithError,
>)
    ensures
        lift(r) == predict_checked(ph_measured@, calibration[0]@, calibration[1]@),
        r matches Ok(v) ==> v@ == predict_of(ph_measured@, calibration[0]@, calibration[1]@),
        r matches Err(e) ==> e == ArithError::Overflow,
        is_reading(ph_measured@) && is_slope(calibration[0]@) && is_offset(calibration[1]@)
            ==> r is Ok,
{
    predict(ph_measured, calibration)
}

} // verus!
