//! The least-squares line through paired samples, its predictions and its
//! quality.
use crate::domain::{is_offset, is_reading, is_slope, lemma_predict_fits};
use crate::rational::{
    ck, ck_quot, lift, ratio, root_floor, ArithError, Rational, ROOT_RESOLUTION,
};
use crate::stats::{
    constant, covariance, covariance_checked, covariance_of, lemma_covariance_checked,
    lemma_mean_checked, lemma_sum_checked_prefix, lemma_sum_checked_step,
    lemma_sum_checked_value, lemma_variance_checked, lemma_variance_zero, mean, mean_checked,
    mean_of, reals, squared_deviation_checked, sum_checked, sum_of, variance, variance_checked,
    variance_of,
};
use vstd::prelude::*;

verus! {

/// The slope of the least-squares line: covariance over variance.
pub open spec fn slope_of(x: Seq<real>, y: Seq<real>) -> real {
    covariance_of(x, y) / variance_of(x)
}

/// The offset of the least-squares line, which passes through the point of
/// the two means.
pub open spec fn offset_of(x: Seq<real>, y: Seq<real>) -> real {
    mean_of(y) - slope_of(x, y) * mean_of(x)
}

/// The value of the line with the given slope and offset at `x`.
pub open spec fn predict_of(x: real, slope: real, offset: real) -> real {
    x * slope + offset
}

/// The offset as [`fit`] computes it from a slope: the mean of `y`, the mean
/// of `x`, their product with the slope, the difference.
pub open spec fn offset_checked(x: Seq<real>, y: Seq<real>, slope: real) -> Result<
    real,
    ArithError,
> {
    match mean_checked(y) {
        Err(e) => Err(e),
        Ok(my) => match mean_checked(x) {
            Err(e) => Err(e),
            Ok(mx) => match ck(slope * mx) {
                Err(e) => Err(e),
                Ok(p) => ck(my - p),
            },
        },
    }
}

/// Slope and offset as [`fit`] computes them: covariance, variance, their
/// quotient, then the offset.
pub open spec fn fit_checked(x: Seq<real>, y: Seq<real>) -> Result<(real, real), ArithError> {
    match covariance_checked(x, y) {
        Err(e) => Err(e),
        Ok(c) => match variance_checked(x) {
            Err(e) => Err(e),
            Ok(v) => match ck_quot(c, v) {
                Err(e) => Err(e),
                Ok(s) => match offset_checked(x, y, s) {
                    Err(e) => Err(e),
                    Ok(o) => Ok((s, o)),
                },
            },
        },
    }
}

/// The prediction as [`predict`] computes it: the product, then the sum.
pub open spec fn predict_checked(x: real, slope: real, offset: real) -> Result<real, ArithError> {
    match ck(x * slope) {
        Err(e) => Err(e),
        Ok(p) => ck(p + offset),
    }
}

/// The outcome of a computation of two values with each replaced by the
/// number it stands for.
pub open spec fn lift_pair(r: Result<[Rational; 2], ArithError>) -> Result<
    (real, real),
    ArithError,
> {
    match r {
        Ok(m) => Ok((m[0]@, m[1]@)),
        Err(e) => Err(e),
    }
}

/// Where it has a value, the checked fit is the least-squares line, and the
/// variance of `x` is not zero.
pub proof fn lemma_fit_checked(x: Seq<real>, y: Seq<real>)
    requires
        x.len() == y.len(),
        fit_checked(x, y) is Ok,
    ensures
        fit_checked(x, y) == Ok::<(real, real), ArithError>((slope_of(x, y), offset_of(x, y))),
        variance_of(x) != 0real,
{
    lemma_covariance_checked(x, y);
    lemma_variance_checked(x);
    lemma_mean_checked(x);
    lemma_mean_checked(y);
}

/// The least-squares line through the points `(x[i], y[i])`: its slope, then
/// its offset.  The sequences must be of one length.  Where all `x` are the
/// same, and where there are none, the line is undefined and the division by
/// the zero variance is reported.
pub fn fit(x: &[Rational], y: &[Rational]) -> (r: Result<[Rational; 2], ArithError>)
    requires
        x@.len() == y@.len(),
    ensures
        lift_pair(r) == fit_checked(reals(x@), reals(y@)),
        r matches Ok(m) ==> m[0]@ == slope_of(reals(x@), reals(y@)) && m[1]@ == offset_of(
            reals(x@),
            reals(y@),
        ) && variance_of(reals(x@)) != 0real,
        r matches Err(e) ==> (e == ArithError::DivisionByZero <==> covariance_checked(
            reals(x@),
            reals(y@),
        ) is Ok && variance_checked(reals(x@)) is Ok && constant(reals(x@))),
{
    proof {
        lemma_variance_zero(reals(x@));
        if variance_checked(reals(x@)) is Ok {
            lemma_variance_checked(reals(x@));
        }
    }
    let cov = match covariance(x, y) {
        Ok(c) => c,
        Err(e) => {
            return Err(e);
        },
    };
    let var = match variance(x) {
        Ok(v) => v,
        Err(e) => {
            return Err(e);
        },
    };
    let slope = match cov.checked_div(&var) {
        Ok(s) => s,
        Err(e) => {
            return Err(e);
        },
    };
    let mean_y = match mean(y) {
        Ok(m) => m,
        Err(e) => {
            return Err(e);
        },
    };
    let mean_x = match mean(x) {
        Ok(m) => m,
        Err(e) => {
            return Err(e);
        },
    };
    let product = match slope.checked_mul(&mean_x) {
        Ok(p) => p,
        Err(e) => {
            return Err(e);
        },
    };
    let offset = match mean_y.checked_sub(&product) {
        Ok(o) => o,
        Err(e) => {
            return Err(e);
        },
    };
    proof {
        lemma_fit_checked(reals(x@), reals(y@));
    }
    Ok([slope, offset])
}

/// The value at `x` of the line whose slope is `model[0]` and whose offset
/// is `model[1]`.
pub fn predict(x: &Rational, model: &[Rational; 2]) -> (r: Result<Rational, ArithError>)
    ensures
        lift(r) == predict_checked(x@, model[0]@, model[1]@),
        r matches Ok(v) ==> v@ == predict_of(x@, model[0]@, model[1]@),
        r matches Err(e) ==> e == ArithError::Overflow,
        is_reading(x@) && is_slope(model[0]@) && is_offset(model[1]@) ==> r is Ok,
{
    proof {
        if is_reading(x@) && is_slope(model[0]@) && is_offset(model[1]@) {
            lemma_predict_fits(x@, model[0]@, model[1]@);
        }
    }
    let product = match x.checked_mul(&model[0]) {
        Ok(p) => p,
        Err(e) => {
            return Err(e);
        },
    };
    product.checked_add(&model[1])
}

/// The smaller of two lengths.
pub open spec fn shorter(a: nat, b: nat) -> nat {
    if a <= b {
        a
    } else {
        b
    }
}

/// The squared differences of the elements that have a partner in the other
/// sequence.
pub open spec fn squared_residuals(actual: Seq<real>, predicted: Seq<real>) -> Seq<real> {
    Seq::new(
        shorter(actual.len(), predicted.len()),
        |i: int| (predicted[i] - actual[i]) * (predicted[i] - actual[i]),
    )
}

/// The sum of the squared differences over the number of actual values.
pub open spec fn mean_squared_error_of(actual: Seq<real>, predicted: Seq<real>) -> real {
    sum_of(squared_residuals(actual, predicted)) / (actual.len() as real)
}

/// The root of the mean squared error, taken downwards to the resolution of
/// [`root_floor`].
pub open spec fn rms_of(actual: Seq<real>, predicted: Seq<real>) -> real {
    root_floor(mean_squared_error_of(actual, predicted))
}

/// One minus the error over the variance of `y`.  This is the figure that
/// a calibration carries under the name of R squared; it is not the
/// coefficient of determination of the textbooks, which compares sums of
/// squares.
pub open spec fn rsquared_of(y: Seq<real>, rms: real) -> real {
    1real - rms / variance_of(y)
}

/// The predictions of the line at each `x`.
pub open spec fn predictions_of(x: Seq<real>, slope: real, offset: real) -> Seq<real> {
    Seq::new(x.len(), |i: int| predict_of(x[i], slope, offset))
}

/// The error as [`root_mean_squared_error`] computes it: the squared
/// differences summed from the left, one division by the number of actual
/// values, then the root.
pub open spec fn rms_checked(actual: Seq<real>, predicted: Seq<real>) -> Result<real, ArithError> {
    match sum_checked(
        Seq::new(
            shorter(actual.len(), predicted.len()),
            |i: int| squared_deviation_checked(predicted[i], actual[i]),
        ),
    ) {
        Err(e) => Err(e),
        Ok(t) => match ck_quot(t, actual.len() as real) {
            Err(e) => Err(e),
            Ok(mse) => Ok(root_floor(mse)),
        },
    }
}

/// The quality figure as [`rsquared`] computes it: the variance of `y`, the
/// quotient, the difference from one.
pub open spec fn rsquared_checked(y: Seq<real>, rms: real) -> Result<real, ArithError> {
    match variance_checked(y) {
        Err(e) => Err(e),
        Ok(v) => match ck_quot(rms, v) {
            Err(e) => Err(e),
            Ok(q) => ck(1real - q),
        },
    }
}

/// The predictions at each `x` in turn, up to the first that fails.
pub open spec fn predictions_checked(x: Seq<real>, slope: real, offset: real) -> Result<
    Seq<real>,
    ArithError,
>
    decreases x.len(),
{
    if x.len() == 0 {
        Ok(Seq::empty())
    } else {
        match predictions_checked(x.drop_last(), slope, offset) {
            Err(e) => Err(e),
            Ok(ps) => match predict_checked(x.last(), slope, offset) {
                Err(e) => Err(e),
                Ok(v) => Ok(ps.push(v)),
            },
        }
    }
}

/// Error and quality figure as [`evaluate`] computes them: nothing without
/// an `x`; else every prediction, the error against `y`, the quality figure.
pub open spec fn evaluate_checked(x: Seq<real>, y: Seq<real>, slope: real, offset: real) -> Result<
    (real, real),
    ArithError,
> {
    if x.len() == 0 {
        Err(ArithError::DivisionByZero)
    } else {
        match predictions_checked(x, slope, offset) {
            Err(e) => Err(e),
            Ok(ps) => match rms_checked(y, ps) {
                Err(e) => Err(e),
                Ok(rms) => match rsquared_checked(y, rms) {
                    Err(e) => Err(e),
                    Ok(q) => Ok((rms, q)),
                },
            },
        }
    }
}

/// A failure among the first predictions is the failure of them all.
pub proof fn lemma_predictions_checked_prefix(x: Seq<real>, slope: real, offset: real, k: int)
    requires
        0 <= k <= x.len(),
    ensures
        predictions_checked(x.take(k), slope, offset) matches Err(e) ==> predictions_checked(
            x,
            slope,
            offset,
        ) == Err::<Seq<real>, ArithError>(e),
    decreases x.len() - k,
{
    if k == x.len() {
        assert(x.take(k) =~= x);
    } else {
        assert(x.take(k + 1).drop_last() =~= x.take(k));
        lemma_predictions_checked_prefix(x, slope, offset, k + 1);
    }
}

/// Where they have a value, the checked predictions are the predictions.
pub proof fn lemma_predictions_checked(x: Seq<real>, slope: real, offset: real)
    requires
        predictions_checked(x, slope, offset) is Ok,
    ensures
        predictions_checked(x, slope, offset) == Ok::<Seq<real>, ArithError>(
            predictions_of(x, slope, offset),
        ),
    decreases x.len(),
{
    if x.len() == 0 {
        assert(predictions_of(x, slope, offset) =~= Seq::empty());
    } else {
        lemma_predictions_checked(x.drop_last(), slope, offset);
        let ps = predictions_of(x.drop_last(), slope, offset);
        assert(ps.push(predict_of(x.last(), slope, offset)) =~= predictions_of(x, slope, offset));
    }
}

/// Where it has a value, the checked error is the root of the mean squared
/// error.
pub proof fn lemma_rms_checked(actual: Seq<real>, predicted: Seq<real>)
    requires
        rms_checked(actual, predicted) is Ok,
    ensures
        rms_checked(actual, predicted) == Ok::<real, ArithError>(rms_of(actual, predicted)),
        ck(mean_squared_error_of(actual, predicted)) is Ok,
        actual.len() > 0,
{
    let t = Seq::new(
        shorter(actual.len(), predicted.len()),
        |i: int| squared_deviation_checked(predicted[i], actual[i]),
    );
    lemma_sum_checked_value(t, squared_residuals(actual, predicted));
}

/// Where it has a value, the checked quality figure is one minus the error
/// over the variance, and the variance is not zero.
pub proof fn lemma_rsquared_checked(y: Seq<real>, rms: real)
    requires
        rsquared_checked(y, rms) is Ok,
    ensures
        rsquared_checked(y, rms) == Ok::<real, ArithError>(rsquared_of(y, rms)),
        variance_of(y) != 0real,
{
    lemma_variance_checked(y);
}

/// The root of the mean squared difference between `predicted` and `actual`,
/// taken downwards to a multiple of one part in a thousand million.  The
/// differences are taken of the elements that have a partner; the divisor is
/// the number of actual values, and without any the error is undefined.
pub fn root_mean_squared_error(actual: &[Rational], predicted: &[Rational]) -> (r: Result<
    Rational,
    ArithError,
>)
    ensures
        lift(r) == rms_checked(reals(actual@), reals(predicted@)),
        r matches Ok(v) ==> {
            let mse = mean_squared_error_of(reals(actual@), reals(predicted@));
            let step = ratio(1, ROOT_RESOLUTION as int);
            &&& v@ == rms_of(reals(actual@), reals(predicted@))
            &&& v@ >= 0real
            &&& v@ * v@ <= mse
            &&& mse < (v@ + step) * (v@ + step)
        },
        actual@.len() == 0 ==> r == Err::<Rational, ArithError>(ArithError::DivisionByZero),
        actual@.len() > 0 ==> (r matches Err(e) ==> e == ArithError::Overflow),
{
    let length = actual.len();
    let pairs = if predicted.len() < length {
        predicted.len()
    } else {
        length
    };
    let ghost a = reals(actual@);
    let ghost p = reals(predicted@);
    let ghost terms = Seq::new(
        shorter(a.len(), p.len()),
        |i: int| squared_deviation_checked(p[i], a[i]),
    );
    let mut acc = Rational::zero();
    let mut i: usize = 0;
    while i < pairs
        invariant
            length == actual@.len(),
            pairs == shorter(actual@.len(), predicted@.len()),
            i <= pairs,
            a == reals(actual@),
            p == reals(predicted@),
            terms == Seq::new(
                shorter(a.len(), p.len()),
                |i: int| squared_deviation_checked(p[i], a[i]),
            ),
            sum_checked(terms.take(i as int)) == Ok::<real, ArithError>(acc@),
            acc@ >= 0real,
        decreases pairs - i,
    {
        proof {
            lemma_sum_checked_step(terms, i as int);
            lemma_sum_checked_prefix(terms, i + 1);
        }
        let d = match predicted[i].checked_sub(&actual[i]) {
            Ok(d) => d,
            Err(e) => {
                return Err(e);
            },
        };
        let q = match d.checked_mul(&d) {
            Ok(q) => q,
            Err(e) => {
                return Err(e);
            },
        };
        proof {
            assert(d@ * d@ >= 0real) by (nonlinear_arith);
        }
        match acc.checked_add(&q) {
            Ok(v) => {
                acc = v;
            },
            Err(e) => {
                return Err(e);
            },
        }
        i += 1;
    }
    proof {
        assert(terms.take(pairs as int) =~= terms);
    }
    let mse = match acc.div_count(length) {
        Ok(m) => m,
        Err(e) => {
            return Err(e);
        },
    };
    proof {
        assert(acc@ / (length as real) >= 0real) by (nonlinear_arith)
            requires
                acc@ >= 0real,
                length > 0,
        ;
        assert(rms_checked(a, p) == Ok::<real, ArithError>(root_floor(mse@)));
        lemma_sum_checked_value(terms, squared_residuals(a, p));
        lemma_rms_checked(a, p);
    }
    Ok(mse.root())
}

/// One minus `rms` over the variance of `y`: the figure that the calibration
/// reports as R squared.  Without variance in `y` it is undefined.
pub fn rsquared(y: &[Rational], rms: &Rational) -> (r: Result<Rational, ArithError>)
    ensures
        lift(r) == rsquared_checked(reals(y@), rms@),
        r matches Ok(v) ==> v@ == rsquared_of(reals(y@), rms@) && variance_of(reals(y@)) != 0real,
        r matches Err(e) ==> (e == ArithError::DivisionByZero <==> variance_checked(reals(y@))
            is Ok && constant(reals(y@))),
{
    proof {
        lemma_variance_zero(reals(y@));
        if variance_checked(reals(y@)) is Ok {
            lemma_variance_checked(reals(y@));
        }
    }
    let var = match variance(y) {
        Ok(v) => v,
        Err(e) => {
            return Err(e);
        },
    };
    let quotient = match rms.checked_div(&var) {
        Ok(q) => q,
        Err(e) => {
            return Err(e);
        },
    };
    let r = Rational::from_int(1).checked_sub(&quotient);
    proof {
        if r is Ok {
            lemma_rsquared_checked(reals(y@), rms@);
        }
    }
    r
}

/// How well the line `model` (slope, then offset) fits the points
/// `(x[i], y[i])`: the root-mean-square error of its predictions, then the
/// quality figure of [`rsquared`].  Without an `x` both are undefined.
pub fn evaluate(x: &[Rational], y: &[Rational], model: &[Rational; 2]) -> (r: Result<
    [Rational; 2],
    ArithError,
>)
    ensures
        lift_pair(r) == evaluate_checked(reals(x@), reals(y@), model[0]@, model[1]@),
        r matches Ok(q) ==> {
            let predicted = predictions_of(reals(x@), model[0]@, model[1]@);
            &&& q[0]@ == rms_of(reals(y@), predicted)
            &&& q[1]@ == rsquared_of(reals(y@), q[0]@)
            &&& x@.len() > 0
            &&& y@.len() > 0
            &&& variance_of(reals(y@)) != 0real
        },
        x@.len() == 0 ==> r == Err::<[Rational; 2], ArithError>(ArithError::DivisionByZero),
{
    let n = x.len();
    if n == 0 {
        return Err(ArithError::DivisionByZero);
    }
    let ghost xs = reals(x@);
    let mut y_predicted: Vec<Rational> = Vec::new();
    let mut i: usize = 0;
    proof {
        assert(xs.take(0) =~= Seq::empty());
        assert(reals(y_predicted@) =~= Seq::empty());
    }
    while i < n
        invariant
            n == x@.len(),
            i <= n,
            xs == reals(x@),
            predictions_checked(xs.take(i as int), model[0]@, model[1]@) == Ok::<
                Seq<real>,
                ArithError,
            >(reals(y_predicted@)),
        decreases n - i,
    {
        proof {
            assert(xs.take(i + 1).drop_last() =~= xs.take(i as int));
            lemma_predictions_checked_prefix(xs, model[0]@, model[1]@, i + 1);
        }
        match predict(&x[i], model) {
            Ok(v) => {
                proof {
                    assert(reals(y_predicted@).push(v@) =~= reals(y_predicted@.push(v)));
                }
                y_predicted.push(v);
            },
            Err(e) => {
                return Err(e);
            },
        }
        i += 1;
    }
    proof {
        assert(xs.take(n as int) =~= xs);
        lemma_predictions_checked(xs, model[0]@, model[1]@);
    }
    let rms = match root_mean_squared_error(y, y_predicted.as_slice()) {
        Ok(v) => v,
        Err(e) => {
            return Err(e);
        },
    };
    let rsq = match rsquared(y, &rms) {
        Ok(v) => v,
        Err(e) => {
            return Err(e);
        },
    };
    Ok([rms, rsq])
}

} // verus!
