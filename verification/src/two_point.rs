//! What holds of a line fitted to exactly two points: it passes through
//! both.
use crate::fit::{
    evaluate_checked, fit_checked, lemma_fit_checked, lemma_predictions_checked,
    lemma_rms_checked, lemma_rsquared_checked, mean_squared_error_of, offset_of, predict_checked,
    predict_of, predictions_of, rms_of, rsquared_of, slope_of, squared_residuals,
};
use crate::rational::{
    is_root_units, lemma_root_units_unique, ratio, root_floor, ArithError, ROOT_RESOLUTION,
};
use crate::stats::{
    covariance_of, cross_deviations, mean_of, squared_deviations, sum_of, variance_of,
};
use vstd::prelude::*;

verus! {

/// The sum of two numbers.
pub proof fn lemma_sum_of_two(s: Seq<real>)
    requires
        s.len() == 2,
    ensures
        sum_of(s) == s[0] + s[1],
{
    let u = s.drop_last();
    assert(u.len() == 1);
    assert(u.drop_last().len() == 0);
    assert(sum_of(u.drop_last()) == 0real);
    assert(sum_of(u) == sum_of(u.drop_last()) + u.last());
    assert(u.last() == s[0]);
    assert(s.last() == s[1]);
}

/// Mean, variance and covariance of two points.
pub proof fn lemma_two_point_moments(x: Seq<real>, y: Seq<real>)
    requires
        x.len() == 2,
        y.len() == 2,
    ensures
        mean_of(x) == (x[0] + x[1]) / 2real,
        mean_of(y) == (y[0] + y[1]) / 2real,
        variance_of(x) == (x[1] - x[0]) * (x[1] - x[0]) / 4real,
        covariance_of(x, y) == (x[1] - x[0]) * (y[1] - y[0]) / 4real,
{
    lemma_sum_of_two(x);
    lemma_sum_of_two(y);
    let mx = mean_of(x);
    let my = mean_of(y);
    lemma_sum_of_two(squared_deviations(x, mx));
    lemma_sum_of_two(cross_deviations(x, mx, y, my));
    let x0 = x[0];
    let x1 = x[1];
    let y0 = y[0];
    let y1 = y[1];
    assert(mx == (x0 + x1) / 2real);
    assert(my == (y0 + y1) / 2real);
    assert(((x0 - mx) * (x0 - mx) + (x1 - mx) * (x1 - mx)) / 2real == (x1 - x0) * (x1 - x0)
        / 4real) by (nonlinear_arith)
        requires
            mx == (x0 + x1) / 2real,
    ;
    assert(((x0 - mx) * (y0 - my) + (x1 - mx) * (y1 - my)) / 2real == (x1 - x0) * (y1 - y0)
        / 4real) by (nonlinear_arith)
        requires
            mx == (x0 + x1) / 2real,
            my == (y0 + y1) / 2real,
    ;
}

/// The least-squares line through two points with different `x` is the
/// straight line through them: its predictions at the two `x` are exactly
/// the two `y`.
pub proof fn lemma_two_point_line(x: Seq<real>, y: Seq<real>)
    requires
        x.len() == 2,
        y.len() == 2,
        x[0] != x[1],
    ensures
        variance_of(x) != 0real,
        slope_of(x, y) == (y[1] - y[0]) / (x[1] - x[0]),
        offset_of(x, y) == y[0] - slope_of(x, y) * x[0],
        predict_of(x[0], slope_of(x, y), offset_of(x, y)) == y[0],
        predict_of(x[1], slope_of(x, y), offset_of(x, y)) == y[1],
{
    lemma_two_point_moments(x, y);
    let x0 = x[0];
    let x1 = x[1];
    let y0 = y[0];
    let y1 = y[1];
    let var = variance_of(x);
    let cov = covariance_of(x, y);
    let mx = mean_of(x);
    let my = mean_of(y);
    let s = cov / var;
    let o = my - s * mx;
    assert(var != 0real) by (nonlinear_arith)
        requires
            var == (x1 - x0) * (x1 - x0) / 4real,
            x0 != x1,
    ;
    assert(s == (y1 - y0) / (x1 - x0)) by (nonlinear_arith)
        requires
            var == (x1 - x0) * (x1 - x0) / 4real,
            cov == (x1 - x0) * (y1 - y0) / 4real,
            s == cov / var,
            x0 != x1,
    ;
    assert(o == y0 - s * x0 && x0 * s + o == y0 && x1 * s + o == y1) by (nonlinear_arith)
        requires
            s == (y1 - y0) / (x1 - x0),
            mx == (x0 + x1) / 2real,
            my == (y0 + y1) / 2real,
            o == my - s * mx,
            x0 != x1,
    ;
}

/// A line fitted to two points and then asked for its value at one of them
/// answers with the other coordinate of that point, whenever both steps
/// have a value.
pub proof fn lemma_two_point_round_trip(x: Seq<real>, y: Seq<real>, i: int)
    requires
        x.len() == 2,
        y.len() == 2,
        0 <= i < 2,
        fit_checked(x, y) is Ok,
    ensures
        x[0] != x[1],
        ({
            let (slope, offset) = fit_checked(x, y)->Ok_0;
            predict_checked(x[i], slope, offset) matches Ok(v) ==> v == y[i]
        }),
{
    lemma_fit_checked(x, y);
    lemma_two_point_moments(x, y);
    if x[0] == x[1] {
        assert(variance_of(x) == 0real) by (nonlinear_arith)
            requires
                variance_of(x) == (x[1] - x[0]) * (x[1] - x[0]) / 4real,
                x[0] == x[1],
        ;
    }
    lemma_two_point_line(x, y);
}

/// The square root of zero is zero.
pub proof fn lemma_root_floor_zero()
    ensures
        root_floor(0real) == 0real,
{
    assert(is_root_units(0, 0real)) by (nonlinear_arith);
    let c = choose|c: int| is_root_units(c, 0real);
    lemma_root_units_unique(0, c, 0real);
    assert(ratio(0, ROOT_RESOLUTION as int) == 0real) by (nonlinear_arith);
}

/// A line that passes through both of two points has no error against
/// them, and its quality figure is one, whenever the figures have a value.
pub proof fn lemma_two_point_quality(x: Seq<real>, y: Seq<real>, slope: real, offset: real)
    requires
        x.len() == 2,
        y.len() == 2,
        predict_of(x[0], slope, offset) == y[0],
        predict_of(x[1], slope, offset) == y[1],
        evaluate_checked(x, y, slope, offset) is Ok,
    ensures
        evaluate_checked(x, y, slope, offset) == Ok::<(real, real), ArithError>((0real, 1real)),
{
    lemma_predictions_checked(x, slope, offset);
    let ps = predictions_of(x, slope, offset);
    assert(ps =~= y);
    lemma_rms_checked(y, ps);
    let res = squared_residuals(y, ps);
    lemma_sum_of_two(res);
    assert(res[0] == 0real) by (nonlinear_arith)
        requires
            res[0] == (ps[0] - y[0]) * (ps[0] - y[0]),
            ps[0] == y[0],
    ;
    assert(res[1] == 0real) by (nonlinear_arith)
        requires
            res[1] == (ps[1] - y[1]) * (ps[1] - y[1]),
            ps[1] == y[1],
    ;
    assert(mean_squared_error_of(y, ps) == 0real) by (nonlinear_arith)
        requires
            mean_squared_error_of(y, ps) == sum_of(res) / (2 as real),
            sum_of(res) == 0real,
    ;
    lemma_root_floor_zero();
    assert(rms_of(y, ps) == 0real);
    lemma_rsquared_checked(y, 0real);
    assert(rsquared_of(y, 0real) == 1real) by (nonlinear_arith)
        requires
            rsquared_of(y, 0real) == 1real - 0real / variance_of(y),
            variance_of(y) != 0real,
    ;
}

} // verus!
