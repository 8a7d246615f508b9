//! Inputs on which no step of a computation leaves the 64-bit range:
//! readings, temperatures and calibrations written with a limited number of
//! decimal places.
use crate::curve::{
    covers, from_hundredths, lemma_line_checked, lemma_segment_brackets, line_checked,
    ph10_hundredths, ph4_hundredths, segment, standard_temperatures,
};
use crate::fit::{
    evaluate_checked, fit_checked, lemma_fit_checked, offset_checked, offset_of, predict_checked,
    predict_of, predictions_checked, rms_checked, rsquared_checked, shorter, slope_of,
};
use crate::rational::{in_range, ratio, representable, ArithError};
use crate::routines::{ph_calibration_checked, reference_checked, reference_of};
use crate::stats::{
    covariance_checked, covariance_of, cross_deviation_checked, known, lemma_covariance_checked,
    lemma_mean_checked, lemma_sum_checked_step, lemma_variance_checked, mean_checked, mean_of,
    squared_deviation_checked, sum_checked, variance_checked, variance_of,
};
use crate::two_point::{lemma_root_floor_zero, lemma_two_point_line};
use vstd::prelude::*;

verus! {

/// `x` is a whole number of `scale`-ths, at most `limit` of them in
/// magnitude.
pub open spec fn scaled(x: real, scale: int, limit: int) -> bool {
    exists|n: int| #[trigger] ratio(n, scale) == x && -limit <= n <= limit
}

/// `x` is a whole number of `scale`-ths.
pub open spec fn on_grid(x: real, scale: int) -> bool {
    exists|n: int| #[trigger] ratio(n, scale) == x
}

/// A pH reading as a meter shows it: at most 100 in magnitude, with at most
/// six decimal places.
pub open spec fn is_reading(x: real) -> bool {
    scaled(x, 1_000_000, 100_000_000)
}

/// Every element is a pH reading.
pub open spec fn all_readings(s: Seq<real>) -> bool {
    forall|i: int| 0 <= i < s.len() ==> is_reading(#[trigger] s[i])
}

/// A temperature as a thermometer shows it: with at most three decimal
/// places.
pub open spec fn is_temperature(t: real) -> bool {
    on_grid(t, 1000)
}

/// The slope of a calibration as it is written down: at most 10 in
/// magnitude, with at most nine decimal places.
pub open spec fn is_slope(x: real) -> bool {
    scaled(x, 1_000_000_000, 10_000_000_000)
}

/// The offset of a calibration as it is written down: at most 1000 in
/// magnitude, with at most nine decimal places.
pub open spec fn is_offset(x: real) -> bool {
    scaled(x, 1_000_000_000, 1_000_000_000_000)
}

/// The number `n / d` can be held where `n` and `d` are within range.
pub proof fn lemma_fits(x: real, n: int, d: int)
    requires
        x == ratio(n, d),
        in_range(n, d),
    ensures
        representable(x),
{
}

/// A reading of at most 100 with six decimal places is corrected without
/// overflow by a slope of at most 10 and an offset of at most 1000 with nine
/// decimal places.
pub proof fn lemma_predict_fits(x: real, slope: real, offset: real)
    requires
        is_reading(x),
        is_slope(slope),
        is_offset(offset),
    ensures
        predict_checked(x, slope, offset) == Ok::<real, ArithError>(predict_of(x, slope, offset)),
{
    let n = choose|n: int| #[trigger] ratio(n, 1_000_000) == x && -100_000_000 <= n <= 100_000_000;
    let s = choose|s: int| #[trigger]
        ratio(s, 1_000_000_000) == slope && -10_000_000_000 <= s <= 10_000_000_000;
    let o = choose|o: int| #[trigger]
        ratio(o, 1_000_000_000) == offset && -1_000_000_000_000 <= o <= 1_000_000_000_000;
    assert(-1_000_000_000_000_000_000 <= n * s <= 1_000_000_000_000_000_000) by (nonlinear_arith)
        requires
            -100_000_000 <= n <= 100_000_000,
            -10_000_000_000 <= s <= 10_000_000_000,
    ;
    assert(x * slope == ratio(n * s, 1_000_000_000_000_000)) by (nonlinear_arith)
        requires
            x == ratio(n, 1_000_000),
            slope == ratio(s, 1_000_000_000),
    ;
    lemma_fits(x * slope, n * s, 1_000_000_000_000_000);
    assert(x * slope + offset == ratio(n * s + o * 1_000_000, 1_000_000_000_000_000))
        by (nonlinear_arith)
        requires
            x * slope == ratio(n * s, 1_000_000_000_000_000),
            offset == ratio(o, 1_000_000_000),
    ;
    lemma_fits(x * slope + offset, n * s + o * 1_000_000, 1_000_000_000_000_000);
}

/// The sum of up to a thousand million readings is found without overflow;
/// it is the returned number of millionths.
pub proof fn lemma_sum_of_readings_fits(s: Seq<real>) -> (n: int)
    requires
        s.len() <= 1_000_000_000,
        all_readings(s),
    ensures
        sum_checked(known(s)) == Ok::<real, ArithError>(ratio(n, 1_000_000)),
        -100_000_000 * s.len() <= n <= 100_000_000 * s.len(),
    decreases s.len(),
{
    if s.len() == 0 {
        assert(0real == ratio(0, 1_000_000)) by (nonlinear_arith);
        0
    } else {
        let u = s.drop_last();
        assert(all_readings(u)) by {
            assert forall|i: int| 0 <= i < u.len() implies is_reading(#[trigger] u[i]) by {
                assert(u[i] == s[i]);
            }
        }
        let m = lemma_sum_of_readings_fits(u);
        assert(known(s).drop_last() =~= known(u));
        assert(known(s).last() == Ok::<real, ArithError>(s.last()));
        assert(is_reading(s[s.len() - 1]));
        let a = choose|a: int| #[trigger]
            ratio(a, 1_000_000) == s.last() && -100_000_000 <= a <= 100_000_000;
        assert(ratio(m, 1_000_000) + s.last() == ratio(m + a, 1_000_000)) by (nonlinear_arith)
            requires
                s.last() == ratio(a, 1_000_000),
        ;
        lemma_fits(ratio(m, 1_000_000) + s.last(), m + a, 1_000_000);
        m + a
    }
}

/// The mean of up to a thousand million readings is found without overflow.
pub proof fn lemma_mean_of_readings_fits(s: Seq<real>)
    requires
        s.len() <= 1_000_000_000,
        all_readings(s),
    ensures
        mean_checked(s) == Ok::<real, ArithError>(mean_of(s)),
{
    if s.len() > 0 {
        let n = lemma_sum_of_readings_fits(s);
        let len = s.len() as int;
        assert(ratio(n, 1_000_000) / (len as real) == ratio(n, 1_000_000 * len) && 0 < 1_000_000
            * len <= 1_000_000_000_000_000) by (nonlinear_arith)
            requires
                0 < len <= 1_000_000_000,
        ;
        lemma_fits(ratio(n, 1_000_000) / (len as real), n, 1_000_000 * len);
        lemma_mean_checked(s);
    }
}

/// Between two neighbours of a table of hundredths on the five-degree grid,
/// a temperature with three decimal places has a value in half-millionths,
/// and every step towards it can be held.
pub proof fn lemma_standard_line_fits(h0: int, h1: int, i: int, c: int)
    requires
        0 <= i < 19,
        5000 * i <= c <= 5000 * (i + 1),
        -10_000 <= h0 <= 10_000,
        -10_000 <= h1 <= 10_000,
    ensures
        line_checked((5 * i) as real, ratio(h0, 100), (5 * (i + 1)) as real, ratio(h1, 100), ratio(c, 1000))
            == Ok::<real, ArithError>(ratio(5000 * h0 + (h1 - h0) * (c - 5000 * i), 500_000)),
{
    let t0 = (5 * i) as real;
    let t1 = (5 * (i + 1)) as real;
    let v0 = ratio(h0, 100);
    let v1 = ratio(h1, 100);
    let x = ratio(c, 1000);
    let k = c - 5000 * i;
    assert(x - t0 == ratio(k, 1000)) by (nonlinear_arith)
        requires
            x == ratio(c, 1000),
            t0 == (5 * i) as real,
            k == c - 5000 * i,
    ;
    lemma_fits(x - t0, k, 1000);
    assert(t1 - t0 == ratio(5, 1)) by (nonlinear_arith)
        requires
            t0 == (5 * i) as real,
            t1 == (5 * (i + 1)) as real,
    ;
    lemma_fits(t1 - t0, 5, 1);
    assert(t1 - t0 != 0real && (x - t0) / (t1 - t0) == ratio(k, 5000)) by (nonlinear_arith)
        requires
            x - t0 == ratio(k, 1000),
            t1 - t0 == ratio(5, 1),
    ;
    lemma_fits((x - t0) / (t1 - t0), k, 5000);
    assert(v1 - v0 == ratio(h1 - h0, 100)) by (nonlinear_arith)
        requires
            v0 == ratio(h0, 100),
            v1 == ratio(h1, 100),
    ;
    lemma_fits(v1 - v0, h1 - h0, 100);
    let part = (x - t0) / (t1 - t0);
    let rise = v1 - v0;
    assert(-100_000_000 <= (h1 - h0) * k <= 100_000_000) by (nonlinear_arith)
        requires
            -20_000 <= h1 - h0 <= 20_000,
            0 <= k <= 5000,
    ;
    assert(rise * part == ratio((h1 - h0) * k, 500_000)) by (nonlinear_arith)
        requires
            rise == ratio(h1 - h0, 100),
            part == ratio(k, 5000),
    ;
    lemma_fits(rise * part, (h1 - h0) * k, 500_000);
    assert(v0 + rise * part == ratio(5000 * h0 + (h1 - h0) * k, 500_000)) by (nonlinear_arith)
        requires
            v0 == ratio(h0, 100),
            rise * part == ratio((h1 - h0) * k, 500_000),
    ;
    lemma_fits(v0 + rise * part, 5000 * h0 + (h1 - h0) * k, 500_000);
}

/// The reference pH of a buffer solution at a temperature with three
/// decimal places is found without overflow, and it is a number of
/// half-millionths within the bounds of the table.
pub proof fn lemma_reference_fits(table: Seq<i32>, nominal: int, lo: int, hi: int, c: int) -> (p:
    int)
    requires
        table.len() == 20,
        -10_000 <= lo <= hi <= 10_000,
        lo <= nominal <= hi,
        forall|i: int| 0 <= i < 20 ==> lo <= #[trigger] table[i] <= hi,
    ensures
        reference_checked(table, ratio(nominal, 100), ratio(c, 1000)) == Ok::<real, ArithError>(
            ratio(p, 500_000),
        ),
        reference_of(table, ratio(nominal, 100), ratio(c, 1000)) == ratio(p, 500_000),
        5000 * lo <= p <= 5000 * hi,
{
    let t = standard_temperatures();
    let v = from_hundredths(table);
    let x = ratio(c, 1000);
    assert(ratio(nominal, 100) == ratio(5000 * nominal, 500_000)) by (nonlinear_arith);
    if !covers(t, x) {
        5000 * nominal
    } else {
        lemma_segment_brackets(t, x);
        let i = segment(t, x);
        assert(t[i] == (5 * i) as real);
        assert(v[i] == ratio(table[i] as int, 100));
        if t[i] == x {
            assert(ratio(table[i] as int, 100) == ratio(5000 * table[i], 500_000))
                by (nonlinear_arith);
            5000 * table[i]
        } else {
            assert(x <= t[19]);
            assert(i < 19);
            assert(t[i + 1] == (5 * (i + 1)) as real);
            assert(v[i + 1] == ratio(table[i + 1] as int, 100));
            assert(5000 * i <= c <= 5000 * (i + 1)) by (nonlinear_arith)
                requires
                    ((5 * i) as real) <= ratio(c, 1000),
                    ratio(c, 1000) < ((5 * (i + 1)) as real),
            ;
            let h0 = table[i] as int;
            let h1 = table[i + 1] as int;
            lemma_standard_line_fits(h0, h1, i, c);
            lemma_line_checked(t[i], v[i], t[i + 1], v[i + 1], x);
            let k = c - 5000 * i;
            assert(5000 * lo <= 5000 * h0 + (h1 - h0) * k <= 5000 * hi) by (nonlinear_arith)
                requires
                    0 <= k <= 5000,
                    lo <= h0 <= hi,
                    lo <= h1 <= hi,
            ;
            5000 * h0 + (h1 - h0) * k
        }
    }
}

/// The pH 4.01 buffer solution stays between pH 4.00 and pH 4.20.
pub proof fn lemma_ph4_bounds()
    ensures
        ph4_hundredths().len() == 20,
        forall|i: int| 0 <= i < 20 ==> 400 <= #[trigger] ph4_hundredths()[i] <= 420,
{
    let t = ph4_hundredths();
    assert(400 <= t[0] <= 420 && 400 <= t[1] <= 420 && 400 <= t[2] <= 420 && 400 <= t[3] <= 420);
    assert(400 <= t[4] <= 420 && 400 <= t[5] <= 420 && 400 <= t[6] <= 420 && 400 <= t[7] <= 420);
    assert(400 <= t[8] <= 420 && 400 <= t[9] <= 420 && 400 <= t[10] <= 420 && 400 <= t[11] <= 420);
    assert(400 <= t[12] <= 420 && 400 <= t[13] <= 420 && 400 <= t[14] <= 420 && 400 <= t[15]
        <= 420);
    assert(400 <= t[16] <= 420 && 400 <= t[17] <= 420 && 400 <= t[18] <= 420 && 400 <= t[19]
        <= 420);
}

/// The pH 10.01 buffer solution stays between pH 9.73 and pH 10.32.
pub proof fn lemma_ph10_bounds()
    ensures
        ph10_hundredths().len() == 20,
        forall|i: int| 0 <= i < 20 ==> 973 <= #[trigger] ph10_hundredths()[i] <= 1032,
{
    let t = ph10_hundredths();
    assert(973 <= t[0] <= 1032 && 973 <= t[1] <= 1032 && 973 <= t[2] <= 1032 && 973 <= t[3]
        <= 1032);
    assert(973 <= t[4] <= 1032 && 973 <= t[5] <= 1032 && 973 <= t[6] <= 1032 && 973 <= t[7]
        <= 1032);
    assert(973 <= t[8] <= 1032 && 973 <= t[9] <= 1032 && 973 <= t[10] <= 1032 && 973 <= t[11]
        <= 1032);
    assert(973 <= t[12] <= 1032 && 973 <= t[13] <= 1032 && 973 <= t[14] <= 1032 && 973 <= t[15]
        <= 1032);
    assert(973 <= t[16] <= 1032 && 973 <= t[17] <= 1032 && 973 <= t[18] <= 1032 && 973 <= t[19]
        <= 1032);
}

/// Two numbers over one denominator, both of moderate size: the parts of
/// what the lemmas on two points take.
pub open spec fn pair_over(x: Seq<real>, a: int, b: int, m: int) -> bool {
    &&& x.len() == 2
    &&& x[0] == ratio(a, m)
    &&& x[1] == ratio(b, m)
    &&& 0 < m <= 1_000_000
    &&& -100_000_000 <= a <= 100_000_000
    &&& -100_000_000 <= b <= 100_000_000
}

/// The mean of two such numbers is found without overflow.
pub proof fn lemma_mean_fits(x: Seq<real>, a: int, b: int, m: int)
    requires
        pair_over(x, a, b, m),
    ensures
        mean_checked(x) == Ok::<real, ArithError>(ratio(a + b, 2 * m)),
        mean_of(x) == ratio(a + b, 2 * m),
{
    let t = known(x);
    lemma_sum_checked_step(t, 0);
    lemma_sum_checked_step(t, 1);
    assert(t.take(0) =~= Seq::empty());
    assert(t.take(2) =~= t);
    assert(0real + x[0] == ratio(a, m));
    lemma_fits(0real + x[0], a, m);
    assert(x[0] + x[1] == ratio(a + b, m)) by (nonlinear_arith)
        requires
            x[0] == ratio(a, m),
            x[1] == ratio(b, m),
            m > 0,
    ;
    lemma_fits(x[0] + x[1], a + b, m);
    assert((x[0] + x[1]) / (2 as real) == ratio(a + b, 2 * m)) by (nonlinear_arith)
        requires
            x[0] + x[1] == ratio(a + b, m),
            m > 0,
    ;
    lemma_fits((x[0] + x[1]) / (2 as real), a + b, 2 * m);
    lemma_mean_checked(x);
}

/// The sum of two outcomes that succeeded, where both partial sums can be
/// held.
pub proof fn lemma_sum_checked_two(t: Seq<Result<real, ArithError>>, v0: real, v1: real)
    requires
        t.len() == 2,
        t[0] == Ok::<real, ArithError>(v0),
        t[1] == Ok::<real, ArithError>(v1),
        representable(v0),
        representable(v0 + v1),
    ensures
        sum_checked(t) == Ok::<real, ArithError>(v0 + v1),
{
    lemma_sum_checked_step(t, 0);
    lemma_sum_checked_step(t, 1);
    assert(t.take(0) =~= Seq::empty());
    assert(t.take(2) =~= t);
    assert(0real + v0 == v0);
}

/// The variance of two such numbers is found without overflow.
pub proof fn lemma_variance_fits(x: Seq<real>, a: int, b: int, m: int)
    requires
        pair_over(x, a, b, m),
    ensures
        variance_checked(x) == Ok::<real, ArithError>(ratio((a - b) * (a - b), 4 * m * m)),
        variance_of(x) == ratio((a - b) * (a - b), 4 * m * m),
        4 * m * m > 0,
        variance_of(x) == 0real <==> a == b,
{
    lemma_mean_fits(x, a, b, m);
    let mx = ratio(a + b, 2 * m);
    let t = Seq::new(x.len(), |i: int| squared_deviation_checked(x[i], mx));
    let d = a - b;
    let sq = d * d;
    let mm = 4 * m * m;
    assert(0 <= sq <= 40_000_000_000_000_000 && 0 < mm <= 4_000_000_000_000 && 0 < 2 * m * m
        <= 2_000_000_000_000) by (nonlinear_arith)
        requires
            -200_000_000 <= d <= 200_000_000,
            sq == d * d,
            mm == 4 * m * m,
            0 < m <= 1_000_000,
    ;
    assert(x[0] - mx == ratio(d, 2 * m) && x[1] - mx == ratio(-d, 2 * m)) by (nonlinear_arith)
        requires
            x[0] == ratio(a, m),
            x[1] == ratio(b, m),
            mx == ratio(a + b, 2 * m),
            d == a - b,
            m > 0,
    ;
    lemma_fits(x[0] - mx, d, 2 * m);
    lemma_fits(x[1] - mx, -d, 2 * m);
    let v = ratio(sq, mm);
    assert((x[0] - mx) * (x[0] - mx) == v && (x[1] - mx) * (x[1] - mx) == v) by (nonlinear_arith)
        requires
            x[0] - mx == ratio(d, 2 * m),
            x[1] - mx == ratio(-d, 2 * m),
            v == ratio(sq, mm),
            sq == d * d,
            mm == 4 * m * m,
            m > 0,
    ;
    lemma_fits(v, sq, mm);
    assert(t[0] == Ok::<real, ArithError>(v));
    assert(t[1] == Ok::<real, ArithError>(v));
    assert(v + v == ratio(sq, 2 * m * m)) by (nonlinear_arith)
        requires
            v == ratio(sq, mm),
            mm == 4 * m * m,
            m > 0,
    ;
    lemma_fits(v + v, sq, 2 * m * m);
    lemma_sum_checked_two(t, v, v);
    assert((v + v) / (2 as real) == v) by (nonlinear_arith);
    assert(variance_checked(x) == Ok::<real, ArithError>(v));
    lemma_variance_checked(x);
    assert(v == 0real <==> a == b) by (nonlinear_arith)
        requires
            v == ratio(sq, mm),
            sq == d * d,
            d == a - b,
            mm > 0,
    ;
}

/// The covariance of two such pairs is found without overflow.
pub proof fn lemma_covariance_fits(
    x: Seq<real>,
    y: Seq<real>,
    a: int,
    b: int,
    m: int,
    p: int,
    q: int,
    e: int,
)
    requires
        pair_over(x, a, b, m),
        pair_over(y, p, q, e),
    ensures
        covariance_checked(x, y) == Ok::<real, ArithError>(
            ratio((a - b) * (p - q), 4 * m * e),
        ),
        covariance_of(x, y) == ratio((a - b) * (p - q), 4 * m * e),
        4 * m * e > 0,
{
    lemma_mean_fits(x, a, b, m);
    lemma_mean_fits(y, p, q, e);
    let mx = ratio(a + b, 2 * m);
    let my = ratio(p + q, 2 * e);
    let t = Seq::new(x.len(), |i: int| cross_deviation_checked(x[i], mx, y[i], my));
    let d = a - b;
    let g = p - q;
    let n = d * g;
    let me = 4 * m * e;
    assert(-40_000_000_000_000_000 <= n <= 40_000_000_000_000_000 && 0 < me
        <= 4_000_000_000_000 && 0 < 2 * m * e <= 2_000_000_000_000) by (nonlinear_arith)
        requires
            -200_000_000 <= d <= 200_000_000,
            -200_000_000 <= g <= 200_000_000,
            n == d * g,
            me == 4 * m * e,
            0 < m <= 1_000_000,
            0 < e <= 1_000_000,
    ;
    assert(x[0] - mx == ratio(d, 2 * m) && x[1] - mx == ratio(-d, 2 * m)) by (nonlinear_arith)
        requires
            x[0] == ratio(a, m),
            x[1] == ratio(b, m),
            mx == ratio(a + b, 2 * m),
            d == a - b,
            m > 0,
    ;
    assert(y[0] - my == ratio(g, 2 * e) && y[1] - my == ratio(-g, 2 * e)) by (nonlinear_arith)
        requires
            y[0] == ratio(p, e),
            y[1] == ratio(q, e),
            my == ratio(p + q, 2 * e),
            g == p - q,
            e > 0,
    ;
    lemma_fits(x[0] - mx, d, 2 * m);
    lemma_fits(x[1] - mx, -d, 2 * m);
    lemma_fits(y[0] - my, g, 2 * e);
    lemma_fits(y[1] - my, -g, 2 * e);
    let v = ratio(n, me);
    assert((x[0] - mx) * (y[0] - my) == v && (x[1] - mx) * (y[1] - my) == v) by (nonlinear_arith)
        requires
            x[0] - mx == ratio(d, 2 * m),
            x[1] - mx == ratio(-d, 2 * m),
            y[0] - my == ratio(g, 2 * e),
            y[1] - my == ratio(-g, 2 * e),
            v == ratio(n, me),
            n == d * g,
            me == 4 * m * e,
            m > 0,
            e > 0,
    ;
    lemma_fits(v, n, me);
    assert(t[0] == Ok::<real, ArithError>(v));
    assert(t[1] == Ok::<real, ArithError>(v));
    assert(v + v == ratio(n, 2 * m * e)) by (nonlinear_arith)
        requires
            v == ratio(n, me),
            me == 4 * m * e,
            m > 0,
            e > 0,
    ;
    lemma_fits(v + v, n, 2 * m * e);
    lemma_sum_checked_two(t, v, v);
    assert((v + v) / (2 as real) == v) by (nonlinear_arith);
    assert(covariance_checked(x, y) == Ok::<real, ArithError>(v));
    lemma_covariance_checked(x, y);
}

/// The line through two such points is found without overflow where their
/// `x` differ, and is undefined where they are equal.  The slope is then
/// `gs * m` over `e * w` for the two numbers that are returned: `w` is the
/// distance of the two `x` in steps, `gs` that of the two `y`, with the sign
/// of the slope.
pub proof fn lemma_fit_fits(
    x: Seq<real>,
    y: Seq<real>,
    a: int,
    b: int,
    m: int,
    p: int,
    q: int,
    e: int,
) -> (r: (int, int))
    requires
        pair_over(x, a, b, m),
        pair_over(y, p, q, e),
    ensures
        a == b ==> fit_checked(x, y) == Err::<(real, real), ArithError>(
            ArithError::DivisionByZero,
        ),
        a != b ==> fit_checked(x, y) == Ok::<(real, real), ArithError>(
            (slope_of(x, y), offset_of(x, y)),
        ),
        a != b ==> slope_of(x, y) == ratio(r.0 * m, e * r.1),
        0 < r.1 <= 200_000_000,
        -200_000_000 <= r.0 <= 200_000_000,
        0 < e * r.1 <= 200_000_000_000_000,
{
    lemma_covariance_fits(x, y, a, b, m, p, q, e);
    lemma_variance_fits(x, a, b, m);
    lemma_mean_fits(x, a, b, m);
    lemma_mean_fits(y, p, q, e);
    let d = a - b;
    let g = p - q;
    let w = if d > 0 {
        d
    } else if d < 0 {
        -d
    } else {
        1
    };
    let gs = if d >= 0 {
        g
    } else {
        -g
    };
    assert(0 < e * w <= 200_000_000_000_000) by (nonlinear_arith)
        requires
            0 < w <= 200_000_000,
            0 < e <= 1_000_000,
    ;
    if a != b {
        let cov = covariance_of(x, y);
        let var = variance_of(x);
        let mx = mean_of(x);
        let my = mean_of(y);
        let slope = cov / var;
        assert(d * g == w * gs && d * d == w * w) by (nonlinear_arith)
            requires
                w == if d > 0 {
                    d
                } else {
                    -d
                },
                gs == if d >= 0 {
                    g
                } else {
                    -g
                },
        ;
        assert(-200_000_000_000_000 <= gs * m <= 200_000_000_000_000) by (nonlinear_arith)
            requires
                -200_000_000 <= gs <= 200_000_000,
                0 < m <= 1_000_000,
        ;
        assert(var != 0real && slope == ratio(gs * m, e * w)) by (nonlinear_arith)
            requires
                slope == cov / var,
                cov == ratio(w * gs, 4 * m * e),
                var == ratio(w * w, 4 * m * m),
                w > 0,
                m > 0,
                e > 0,
        ;
        lemma_fits(slope, gs * m, e * w);
        let n1 = gs * (a + b);
        let d1 = 2 * e * w;
        assert(-40_000_000_000_000_000 <= n1 <= 40_000_000_000_000_000 && 0 < d1
            <= 400_000_000_000_000) by (nonlinear_arith)
            requires
                n1 == gs * (a + b),
                d1 == 2 * e * w,
                -200_000_000 <= gs <= 200_000_000,
                -200_000_000 <= a + b <= 200_000_000,
                0 < w <= 200_000_000,
                0 < e <= 1_000_000,
        ;
        assert(slope * mx == ratio(n1, d1)) by (nonlinear_arith)
            requires
                slope == ratio(gs * m, e * w),
                mx == ratio(a + b, 2 * m),
                n1 == gs * (a + b),
                d1 == 2 * e * w,
                w > 0,
                m > 0,
                e > 0,
        ;
        lemma_fits(slope * mx, n1, d1);
        let n2 = (p + q) * w - n1;
        assert(-80_000_000_000_000_000 <= n2 <= 80_000_000_000_000_000) by (nonlinear_arith)
            requires
                n2 == (p + q) * w - n1,
                -40_000_000_000_000_000 <= n1 <= 40_000_000_000_000_000,
                -200_000_000 <= p + q <= 200_000_000,
                0 < w <= 200_000_000,
        ;
        assert(my - slope * mx == ratio(n2, d1)) by (nonlinear_arith)
            requires
                slope * mx == ratio(n1, d1),
                my == ratio(p + q, 2 * e),
                n2 == (p + q) * w - n1,
                d1 == 2 * e * w,
                w > 0,
                e > 0,
        ;
        lemma_fits(my - slope * mx, n2, d1);
        assert(offset_checked(x, y, slope) == Ok::<real, ArithError>(my - slope * mx));
        assert(fit_checked(x, y) is Ok);
        lemma_fit_checked(x, y);
    }
    (gs, w)
}

/// A number over a denominator, both of moderate size, can be held.
pub proof fn lemma_pair_fits(x: Seq<real>, a: int, b: int, m: int)
    requires
        pair_over(x, a, b, m),
    ensures
        representable(x[0]),
        representable(x[1]),
{
    lemma_fits(x[0], a, m);
    lemma_fits(x[1], b, m);
}

/// The line through two such points is judged without overflow where
/// neither their `x` nor their `y` are equal: it has no error, and its
/// quality figure is one.
pub proof fn lemma_evaluate_fits(
    x: Seq<real>,
    y: Seq<real>,
    a: int,
    b: int,
    m: int,
    p: int,
    q: int,
    e: int,
)
    requires
        pair_over(x, a, b, m),
        pair_over(y, p, q, e),
        a != b,
        p != q,
    ensures
        evaluate_checked(x, y, slope_of(x, y), offset_of(x, y)) == Ok::<(real, real), ArithError>(
            (0real, 1real),
        ),
{
    let slope = slope_of(x, y);
    let offset = offset_of(x, y);
    let (gs, w) = lemma_fit_fits(x, y, a, b, m, p, q, e);
    assert(x[0] != x[1]) by (nonlinear_arith)
        requires
            x[0] == ratio(a, m),
            x[1] == ratio(b, m),
            a != b,
            m > 0,
    ;
    lemma_two_point_line(x, y);
    lemma_pair_fits(y, p, q, e);
    // The two predictions.
    assert(-20_000_000_000_000_000 <= a * gs <= 20_000_000_000_000_000 && -20_000_000_000_000_000
        <= b * gs <= 20_000_000_000_000_000) by (nonlinear_arith)
        requires
            -100_000_000 <= a <= 100_000_000,
            -100_000_000 <= b <= 100_000_000,
            -200_000_000 <= gs <= 200_000_000,
    ;
    assert(x[0] * slope == ratio(a * gs, e * w) && x[1] * slope == ratio(b * gs, e * w))
        by (nonlinear_arith)
        requires
            x[0] == ratio(a, m),
            x[1] == ratio(b, m),
            slope == ratio(gs * m, e * w),
            m > 0,
            e * w > 0,
    ;
    lemma_fits(x[0] * slope, a * gs, e * w);
    lemma_fits(x[1] * slope, b * gs, e * w);
    assert(predict_checked(x[0], slope, offset) == Ok::<real, ArithError>(y[0]));
    assert(predict_checked(x[1], slope, offset) == Ok::<real, ArithError>(y[1]));
    let u = x.drop_last();
    assert(u.len() == 1 && u.last() == x[0] && u.drop_last().len() == 0);
    assert(predictions_checked(u.drop_last(), slope, offset) == Ok::<Seq<real>, ArithError>(
        Seq::empty(),
    ));
    assert(predictions_checked(u, slope, offset) == Ok::<Seq<real>, ArithError>(
        Seq::<real>::empty().push(y[0]),
    ));
    assert(x.last() == x[1]);
    assert(Seq::<real>::empty().push(y[0]).push(y[1]) =~= y);
    assert(predictions_checked(x, slope, offset) == Ok::<Seq<real>, ArithError>(y));
    // No error against the points themselves.
    let t = Seq::new(shorter(y.len(), y.len()), |i: int| squared_deviation_checked(y[i], y[i]));
    assert(0real == ratio(0, 1) && 1real - 0real == ratio(1, 1)) by (nonlinear_arith);
    lemma_fits(0real, 0, 1);
    assert(0real * 0real == 0real) by (nonlinear_arith);
    assert(t[0] == Ok::<real, ArithError>(0real));
    assert(t[1] == Ok::<real, ArithError>(0real));
    lemma_sum_checked_two(t, 0real, 0real);
    assert(0real / (2 as real) == 0real) by (nonlinear_arith);
    lemma_root_floor_zero();
    assert(rms_checked(y, y) == Ok::<real, ArithError>(0real));
    // The quality figure.
    lemma_variance_fits(y, p, q, e);
    let var = variance_of(y);
    assert(0real / var == 0real) by (nonlinear_arith)
        requires
            var != 0real,
    ;
    lemma_fits(1real - 0real, 1, 1);
    assert(rsquared_checked(y, 0real) == Ok::<real, ArithError>(1real));
}

/// Two readings of at most 100 with six decimal places, taken at a
/// temperature with three decimal places, always have a calibration, unless
/// they are equal: no step of the computation overflows, and the only
/// failure is the undefined line through two equal readings.
pub proof fn lemma_calibration_fits(ph4: real, ph10: real, t: real)
    requires
        is_reading(ph4),
        is_reading(ph10),
        is_temperature(t),
    ensures
        ph4 != ph10 ==> ph_calibration_checked(ph4, ph10, t) is Ok,
        ph4 == ph10 ==> ph_calibration_checked(ph4, ph10, t) == Err::<
            (real, real, Option<real>, Option<real>),
            ArithError,
        >(ArithError::DivisionByZero),
{
    let a = choose|n: int| #[trigger]
        ratio(n, 1_000_000) == ph4 && -100_000_000 <= n <= 100_000_000;
    let b = choose|n: int| #[trigger]
        ratio(n, 1_000_000) == ph10 && -100_000_000 <= n <= 100_000_000;
    let c = choose|n: int| #[trigger] ratio(n, 1000) == t;
    lemma_ph4_bounds();
    lemma_ph10_bounds();
    let p = lemma_reference_fits(ph4_hundredths(), 401, 400, 420, c);
    let q = lemma_reference_fits(ph10_hundredths(), 1001, 973, 1032, c);
    let x = seq![ph4, ph10];
    let y = seq![ratio(p, 500_000), ratio(q, 500_000)];
    assert(pair_over(x, a, b, 1_000_000));
    assert(pair_over(y, p, q, 500_000));
    assert(ph4 == ph10 <==> a == b) by (nonlinear_arith)
        requires
            ph4 == ratio(a, 1_000_000),
            ph10 == ratio(b, 1_000_000),
    ;
    let gw = lemma_fit_fits(x, y, a, b, 1_000_000, p, q, 500_000);
    if a != b {
        lemma_evaluate_fits(x, y, a, b, 1_000_000, p, q, 500_000);
    }
}

} // verus!
