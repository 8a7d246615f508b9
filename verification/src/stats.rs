//! Mean, population variance and population covariance of sample sequences.
use crate::domain::{all_readings, lemma_mean_of_readings_fits};
use crate::rational::{ck, lemma_view_representable, lift, ArithError, Rational};
use vstd::prelude::*;

verus! {

/// The numbers that a sequence of fractions stands for.
pub open spec fn reals(s: Seq<Rational>) -> Seq<real> {
    Seq::new(s.len(), |i: int| s[i]@)
}

/// The sum of a sequence of numbers.
pub open spec fn sum_of(s: Seq<real>) -> real
    decreases s.len(),
{
    if s.len() == 0 {
        0real
    } else {
        sum_of(s.drop_last()) + s.last()
    }
}

/// The arithmetic mean; zero for the empty sequence.
pub open spec fn mean_of(s: Seq<real>) -> real {
    if s.len() == 0 {
        0real
    } else {
        sum_of(s) / (s.len() as real)
    }
}

/// The squared distance of each element from `m`.
pub open spec fn squared_deviations(s: Seq<real>, m: real) -> Seq<real> {
    Seq::new(s.len(), |i: int| (s[i] - m) * (s[i] - m))
}

/// For each index, the product of the distances of `x` and `y` from `mx` and
/// `my`.
pub open spec fn cross_deviations(x: Seq<real>, mx: real, y: Seq<real>, my: real) -> Seq<real> {
    Seq::new(x.len(), |i: int| (x[i] - mx) * (y[i] - my))
}

/// The population variance: the mean squared distance from the mean; zero
/// for the empty sequence.
pub open spec fn variance_of(s: Seq<real>) -> real {
    if s.len() == 0 {
        0real
    } else {
        sum_of(squared_deviations(s, mean_of(s))) / (s.len() as real)
    }
}

/// The population covariance of two sequences of one length; zero for empty
/// sequences.
pub open spec fn covariance_of(x: Seq<real>, y: Seq<real>) -> real {
    if x.len() == 0 {
        0real
    } else {
        sum_of(cross_deviations(x, mean_of(x), y, mean_of(y))) / (x.len() as real)
    }
}

/// The sum of a sequence of outcomes, added from the left one step at a
/// time: the first failure among the terms and the partial sums decides.
pub open spec fn sum_checked(t: Seq<Result<real, ArithError>>) -> Result<real, ArithError>
    decreases t.len(),
{
    if t.len() == 0 {
        Ok(0real)
    } else {
        match sum_checked(t.drop_last()) {
            Err(e) => Err(e),
            Ok(a) => match t.last() {
                Err(e) => Err(e),
                Ok(v) => ck(a + v),
            },
        }
    }
}

/// Each number as an outcome that succeeded.
pub open spec fn known(s: Seq<real>) -> Seq<Result<real, ArithError>> {
    Seq::new(s.len(), |i: int| Ok(s[i]))
}

/// `(x - m)^2`, one step at a time.
pub open spec fn squared_deviation_checked(x: real, m: real) -> Result<real, ArithError> {
    match ck(x - m) {
        Err(e) => Err(e),
        Ok(d) => ck(d * d),
    }
}

/// `(x - mx) * (y - my)`, one step at a time.
pub open spec fn cross_deviation_checked(x: real, mx: real, y: real, my: real) -> Result<
    real,
    ArithError,
> {
    match ck(x - mx) {
        Err(e) => Err(e),
        Ok(dx) => match ck(y - my) {
            Err(e) => Err(e),
            Ok(dy) => ck(dx * dy),
        },
    }
}

/// The mean as [`mean`] computes it: the sum from the left, then one
/// division by the length.
pub open spec fn mean_checked(s: Seq<real>) -> Result<real, ArithError> {
    if s.len() == 0 {
        Ok(0real)
    } else {
        match sum_checked(known(s)) {
            Err(e) => Err(e),
            Ok(t) => ck(t / (s.len() as real)),
        }
    }
}

/// The variance as [`variance`] computes it: the mean, the squared
/// distances summed from the left, then one division by the length.
pub open spec fn variance_checked(s: Seq<real>) -> Result<real, ArithError> {
    if s.len() == 0 {
        Ok(0real)
    } else {
        match mean_checked(s) {
            Err(e) => Err(e),
            Ok(m) => match sum_checked(
                Seq::new(s.len(), |i: int| squared_deviation_checked(s[i], m)),
            ) {
                Err(e) => Err(e),
                Ok(t) => ck(t / (s.len() as real)),
            },
        }
    }
}

/// The covariance as [`covariance`] computes it: the mean of `x`, the mean
/// of `y`, the products of distances summed from the left, then one division
/// by the length.
pub open spec fn covariance_checked(x: Seq<real>, y: Seq<real>) -> Result<real, ArithError> {
    if x.len() == 0 {
        Ok(0real)
    } else {
        match mean_checked(x) {
            Err(e) => Err(e),
            Ok(mx) => match mean_checked(y) {
                Err(e) => Err(e),
                Ok(my) => match sum_checked(
                    Seq::new(x.len(), |i: int| cross_deviation_checked(x[i], mx, y[i], my)),
                ) {
                    Err(e) => Err(e),
                    Ok(t) => ck(t / (x.len() as real)),
                },
            },
        }
    }
}

/// A failure in a partial sum is the failure of the whole sum.
pub proof fn lemma_sum_checked_prefix(t: Seq<Result<real, ArithError>>, k: int)
    requires
        0 <= k <= t.len(),
    ensures
        sum_checked(t.take(k)) is Err ==> sum_checked(t) == sum_checked(t.take(k)),
    decreases t.len() - k,
{
    if k == t.len() {
        assert(t.take(k) =~= t);
    } else {
        assert(t.take(k + 1).drop_last() =~= t.take(k));
        lemma_sum_checked_prefix(t, k + 1);
    }
}

/// Adding one more term to a partial sum.
pub proof fn lemma_sum_checked_step(t: Seq<Result<real, ArithError>>, k: int)
    requires
        0 <= k < t.len(),
    ensures
        sum_checked(t.take(k + 1)) == match sum_checked(t.take(k)) {
            Err(e) => Err(e),
            Ok(a) => match t[k] {
                Err(e) => Err(e),
                Ok(v) => ck(a + v),
            },
        },
{
    assert(t.take(k + 1).drop_last() =~= t.take(k));
    assert(t.take(k + 1).last() == t[k]);
}

/// A sum that succeeded is the sum of its terms, each of which succeeded.
pub proof fn lemma_sum_checked_value(t: Seq<Result<real, ArithError>>, v: Seq<real>)
    requires
        t.len() == v.len(),
        forall|i: int| 0 <= i < t.len() && t[i] is Ok ==> t[i] == Ok::<real, ArithError>(#[trigger] v[i]),
        sum_checked(t) is Ok,
    ensures
        sum_checked(t) == Ok::<real, ArithError>(sum_of(v)),
        forall|i: int| 0 <= i < t.len() ==> (#[trigger] t[i]) is Ok,
    decreases t.len(),
{
    if t.len() > 0 {
        lemma_sum_checked_value(t.drop_last(), v.drop_last());
        assert forall|i: int| 0 <= i < t.len() implies (#[trigger] t[i]) is Ok by {
            if i < t.len() - 1 {
                assert(t.drop_last()[i] is Ok);
            }
        }
        assert(t.last() == Ok::<real, ArithError>(v.last()));
    }
}

/// Where it has a value, the checked mean is the mean.
pub proof fn lemma_mean_checked(s: Seq<real>)
    requires
        mean_checked(s) is Ok,
    ensures
        mean_checked(s) == Ok::<real, ArithError>(mean_of(s)),
{
    if s.len() > 0 {
        lemma_sum_checked_value(known(s), s);
    }
}

/// Where it has a value, the checked variance is the population variance.
pub proof fn lemma_variance_checked(s: Seq<real>)
    requires
        variance_checked(s) is Ok,
    ensures
        variance_checked(s) == Ok::<real, ArithError>(variance_of(s)),
{
    if s.len() > 0 {
        lemma_mean_checked(s);
        let m = mean_of(s);
        let t = Seq::new(s.len(), |i: int| squared_deviation_checked(s[i], m));
        lemma_sum_checked_value(t, squared_deviations(s, m));
    }
}

/// Where it has a value, the checked covariance is the population
/// covariance.
pub proof fn lemma_covariance_checked(x: Seq<real>, y: Seq<real>)
    requires
        x.len() == y.len(),
        covariance_checked(x, y) is Ok,
    ensures
        covariance_checked(x, y) == Ok::<real, ArithError>(covariance_of(x, y)),
{
    if x.len() > 0 {
        lemma_mean_checked(x);
        lemma_mean_checked(y);
        let mx = mean_of(x);
        let my = mean_of(y);
        let t = Seq::new(x.len(), |i: int| cross_deviation_checked(x[i], mx, y[i], my));
        lemma_sum_checked_value(t, cross_deviations(x, mx, y, my));
    }
}

/// All elements are the same number.
pub open spec fn constant(s: Seq<real>) -> bool {
    forall|i: int, j: int| 0 <= i < s.len() && 0 <= j < s.len() ==> s[i] == s[j]
}

/// A sum of numbers none of which is negative is not negative, and it is
/// zero only where all of them are.
pub proof fn lemma_sum_of_nonnegative(s: Seq<real>)
    requires
        forall|i: int| 0 <= i < s.len() ==> s[i] >= 0real,
    ensures
        sum_of(s) >= 0real,
        sum_of(s) == 0real <==> forall|i: int| 0 <= i < s.len() ==> s[i] == 0real,
    decreases s.len(),
{
    if s.len() > 0 {
        let u = s.drop_last();
        assert forall|i: int| 0 <= i < u.len() implies u[i] >= 0real by {
            assert(u[i] == s[i]);
        }
        lemma_sum_of_nonnegative(u);
        if sum_of(s) == 0real {
            assert forall|i: int| 0 <= i < s.len() implies s[i] == 0real by {
                if i < u.len() {
                    assert(u[i] == s[i]);
                }
            }
        }
        if forall|i: int| 0 <= i < s.len() ==> s[i] == 0real {
            assert forall|i: int| 0 <= i < u.len() implies u[i] == 0real by {
                assert(u[i] == s[i]);
            }
        }
    }
}

/// The sum of a number repeated is the number times the length.
pub proof fn lemma_sum_of_constant(s: Seq<real>, c: real)
    requires
        forall|i: int| 0 <= i < s.len() ==> s[i] == c,
    ensures
        sum_of(s) == (s.len() as real) * c,
    decreases s.len(),
{
    if s.len() > 0 {
        let u = s.drop_last();
        assert forall|i: int| 0 <= i < u.len() implies u[i] == c by {
            assert(u[i] == s[i]);
        }
        lemma_sum_of_constant(u, c);
        assert(((s.len() - 1) as real) * c + c == (s.len() as real) * c) by (nonlinear_arith);
    } else {
        assert((0 as real) * c == 0real) by (nonlinear_arith);
    }
}

/// The variance is never negative, and it is zero exactly where all
/// elements are the same number.
pub proof fn lemma_variance_zero(s: Seq<real>)
    ensures
        variance_of(s) >= 0real,
        variance_of(s) == 0real <==> constant(s),
{
    if s.len() > 0 {
        let n = s.len() as real;
        let m = mean_of(s);
        let d = squared_deviations(s, m);
        assert forall|i: int| 0 <= i < d.len() implies d[i] >= 0real by {
            assert((s[i] - m) * (s[i] - m) >= 0real) by (nonlinear_arith);
        }
        lemma_sum_of_nonnegative(d);
        let t = sum_of(d);
        assert(t / n >= 0real && (t / n == 0real <==> t == 0real)) by (nonlinear_arith)
            requires
                t >= 0real,
                n > 0real,
        ;
        if variance_of(s) == 0real {
            assert forall|i: int, j: int| 0 <= i < s.len() && 0 <= j < s.len() implies s[i]
                == s[j] by {
                assert(d[i] == 0real && d[j] == 0real);
                assert(s[i] == m) by (nonlinear_arith)
                    requires
                        (s[i] - m) * (s[i] - m) == 0real,
                ;
                assert(s[j] == m) by (nonlinear_arith)
                    requires
                        (s[j] - m) * (s[j] - m) == 0real,
                ;
            }
        }
        if constant(s) {
            let c = s[0];
            lemma_sum_of_constant(s, c);
            assert(m == c) by (nonlinear_arith)
                requires
                    m == (n * c) / n,
                    n > 0real,
            ;
            assert forall|i: int| 0 <= i < d.len() implies d[i] == 0real by {
                assert(s[i] == c);
                assert((c - c) * (c - c) == 0real) by (nonlinear_arith);
            }
        }
    }
}

/// The arithmetic mean of `values`; zero where there are none.
pub fn mean(values: &[Rational]) -> (r: Result<Rational, ArithError>)
    ensures
        lift(r) == mean_checked(reals(values@)),
        r matches Ok(m) ==> m@ == mean_of(reals(values@)),
        r matches Err(e) ==> e == ArithError::Overflow,
        values@.len() == 0 ==> lift(r) == Ok::<real, ArithError>(0real),
        values@.len() == 1 ==> r == Ok::<Rational, ArithError>(values@[0]),
        values@.len() <= 1_000_000_000 && all_readings(reals(values@)) ==> r is Ok,
{
    proof {
        if values@.len() <= 1_000_000_000 && all_readings(reals(values@)) {
            lemma_mean_of_readings_fits(reals(values@));
        }
    }
    let n = values.len();
    if n == 0 {
        return Ok(Rational::zero());
    }
    let ghost s = reals(values@);
    let ghost terms = known(s);
    if n == 1 {
        let v = values[0];
        proof {
            use_type_invariant(&v);
            lemma_view_representable(v);
            lemma_sum_checked_step(terms, 0);
            assert(terms.take(0) =~= Seq::empty());
            assert(terms.take(1) =~= terms);
            assert(v@ / (1 as real) == v@) by (nonlinear_arith);
            assert(0real + v@ == v@);
            lemma_mean_checked(s);
        }
        return Ok(v);
    }
    let mut acc = Rational::zero();
    let mut i: usize = 0;
    while i < n
        invariant
            n == values@.len(),
            n > 1,
            i <= n,
            s == reals(values@),
            terms == known(s),
            sum_checked(terms.take(i as int)) == Ok::<real, ArithError>(acc@),
            values@.len() <= 1_000_000_000 && all_readings(s) ==> mean_checked(s) is Ok,
        decreases n - i,
    {
        let next = acc.checked_add(&values[i]);
        proof {
            lemma_sum_checked_step(terms, i as int);
        }
        match next {
            Ok(v) => {
                acc = v;
            },
            Err(e) => {
                proof {
                    lemma_sum_checked_prefix(terms, i + 1);
                }
                return Err(e);
            },
        }
        i += 1;
    }
    proof {
        assert(terms.take(n as int) =~= terms);
    }
    let r = acc.div_count(n);
    proof {
        if r is Ok {
            lemma_mean_checked(s);
        }
    }
    r
}

/// The population variance of `values` (the divisor is their number, not one
/// less); zero where there are none.
pub fn variance(values: &[Rational]) -> (r: Result<Rational, ArithError>)
    ensures
        lift(r) == variance_checked(reals(values@)),
        r matches Ok(v) ==> v@ == variance_of(reals(values@)) && v@ >= 0real,
        r matches Err(e) ==> e == ArithError::Overflow,
        values@.len() == 0 ==> lift(r) == Ok::<real, ArithError>(0real),
{
    proof {
        lemma_variance_zero(reals(values@));
    }
    let n = values.len();
    if n == 0 {
        return Ok(Rational::zero());
    }
    let m = match mean(values) {
        Ok(m) => m,
        Err(e) => {
            return Err(e);
        },
    };
    let ghost s = reals(values@);
    let ghost terms = Seq::new(s.len(), |i: int| squared_deviation_checked(s[i], m@));
    let mut acc = Rational::zero();
    let mut i: usize = 0;
    while i < n
        invariant
            n == values@.len(),
            n > 0,
            i <= n,
            s == reals(values@),
            mean_checked(s) == Ok::<real, ArithError>(m@),
            terms == Seq::new(s.len(), |i: int| squared_deviation_checked(s[i], m@)),
            sum_checked(terms.take(i as int)) == Ok::<real, ArithError>(acc@),
        decreases n - i,
    {
        proof {
            lemma_sum_checked_step(terms, i as int);
            lemma_sum_checked_prefix(terms, i + 1);
        }
        let d = match values[i].checked_sub(&m) {
            Ok(d) => d,
            Err(e) => {
                return Err(e);
            },
        };
        let q = match d.checked_mul(&d) {
            Ok(q) => q,
            Err(e) => {
                return Err(e);
            },
        };
        match acc.checked_add(&q) {
            Ok(v) => {
                acc = v;
            },
            Err(e) => {
                return Err(e);
            },
        }
        i += 1;
    }
    proof {
        assert(terms.take(n as int) =~= terms);
    }
    let r = acc.div_count(n);
    proof {
        if r is Ok {
            lemma_variance_checked(s);
        }
    }
    r
}

/// The population covariance of `x` and `y`, which must be of one length;
/// zero where they are empty.
pub fn covariance(x: &[Rational], y: &[Rational]) -> (r: Result<Rational, ArithError>)
    requires
        x@.len() == y@.len(),
    ensures
        lift(r) == covariance_checked(reals(x@), reals(y@)),
        r matches Ok(c) ==> c@ == covariance_of(reals(x@), reals(y@)),
        r matches Err(e) ==> e == ArithError::Overflow,
        x@.len() == 0 ==> lift(r) == Ok::<real, ArithError>(0real),
{
    let n = x.len();
    if n == 0 {
        return Ok(Rational::zero());
    }
    let mean_x = match mean(x) {
        Ok(m) => m,
        Err(e) => {
            return Err(e);
        },
    };
    let mean_y = match mean(y) {
        Ok(m) => m,
        Err(e) => {
            return Err(e);
        },
    };
    let ghost xs = reals(x@);
    let ghost ys = reals(y@);
    let ghost terms = Seq::new(
        xs.len(),
        |i: int| cross_deviation_checked(xs[i], mean_x@, ys[i], mean_y@),
    );
    let mut acc = Rational::zero();
    let mut i: usize = 0;
    while i < n
        invariant
            n == x@.len(),
            n == y@.len(),
            n > 0,
            i <= n,
            xs == reals(x@),
            ys == reals(y@),
            mean_checked(xs) == Ok::<real, ArithError>(mean_x@),
            mean_checked(ys) == Ok::<real, ArithError>(mean_y@),
            terms == Seq::new(
                xs.len(),
                |i: int| cross_deviation_checked(xs[i], mean_x@, ys[i], mean_y@),
            ),
            sum_checked(terms.take(i as int)) == Ok::<real, ArithError>(acc@),
        decreases n - i,
    {
        proof {
            lemma_sum_checked_step(terms, i as int);
            lemma_sum_checked_prefix(terms, i + 1);
        }
        let dx = match x[i].checked_sub(&mean_x) {
            Ok(d) => d,
            Err(e) => {
                return Err(e);
            },
        };
        let dy = match y[i].checked_sub(&mean_y) {
            Ok(d) => d,
            Err(e) => {
                return Err(e);
            },
        };
        let q = match dx.checked_mul(&dy) {
            Ok(q) => q,
            Err(e) => {
                return Err(e);
            },
        };
        match acc.checked_add(&q) {
            Ok(v) => {
                acc = v;
            },
            Err(e) => {
                return Err(e);
            },
        }
        i += 1;
    }
    proof {
        assert(terms.take(n as int) =~= terms);
    }
    let r = acc.div_count(n);
    proof {
        if r is Ok {
            lemma_covariance_checked(xs, ys);
        }
    }
    r
}

} // verus!
