//! Exact fractions in 64 bits, and the partial arithmetic on them.
use crate::gcd::{
    gcd, gcd_u128, lemma_cofactors_coprime, lemma_gcd_factors, lemma_gcd_positive,
    lemma_lowest_terms_minimal, magnitude,
};
use vstd::prelude::*;

verus! {

/// Why a computation has no value.
#[derive(Clone, Copy, Debug, PartialEq, Eq, Structural)]
pub enum ArithError {
    /// A value does not fit in a 64-bit numerator over a 64-bit denominator.
    Overflow,
    /// A quotient was asked for whose divisor is zero.
    DivisionByZero,
}

/// The real number `n / d`.
pub open spec fn ratio(n: int, d: int) -> real {
    n as real / d as real
}

/// `n` over `d` can be stored: a positive denominator, and both parts within
/// the symmetric 64-bit range.
pub open spec fn in_range(n: int, d: int) -> bool {
    0 < d <= i64::MAX && -i64::MAX <= n <= i64::MAX
}

/// `x` is a fraction that a [`Rational`] can hold.
pub open spec fn representable(x: real) -> bool {
    exists|n: int, d: int| #[trigger] ratio(n, d) == x && in_range(n, d)
}

/// The value `x` as the result of one arithmetic step: itself where it can be
/// held, an overflow where it cannot.
pub open spec fn ck(x: real) -> Result<real, ArithError> {
    if representable(x) {
        Ok(x)
    } else {
        Err(ArithError::Overflow)
    }
}

/// The quotient `x / y` as the result of one arithmetic step.
pub open spec fn ck_quot(x: real, y: real) -> Result<real, ArithError> {
    if y == 0real {
        Err(ArithError::DivisionByZero)
    } else {
        ck(x / y)
    }
}

/// The square root is taken downwards to a whole number of steps of one part
/// in this many.
pub const ROOT_RESOLUTION: i64 = 1_000_000_000;

/// `k` steps are the square root of `x` taken downwards: `k` steps squared
/// do not exceed `x`, one step more does.
pub open spec fn is_root_units(k: int, x: real) -> bool {
    &&& k >= 0
    &&& ((k * k) as real) <= x * ((ROOT_RESOLUTION * ROOT_RESOLUTION) as real)
    &&& x * ((ROOT_RESOLUTION * ROOT_RESOLUTION) as real) < (((k + 1) * (k + 1)) as real)
}

/// The square root of `x`, taken downwards to a multiple of one part in
/// [`ROOT_RESOLUTION`].
pub open spec fn root_floor(x: real) -> real {
    ratio(choose|k: int| is_root_units(k, x), ROOT_RESOLUTION as int)
}

/// At most one number of steps is the square root taken downwards.
pub proof fn lemma_root_units_unique(k1: int, k2: int, x: real)
    requires
        is_root_units(k1, x),
        is_root_units(k2, x),
    ensures
        k1 == k2,
{
    assert(k1 == k2) by (nonlinear_arith)
        requires
            k1 >= 0,
            k2 >= 0,
            ((k1 * k1) as real) < (((k2 + 1) * (k2 + 1)) as real),
            ((k2 * k2) as real) < (((k1 + 1) * (k1 + 1)) as real),
    ;
}

/// A number lies between the square of its root taken downwards and the
/// square of the next step above it.
pub proof fn lemma_root_units_bounds(k: int, x: real)
    requires
        is_root_units(k, x),
    ensures
        ratio(k, ROOT_RESOLUTION as int) >= 0real,
        ratio(k, ROOT_RESOLUTION as int) * ratio(k, ROOT_RESOLUTION as int) <= x,
        x < (ratio(k, ROOT_RESOLUTION as int) + ratio(1, ROOT_RESOLUTION as int)) * (ratio(
            k,
            ROOT_RESOLUTION as int,
        ) + ratio(1, ROOT_RESOLUTION as int)),
{
    let r = ratio(k, 1_000_000_000);
    let step = ratio(1, 1_000_000_000);
    assert(r >= 0real && r * r <= x) by (nonlinear_arith)
        requires
            k >= 0,
            r == ratio(k, 1_000_000_000),
            ((k * k) as real) <= x * ((1_000_000_000 * 1_000_000_000) as real),
    ;
    assert(x < (r + step) * (r + step)) by (nonlinear_arith)
        requires
            k >= 0,
            r == ratio(k, 1_000_000_000),
            step == ratio(1, 1_000_000_000),
            x * ((1_000_000_000 * 1_000_000_000) as real) < (((k + 1) * (k + 1)) as real),
    ;
}

/// Two fractions with positive denominators are the same number exactly when
/// their cross products agree.
pub proof fn lemma_ratio_eq(n1: int, d1: int, n2: int, d2: int)
    requires
        d1 > 0,
        d2 > 0,
    ensures
        (ratio(n1, d1) == ratio(n2, d2)) <==> (n1 * d2 == n2 * d1),
{
    assert((ratio(n1, d1) == ratio(n2, d2)) <==> (n1 * d2 == n2 * d1)) by (nonlinear_arith)
        requires
            d1 > 0,
            d2 > 0,
    ;
}

/// Adding two fractions over the product of their denominators.
pub proof fn lemma_ratio_sum(a: int, b: int, c: int, d: int)
    requires
        b > 0,
        d > 0,
    ensures
        ratio(a, b) + ratio(c, d) == ratio(a * d + c * b, b * d),
        ratio(a, b) - ratio(c, d) == ratio(a * d - c * b, b * d),
        ratio(a, b) * ratio(c, d) == ratio(a * c, b * d),
        b * d > 0,
{
    assert(b * d > 0) by (nonlinear_arith)
        requires
            b > 0,
            d > 0,
    ;
    assert(ratio(a, b) + ratio(c, d) == ratio(a * d + c * b, b * d)) by (nonlinear_arith)
        requires
            b > 0,
            d > 0,
    ;
    assert(ratio(a, b) - ratio(c, d) == ratio(a * d - c * b, b * d)) by (nonlinear_arith)
        requires
            b > 0,
            d > 0,
    ;
    assert(ratio(a, b) * ratio(c, d) == ratio(a * c, b * d)) by (nonlinear_arith)
        requires
            b > 0,
            d > 0,
    ;
}

/// Dividing one fraction by another that is not zero.
pub proof fn lemma_ratio_quotient(a: int, b: int, c: int, d: int)
    requires
        b > 0,
        d > 0,
        c != 0,
    ensures
        c > 0 ==> ratio(a, b) / ratio(c, d) == ratio(a * d, b * c) && b * c > 0,
        c < 0 ==> ratio(a, b) / ratio(c, d) == ratio(-(a * d), b * (-c)) && b * (-c) > 0,
        ratio(c, d) != 0real,
{
    assert(ratio(c, d) != 0real) by (nonlinear_arith)
        requires
            d > 0,
            c != 0,
    ;
    if c > 0 {
        assert(b * c > 0) by (nonlinear_arith)
            requires
                b > 0,
                c > 0,
        ;
        assert(ratio(a, b) / ratio(c, d) == ratio(a * d, b * c)) by (nonlinear_arith)
            requires
                b > 0,
                d > 0,
                c > 0,
        ;
    } else {
        assert(b * (-c) > 0) by (nonlinear_arith)
            requires
                b > 0,
                c < 0,
        ;
        assert(ratio(a, b) / ratio(c, d) == ratio(-(a * d), b * (-c))) by (nonlinear_arith)
            requires
                b > 0,
                d > 0,
                c < 0,
        ;
    }
}

/// The order of two fractions with positive denominators is the order of
/// their cross products.
pub proof fn lemma_ratio_order(a: int, b: int, c: int, d: int)
    requires
        b > 0,
        d > 0,
    ensures
        (ratio(a, b) < ratio(c, d)) <==> (a * d < c * b),
        (ratio(a, b) <= ratio(c, d)) <==> (a * d <= c * b),
{
    assert((ratio(a, b) < ratio(c, d)) <==> (a * d < c * b)) by (nonlinear_arith)
        requires
            b > 0,
            d > 0,
    ;
    assert((ratio(a, b) <= ratio(c, d)) <==> (a * d <= c * b)) by (nonlinear_arith)
        requires
            b > 0,
            d > 0,
    ;
}

/// The product of two integers of at most 64 bits in magnitude.
proof fn lemma_product_bound(a: int, b: int)
    requires
        -0xFFFF_FFFF_FFFF_FFFF <= a <= 0xFFFF_FFFF_FFFF_FFFF,
        -0x7FFF_FFFF_FFFF_FFFF <= b <= 0x7FFF_FFFF_FFFF_FFFF,
    ensures
        -0x7FFF_FFFF_FFFF_FFFE_8000_0000_0000_0001 <= a * b <= 0x7FFF_FFFF_FFFF_FFFE_8000_0000_0000_0001,
        (-0x7FFF_FFFF_FFFF_FFFF <= a <= 0x7FFF_FFFF_FFFF_FFFF) ==> -0x3FFF_FFFF_FFFF_FFFF_0000_0000_0000_0001
            <= a * b <= 0x3FFF_FFFF_FFFF_FFFF_0000_0000_0000_0001,
{
    assert(-0x7FFF_FFFF_FFFF_FFFE_8000_0000_0000_0001 <= a * b
        <= 0x7FFF_FFFF_FFFF_FFFE_8000_0000_0000_0001) by (nonlinear_arith)
        requires
            -0xFFFF_FFFF_FFFF_FFFF <= a <= 0xFFFF_FFFF_FFFF_FFFF,
            -0x7FFF_FFFF_FFFF_FFFF <= b <= 0x7FFF_FFFF_FFFF_FFFF,
    ;
    if -0x7FFF_FFFF_FFFF_FFFF <= a <= 0x7FFF_FFFF_FFFF_FFFF {
        assert(-0x3FFF_FFFF_FFFF_FFFF_0000_0000_0000_0001 <= a * b
            <= 0x3FFF_FFFF_FFFF_FFFF_0000_0000_0000_0001) by (nonlinear_arith)
            requires
                -0x7FFF_FFFF_FFFF_FFFF <= a <= 0x7FFF_FFFF_FFFF_FFFF,
                -0x7FFF_FFFF_FFFF_FFFF <= b <= 0x7FFF_FFFF_FFFF_FFFF,
        ;
    }
}

/// The integer square root, taken downwards.
fn isqrt(x: u128) -> (k: u128)
    requires
        x < 0x1000_0000_0000_0000_0000_0000_0000_0000,
    ensures
        k * k <= x < (k + 1) * (k + 1),
        k < 0x4000_0000_0000_0000,
{
    let mut lo: u128 = 0;
    let mut hi: u128 = 0x4000_0000_0000_0000;
    while hi - lo > 1
        invariant
            lo < hi <= 0x4000_0000_0000_0000,
            lo * lo <= x < hi * hi,
        decreases hi - lo,
    {
        let mid: u128 = lo + (hi - lo) / 2;
        proof {
            assert(mid * mid < 0x1000_0000_0000_0000_0000_0000_0000_0000) by (nonlinear_arith)
                requires
                    mid < 0x4000_0000_0000_0000,
            ;
        }
        if mid * mid <= x {
            lo = mid;
        } else {
            hi = mid;
        }
    }
    lo
}

/// A fraction in lowest terms with a positive denominator, both parts within
/// the symmetric 64-bit range.  Two values are equal exactly when they stand
/// for the same number.
#[derive(Clone, Copy, Debug, PartialEq, Eq, Structural)]
pub struct Rational {
    num: i64,
    den: i64,
}

impl View for Rational {
    type V = real;

    /// The number that the fraction stands for.
    open spec fn view(&self) -> real {
        ratio(self.num(), self.den())
    }
}

/// The outcome of a computation with each value replaced by the number it
/// stands for.
pub open spec fn lift(r: Result<Rational, ArithError>) -> Result<real, ArithError> {
    match r {
        Ok(v) => Ok(v@),
        Err(e) => Err(e),
    }
}

impl Rational {
    /// The numerator as an integer.
    pub closed spec fn num(self) -> int {
        self.num as int
    }

    /// The denominator as an integer.
    pub closed spec fn den(self) -> int {
        self.den as int
    }

    /// What holds of every value: the parts are within range and share no
    /// divisor.
    #[verifier::type_invariant]
    pub open spec fn wf(self) -> bool {
        &&& in_range(self.num(), self.den())
        &&& gcd(magnitude(self.num()), self.den() as nat) == 1
    }

    /// Numerator and denominator of `n / d` in lowest terms.
    fn lowest_terms(n: i128, d: i128) -> (r: (i128, i128))
        requires
            d > 0,
            n > i128::MIN,
        ensures
            0 < r.1 <= d,
            magnitude(r.0 as int) <= magnitude(n as int),
            gcd(magnitude(r.0 as int), r.1 as nat) == 1,
            r.0 * d == n * r.1,
            ratio(r.0 as int, r.1 as int) == ratio(n as int, d as int),
    {
        let negative = n < 0;
        let m: u128 = if negative {
            (-n) as u128
        } else {
            n as u128
        };
        let du: u128 = d as u128;
        let g = gcd_u128(m, du);
        let ghost cof = (0nat, 0nat);
        proof {
            lemma_gcd_positive(m as nat, du as nat);
            cof = lemma_gcd_factors(m as nat, du as nat);
            lemma_cofactors_coprime(m as nat, du as nat, cof.0, cof.1);
        }
        let p: u128 = m / g;
        let q: u128 = du / g;
        proof {
            assert(p == cof.0 && q == cof.1 && p <= m && q <= du) by (nonlinear_arith)
                requires
                    g > 0,
                    m == g * cof.0,
                    du == g * cof.1,
                    p == m / g,
                    q == du / g,
            ;
        }
        let ps: i128 = if negative {
            -(p as i128)
        } else {
            p as i128
        };
        proof {
            assert(n as int == g * ps && d as int == g * q) by (nonlinear_arith)
                requires
                    m == g * p,
                    du == g * q,
                    d == du,
                    n as int == if negative {
                        -(m as int)
                    } else {
                        m as int
                    },
                    ps as int == if negative {
                        -(p as int)
                    } else {
                        p as int
                    },
            ;
            assert(ps * d == n * q) by (nonlinear_arith)
                requires
                    n as int == g * ps,
                    d as int == g * q,
            ;
            lemma_ratio_eq(ps as int, q as int, n as int, d as int);
            assert(magnitude(ps as int) == p);
        }
        (ps, q as i128)
    }

    /// Stores `n / d` in lowest terms, if its parts then fit.
    fn reduce(n: i128, d: i128) -> (r: Result<Rational, ArithError>)
        requires
            d > 0,
            n > i128::MIN,
        ensures
            lift(r) == ck(ratio(n as int, d as int)),
    {
        let (p, q) = Rational::lowest_terms(n, d);
        if -0x7FFF_FFFF_FFFF_FFFF <= p && p <= 0x7FFF_FFFF_FFFF_FFFF && q
            <= 0x7FFF_FFFF_FFFF_FFFF {
            proof {
                assert(in_range(p as int, q as int));
            }
            Ok(Rational { num: p as i64, den: q as i64 })
        } else {
            proof {
                assert forall|n2: int, d2: int| in_range(n2, d2) implies #[trigger] ratio(n2, d2)
                    != ratio(n as int, d as int) by {
                    if ratio(n2, d2) == ratio(n as int, d as int) {
                        lemma_ratio_eq(n2, d2, p as int, q as int);
                        lemma_lowest_terms_minimal(p as int, q as int, n2, d2);
                    }
                }
            }
            Err(ArithError::Overflow)
        }
    }

    /// The number of hundredths `h`.
    pub fn from_hundredths(h: i32) -> (r: Rational)
        ensures
            r@ == ratio(h as int, 100),
    {
        let (p, q) = Rational::lowest_terms(h as i128, 100);
        Rational { num: p as i64, den: q as i64 }
    }

    /// The numerator of the fraction in lowest terms.
    pub fn numerator(&self) -> (n: i64)
        ensures
            n == self.num(),
    {
        self.num
    }

    /// The denominator of the fraction in lowest terms, which is positive.
    pub fn denominator(&self) -> (d: i64)
        ensures
            d == self.den(),
            d > 0,
    {
        proof {
            use_type_invariant(self);
        }
        self.den
    }

    /// The whole number `n`.
    pub fn from_int(n: i32) -> (r: Rational)
        ensures
            r@ == n as real,
            r.num() == n,
            r.den() == 1,
    {
        proof {
            reveal_with_fuel(gcd, 3);
            assert(magnitude(n as int) % 1 == 0);
            assert(ratio(n as int, 1) == n as real) by (nonlinear_arith);
        }
        Rational { num: n as i64, den: 1 }
    }

    /// The number zero.
    pub fn zero() -> (r: Rational)
        ensures
            r@ == 0real,
            r.num() == 0,
            r.den() == 1,
    {
        Rational::from_int(0)
    }

    /// The fraction `num / den`, brought to lowest terms.
    pub fn new(num: i64, den: i64) -> (r: Result<Rational, ArithError>)
        ensures
            lift(r) == ck_quot(num as real, den as real),
    {
        if den == 0 {
            return Err(ArithError::DivisionByZero);
        }
        let n: i128 = num as i128;
        let d: i128 = den as i128;
        proof {
            if den > 0 {
                assert(ratio(n as int, d as int) == num as real / den as real);
            } else {
                assert(ratio(-(n as int), -(d as int)) == num as real / den as real)
                    by (nonlinear_arith)
                    requires
                        n == num,
                        d == den,
                        d < 0,
                ;
            }
        }
        if den > 0 {
            Rational::reduce(n, d)
        } else {
            Rational::reduce(-n, -d)
        }
    }

    /// The sum of two fractions.
    pub fn checked_add(&self, rhs: &Rational) -> (r: Result<Rational, ArithError>)
        ensures
            lift(r) == ck(self@ + rhs@),
    {
        proof {
            use_type_invariant(self);
            use_type_invariant(rhs);
            lemma_product_bound(self.num as int, rhs.den as int);
            lemma_product_bound(rhs.num as int, self.den as int);
            lemma_product_bound(self.den as int, rhs.den as int);
            lemma_ratio_sum(self.num as int, self.den as int, rhs.num as int, rhs.den as int);
        }
        let n: i128 = (self.num as i128) * (rhs.den as i128) + (rhs.num as i128) * (
        self.den as i128);
        let d: i128 = (self.den as i128) * (rhs.den as i128);
        Rational::reduce(n, d)
    }

    /// The difference of two fractions.
    pub fn checked_sub(&self, rhs: &Rational) -> (r: Result<Rational, ArithError>)
        ensures
            lift(r) == ck(self@ - rhs@),
    {
        proof {
            use_type_invariant(self);
            use_type_invariant(rhs);
            lemma_product_bound(self.num as int, rhs.den as int);
            lemma_product_bound(rhs.num as int, self.den as int);
            lemma_product_bound(self.den as int, rhs.den as int);
            lemma_ratio_sum(self.num as int, self.den as int, rhs.num as int, rhs.den as int);
        }
        let n: i128 = (self.num as i128) * (rhs.den as i128) - (rhs.num as i128) * (
        self.den as i128);
        let d: i128 = (self.den as i128) * (rhs.den as i128);
        Rational::reduce(n, d)
    }

    /// The product of two fractions.
    pub fn checked_mul(&self, rhs: &Rational) -> (r: Result<Rational, ArithError>)
        ensures
            lift(r) == ck(self@ * rhs@),
    {
        proof {
            use_type_invariant(self);
            use_type_invariant(rhs);
            lemma_product_bound(self.num as int, rhs.num as int);
            lemma_product_bound(self.den as int, rhs.den as int);
            lemma_ratio_sum(self.num as int, self.den as int, rhs.num as int, rhs.den as int);
        }
        let n: i128 = (self.num as i128) * (rhs.num as i128);
        let d: i128 = (self.den as i128) * (rhs.den as i128);
        Rational::reduce(n, d)
    }

    /// The quotient of two fractions.
    pub fn checked_div(&self, rhs: &Rational) -> (r: Result<Rational, ArithError>)
        ensures
            lift(r) == ck_quot(self@, rhs@),
    {
        proof {
            use_type_invariant(self);
            use_type_invariant(rhs);
            lemma_product_bound(self.num as int, rhs.den as int);
            lemma_product_bound(self.den as int, rhs.num as int);
        }
        if rhs.num == 0 {
            proof {
                assert(ratio(0, rhs.den as int) == 0real) by (nonlinear_arith)
                    requires
                        rhs.den > 0,
                ;
            }
            return Err(ArithError::DivisionByZero);
        }
        proof {
            lemma_ratio_quotient(
                self.num as int,
                self.den as int,
                rhs.num as int,
                rhs.den as int,
            );
        }
        let a: i128 = (self.num as i128) * (rhs.den as i128);
        let b: i128 = (self.den as i128) * (rhs.num as i128);
        if rhs.num > 0 {
            Rational::reduce(a, b)
        } else {
            proof {
                assert((self.den as int) * (-(rhs.num as int)) == -((self.den as int) * (
                rhs.num as int))) by (nonlinear_arith);
            }
            Rational::reduce(-a, -b)
        }
    }

    /// The fraction divided by a count, as in a mean.
    pub fn div_count(&self, count: usize) -> (r: Result<Rational, ArithError>)
        ensures
            lift(r) == ck_quot(self@, count as real),
    {
        if count == 0 {
            return Err(ArithError::DivisionByZero);
        }
        proof {
            use_type_invariant(self);
            lemma_product_bound(count as int, self.den as int);
            assert(ratio(self.num as int, (self.den as int) * (count as int)) == ratio(
                self.num as int,
                self.den as int,
            ) / (count as real)) by (nonlinear_arith)
                requires
                    self.den > 0,
                    count > 0,
            ;
            assert((self.den as int) * (count as int) > 0) by (nonlinear_arith)
                requires
                    self.den > 0,
                    count > 0,
            ;
            assert((count as int) * (self.den as int) == (self.den as int) * (count as int))
                by (nonlinear_arith);
        }
        let d: i128 = (self.den as i128) * (count as i128);
        Rational::reduce(self.num as i128, d)
    }

    /// The square root of a number that is not negative, taken downwards to
    /// a multiple of one part in [`ROOT_RESOLUTION`].
    pub(crate) fn root(&self) -> (v: Rational)
        requires
            self@ >= 0real,
        ensures
            v@ == root_floor(self@),
            v@ >= 0real,
            v@ * v@ <= self@,
            self@ < (v@ + ratio(1, ROOT_RESOLUTION as int)) * (v@ + ratio(
                1,
                ROOT_RESOLUTION as int,
            )),
    {
        proof {
            use_type_invariant(self);
            lemma_ratio_order(self.num as int, self.den as int, 0, 1);
            assert(ratio(0, 1) == 0real) by (nonlinear_arith);
        }
        let n: u128 = self.num as u128;
        let d: u128 = self.den as u128;
        proof {
            assert(n * 1_000_000_000_000_000_000 < 0x1000_0000_0000_0000_0000_0000_0000_0000)
                by (nonlinear_arith)
                requires
                    n <= 0x7FFF_FFFF_FFFF_FFFF,
            ;
        }
        let a: u128 = n * 1_000_000_000_000_000_000;
        let x: u128 = a / d;
        let k = isqrt(x);
        let ghost kk = k as int;
        proof {
            assert(x <= a) by (nonlinear_arith)
                requires
                    x == a / d,
                    d > 0,
            ;
            assert(kk * kk * d <= a && a < (kk + 1) * (kk + 1) * d) by (nonlinear_arith)
                requires
                    x == a / d,
                    d > 0,
                    kk * kk <= x,
                    x < (kk + 1) * (kk + 1),
            ;
            assert(is_root_units(kk, ratio(n as int, d as int))) by (nonlinear_arith)
                requires
                    kk >= 0,
                    d > 0,
                    a == n * 1_000_000_000_000_000_000,
                    kk * kk * d <= a,
                    a < (kk + 1) * (kk + 1) * d,
            ;
            let c = choose|c: int| is_root_units(c, self@);
            lemma_root_units_unique(kk, c, self@);
            assert(ratio(kk, ROOT_RESOLUTION as int) == root_floor(self@));
            lemma_root_units_bounds(kk, self@);
        }
        let (p, q) = Rational::lowest_terms(k as i128, ROOT_RESOLUTION as i128);
        Rational { num: p as i64, den: q as i64 }
    }

    /// The square root taken downwards to a multiple of one part in
    /// [`ROOT_RESOLUTION`]; nothing for a negative number.
    pub fn sqrt_floor(&self) -> (r: Option<Rational>)
        ensures
            r is Some <==> self@ >= 0real,
            r matches Some(v) ==> v@ == root_floor(self@) && v@ >= 0real && v@ * v@ <= self@
                && self@ < (v@ + ratio(1, ROOT_RESOLUTION as int)) * (v@ + ratio(
                1,
                ROOT_RESOLUTION as int,
            )),
    {
        if self.is_negative() {
            None
        } else {
            Some(self.root())
        }
    }

    /// Whether the fraction is less than zero.
    pub fn is_negative(&self) -> (b: bool)
        ensures
            b == (self@ < 0real),
    {
        proof {
            use_type_invariant(self);
            lemma_ratio_order(self.num as int, self.den as int, 0, 1);
            assert(ratio(0, 1) == 0real) by (nonlinear_arith);
        }
        self.num < 0
    }

    /// Whether the fraction is less than `rhs`.
    pub fn lt(&self, rhs: &Rational) -> (b: bool)
        ensures
            b == (self@ < rhs@),
    {
        proof {
            use_type_invariant(self);
            use_type_invariant(rhs);
            lemma_product_bound(self.num as int, rhs.den as int);
            lemma_product_bound(rhs.num as int, self.den as int);
            lemma_ratio_order(self.num as int, self.den as int, rhs.num as int, rhs.den as int);
        }
        (self.num as i128) * (rhs.den as i128) < (rhs.num as i128) * (self.den as i128)
    }

    /// Whether the two fractions stand for the same number.
    pub fn same(&self, rhs: &Rational) -> (b: bool)
        ensures
            b == (self@ == rhs@),
            b == (*self == *rhs),
    {
        proof {
            use_type_invariant(self);
            use_type_invariant(rhs);
            if self@ == rhs@ {
                lemma_view_injective(*self, *rhs);
            }
        }
        self.num == rhs.num && self.den == rhs.den
    }
}

impl Default for Rational {
    /// The number zero.
    fn default() -> (r: Rational)
        ensures
            r@ == 0real,
    {
        Rational::zero()
    }
}

/// A stored fraction is a representable number.
pub proof fn lemma_view_representable(a: Rational)
    requires
        a.wf(),
    ensures
        representable(a@),
        ck(a@) == Ok::<real, ArithError>(a@),
{
    assert(ratio(a.num(), a.den()) == a@ && in_range(a.num(), a.den()));
}

/// Two stored fractions that stand for the same number are the same value.
pub proof fn lemma_view_injective(a: Rational, b: Rational)
    requires
        a.wf(),
        b.wf(),
        a@ == b@,
    ensures
        a == b,
{
    lemma_ratio_eq(a.num(), a.den(), b.num(), b.den());
    lemma_ratio_eq(b.num(), b.den(), a.num(), a.den());
    lemma_lowest_terms_minimal(a.num(), a.den(), b.num(), b.den());
    lemma_lowest_terms_minimal(b.num(), b.den(), a.num(), a.den());
    assert(a.den() == b.den());
    assert(a.num() == b.num()) by (nonlinear_arith)
        requires
            a.num() * b.den() == b.num() * a.den(),
            a.den() == b.den(),
            a.den() > 0,
    ;
}

} // verus!
