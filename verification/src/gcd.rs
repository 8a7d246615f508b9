//! Greatest common divisors, and what they say of fractions in lowest terms.
use vstd::prelude::*;

verus! {

/// Absolute value of an integer.
pub open spec fn magnitude(n: int) -> nat {
    if n < 0 {
        (-n) as nat
    } else {
        n as nat
    }
}

/// Greatest common divisor, by Euclid's recursion.
pub open spec fn gcd(a: nat, b: nat) -> nat
    decreases b,
{
    if b == 0 {
        a
    } else {
        gcd(b, a % b)
    }
}

/// Two numbers that are not both zero have a positive greatest common
/// divisor.
pub proof fn lemma_gcd_positive(a: nat, b: nat)
    requires
        a > 0 || b > 0,
    ensures
        gcd(a, b) > 0,
    decreases b,
{
    if b != 0 {
        lemma_gcd_positive(b, a % b);
    }
}

/// The cofactors of `a` and `b` over their greatest common divisor.
pub proof fn lemma_gcd_factors(a: nat, b: nat) -> (pq: (nat, nat))
    requires
        a > 0 || b > 0,
    ensures
        a == gcd(a, b) * pq.0,
        b == gcd(a, b) * pq.1,
    decreases b,
{
    if b == 0 {
        (1, 0)
    } else {
        let r = a % b;
        let q = a / b;
        let (k1, k2) = lemma_gcd_factors(b, r);
        let g = gcd(b, r);
        assert(a == b * q + r) by (nonlinear_arith)
            requires
                b > 0,
                r == a % b,
                q == a / b,
        ;
        assert(a == g * (k1 * q + k2)) by (nonlinear_arith)
            requires
                a == b * q + r,
                b == g * k1,
                r == g * k2,
        ;
        (k1 * q + k2, k1)
    }
}

/// Bezout's identity: the greatest common divisor is an integer combination
/// of `a` and `b`.
pub proof fn lemma_bezout(a: nat, b: nat) -> (st: (int, int))
    ensures
        st.0 * a + st.1 * b == gcd(a, b),
    decreases b,
{
    if b == 0 {
        (1, 0)
    } else {
        let r = a % b;
        let q = a / b;
        let (s, t) = lemma_bezout(b, r);
        let g = gcd(b, r) as int;
        assert(t * a + (s - t * q) * b == g) by (nonlinear_arith)
            requires
                b > 0,
                r == a % b,
                q == a / b,
                s * b + t * r == g,
        ;
        (t, s - t * q)
    }
}

/// Dividing both numbers by their greatest common divisor leaves a pair
/// whose greatest common divisor is one.
pub proof fn lemma_cofactors_coprime(a: nat, b: nat, p: nat, q: nat)
    requires
        b > 0,
        a == gcd(a, b) * p,
        b == gcd(a, b) * q,
    ensures
        q > 0,
        gcd(p, q) == 1,
{
    let g = gcd(a, b);
    lemma_gcd_positive(a, b);
    assert(q > 0) by (nonlinear_arith)
        requires
            b > 0,
            b == g * q,
            g > 0,
    ;
    let h = gcd(p, q);
    lemma_gcd_positive(p, q);
    let (pc, qc) = lemma_gcd_factors(p, q);
    let (s, t) = lemma_bezout(a, b);
    let m = s * pc + t * qc;
    assert(g * (h * m) == g * 1) by (nonlinear_arith)
        requires
            s * a + t * b == g,
            a == g * p,
            b == g * q,
            p == h * pc,
            q == h * qc,
            m == s * pc + t * qc,
    ;
    assert(h * m == 1) by (nonlinear_arith)
        requires
            g * (h * m) == g * 1,
            g > 0,
    ;
    assert(h == 1) by (nonlinear_arith)
        requires
            h * m == 1,
            h > 0,
    ;
}

/// A fraction in lowest terms has the smallest parts among all fractions of
/// its value.
pub proof fn lemma_lowest_terms_minimal(p: int, q: int, n: int, d: int)
    requires
        q > 0,
        d > 0,
        gcd(magnitude(p), q as nat) == 1,
        n * q == p * d,
    ensures
        q <= d,
        magnitude(p) <= magnitude(n),
{
    let (s0, t) = lemma_bezout(magnitude(p), q as nat);
    let s = if p < 0 {
        -s0
    } else {
        s0
    };
    assert(s * p + t * q == 1) by (nonlinear_arith)
        requires
            s0 * magnitude(p) + t * q == 1,
            s == if p < 0 {
                -s0
            } else {
                s0
            },
            magnitude(p) == if p < 0 {
                -p
            } else {
                p
            },
    ;
    let k = s * n + t * d;
    assert(d == q * k) by (nonlinear_arith)
        requires
            s * p + t * q == 1,
            n * q == p * d,
            k == s * n + t * d,
    ;
    assert(k >= 1) by (nonlinear_arith)
        requires
            d == q * k,
            q > 0,
            d > 0,
    ;
    assert(q <= d) by (nonlinear_arith)
        requires
            d == q * k,
            k >= 1,
            q > 0,
    ;
    assert(n == p * k) by (nonlinear_arith)
        requires
            n * q == p * d,
            d == q * k,
            q > 0,
    ;
    assert(magnitude(p) <= magnitude(n)) by (nonlinear_arith)
        requires
            n == p * k,
            k >= 1,
            magnitude(p) == if p < 0 {
                -p
            } else {
                p
            },
            magnitude(n) == if n < 0 {
                -n
            } else {
                n
            },
    ;
}

/// The greatest common divisor, by Euclid's algorithm.
pub fn gcd_u128(a: u128, b: u128) -> (g: u128)
    ensures
        g == gcd(a as nat, b as nat),
{
    let mut x: u128 = a;
    let mut y: u128 = b;
    while y != 0
        invariant
            gcd(x as nat, y as nat) == gcd(a as nat, b as nat),
        decreases y,
    {
        let r: u128 = x % y;
        x = y;
        y = r;
    }
    x
}

} // verus!
