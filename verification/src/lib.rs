//! Two-point calibration of a pH electrode against the temperature curves of
//! the pH 4.01 and pH 10.01 buffer solutions, computed in exact rational
//! arithmetic.
//!
//! Every number is a [`rational::Rational`]: a fraction in lowest terms whose
//! numerator and denominator fit in 64 bits.  A function either returns the
//! exact value of its formula or reports that a value on the way left that
//! range; nothing is rounded, with the one exception of the square root in
//! [`fit::evaluate`], which is taken downwards to a fixed resolution.
//!
//! On readings and temperatures as instruments show them, with a limited
//! number of decimal places, a calibration never leaves that range: see
//! [`domain`].
pub mod curve;
pub mod domain;
pub mod fit;
pub mod gcd;
pub mod rational;
pub mod routines;
pub mod stats;
pub mod two_point;
