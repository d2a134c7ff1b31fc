//! Exact rational arithmetic on canonical fractions.
//!
//! `natural` holds the integer primitives (greatest common divisor, lowest
//! terms, powers); `unsigned` the non-negative fractions `UFrac` and `UF0`;
//! `signed` the signed fractions `PFrac`, `NFrac` and `F0`; `laws` the
//! algebraic laws that the operations obey.
use vstd::prelude::*;

pub mod laws;
pub mod natural;
pub mod signed;
pub mod unsigned;

pub use signed::{into_rational, NFrac, PFrac, Rational, F0};
pub use unsigned::{UFrac, UnsignedRational, UF0};

verus! {

/// Type equality: `Output` is always `Self`.
pub trait Same<Rhs = Self> {
    type Output;
}

/// The type of `-Self`.
pub trait Neg {
    type Output;
}

/// The type of `Self + Rhs`.
pub trait Add<Rhs = Self> {
    type Output;
}

/// The type of `Self - Rhs`.
pub trait Sub<Rhs = Self> {
    type Output;
}

/// The type of `Self * Rhs`.
pub trait Mul<Rhs = Self> {
    type Output;
}

/// The type of `Self / Rhs`.
pub trait Div<Rhs = Self> {
    type Output;
}

impl Same for UFrac {
    type Output = UFrac;
}

impl Same for UF0 {
    type Output = UF0;
}

impl Same for PFrac {
    type Output = PFrac;
}

impl Same for NFrac {
    type Output = NFrac;
}

impl Same for F0 {
    type Output = F0;
}

impl Neg for PFrac {
    type Output = NFrac;
}

impl Neg for NFrac {
    type Output = PFrac;
}

impl Neg for F0 {
    type Output = F0;
}

impl Neg for Rational {
    type Output = Rational;
}

impl Add for UFrac {
    type Output = UnsignedRational;
}

impl Add for UnsignedRational {
    type Output = UnsignedRational;
}

impl Add for Rational {
    type Output = Rational;
}

impl Sub for UFrac {
    type Output = UnsignedRational;
}

impl Sub for UnsignedRational {
    type Output = UnsignedRational;
}

impl Sub for Rational {
    type Output = Rational;
}

impl Mul for UFrac {
    type Output = UnsignedRational;
}

impl Mul for UnsignedRational {
    type Output = UnsignedRational;
}

impl Mul for Rational {
    type Output = Rational;
}

impl Div for UFrac {
    type Output = UnsignedRational;
}

impl Div<UFrac> for UnsignedRational {
    type Output = UnsignedRational;
}

impl Div for Rational {
    type Output = Rational;
}

} // verus!
