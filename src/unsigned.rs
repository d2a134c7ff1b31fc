//! Non-negative fractions: `UFrac` (a numerator over a positive denominator),
//! the zero singleton `UF0`, and `UnsignedRational`, which is either.
//!
//! A value is viewed as the pair `(numerator, denominator)`; the zero singleton
//! is viewed as `(0, 1)`. Every operation returns the canonical form of the
//! exact result: the zero singleton, or a fraction in lowest terms.
use crate::natural::{
    gcd, gcd_u64, lemma_gcd_commutative, lemma_gcd_divides, lemma_lowest_terms, lemma_lowest_terms_unique,
    lemma_lowest_terms_zero, lemma_pow_positive, lowest_terms, pow_nat, pow_u64,
};
use core::cmp::Ordering;
use vstd::prelude::*;

verus! {

/// A coprime pair with a positive denominator.
pub open spec fn is_lowest(x: (nat, nat)) -> bool {
    x.1 > 0 && gcd(x.0, x.1) == 1
}

/// How the value `x.0 / x.1` orders against `y.0 / y.1` (both denominators
/// positive), by cross-multiplication.
pub open spec fn cmp_value(x: (nat, nat), y: (nat, nat)) -> Ordering {
    if x.0 * y.1 < y.0 * x.1 {
        Ordering::Less
    } else if x.0 * y.1 == y.0 * x.1 {
        Ordering::Equal
    } else {
        Ordering::Greater
    }
}

/// Canonical form of `x.0 / x.1`.
pub open spec fn trim_value(x: (nat, nat)) -> (nat, nat) {
    lowest_terms(x.0, x.1)
}

/// Canonical form of `x + y`.
pub open spec fn add_value(x: (nat, nat), y: (nat, nat)) -> (nat, nat) {
    lowest_terms(x.0 * y.1 + y.0 * x.1, x.1 * y.1)
}

/// Canonical form of `x - y`, for `x >= y`.
pub open spec fn sub_value(x: (nat, nat), y: (nat, nat)) -> (nat, nat) {
    lowest_terms((x.0 * y.1 - y.0 * x.1) as nat, x.1 * y.1)
}

/// Canonical form of `x * y`.
pub open spec fn mul_value(x: (nat, nat), y: (nat, nat)) -> (nat, nat) {
    lowest_terms(x.0 * y.0, x.1 * y.1)
}

/// Canonical form of `x / y`, for `y` non-zero.
pub open spec fn div_value(x: (nat, nat), y: (nat, nat)) -> (nat, nat) {
    lowest_terms(x.0 * y.1, x.1 * y.0)
}

/// The two numerators and the denominator of `x` and `y` brought over their
/// least common denominator: `g = gcd(x.1, y.1)`, the denominator is
/// `(x.1 / g) * y.1`, the numerators `x.0 * (y.1 / g)` and `y.0 * (x.1 / g)`.
pub open spec fn lcd_terms(x: (nat, nat), y: (nat, nat)) -> (nat, nat, nat) {
    let g = gcd(x.1, y.1);
    (x.0 * (y.1 / g), y.0 * (x.1 / g), (x.1 / g) * y.1)
}

/// The sum over the least common denominator fits in 64 bits.
pub open spec fn lcd_add_fits(x: (nat, nat), y: (nat, nat)) -> bool {
    let t = lcd_terms(x, y);
    t.0 + t.1 <= u64::MAX && t.2 <= u64::MAX
}

/// Both numerators and the least common denominator fit in 64 bits.
pub open spec fn lcd_sub_fits(x: (nat, nat), y: (nat, nat)) -> bool {
    let t = lcd_terms(x, y);
    t.0 <= u64::MAX && t.1 <= u64::MAX && t.2 <= u64::MAX
}

/// The unreduced product fits in 64 bits.
pub open spec fn mul_fits(x: (nat, nat), y: (nat, nat)) -> bool {
    x.0 * y.0 <= u64::MAX && x.1 * y.1 <= u64::MAX
}

/// The unreduced quotient fits in 64 bits.
pub open spec fn div_fits(x: (nat, nat), y: (nat, nat)) -> bool {
    x.0 * y.1 <= u64::MAX && x.1 * y.0 <= u64::MAX
}

/// Bringing two fractions over their least common denominator keeps their
/// values: each term is the cross product divided by `g`.
pub proof fn lemma_lcd_terms(x: (nat, nat), y: (nat, nat))
    requires
        x.1 > 0,
        y.1 > 0,
    ensures
        ({
            let t = lcd_terms(x, y);
            let g = gcd(x.1, y.1);
            &&& g > 0
            &&& g * t.0 == x.0 * y.1
            &&& g * t.1 == y.0 * x.1
            &&& g * t.2 == x.1 * y.1
            &&& t.2 > 0
            &&& (t.0 < t.1 <==> x.0 * y.1 < y.0 * x.1)
            &&& (t.0 == t.1 <==> x.0 * y.1 == y.0 * x.1)
            &&& lowest_terms(t.0 + t.1, t.2) == add_value(x, y)
            &&& t.0 >= t.1 ==> lowest_terms((t.0 - t.1) as nat, t.2) == sub_value(x, y)
        }),
{
    let t = lcd_terms(x, y);
    let g = gcd(x.1, y.1);
    lemma_gcd_divides(x.1, y.1);
    let p = x.1 / g;
    let q = y.1 / g;
    assert(x.1 == g * p && y.1 == g * q) by {
        vstd::arithmetic::div_mod::lemma_fundamental_div_mod(x.1 as int, g as int);
        vstd::arithmetic::div_mod::lemma_fundamental_div_mod(y.1 as int, g as int);
    }
    assert(g * t.0 == x.0 * y.1 && g * t.1 == y.0 * x.1 && g * t.2 == x.1 * y.1 && t.2 > 0)
        by (nonlinear_arith)
        requires
            x.1 == g * p,
            y.1 == g * q,
            t.0 == x.0 * q,
            t.1 == y.0 * p,
            t.2 == p * y.1,
            g > 0,
            x.1 > 0,
            y.1 > 0,
    ;
    assert((t.0 < t.1 <==> x.0 * y.1 < y.0 * x.1) && (t.0 == t.1 <==> x.0 * y.1 == y.0 * x.1))
        by (nonlinear_arith)
        requires
            g * t.0 == x.0 * y.1,
            g * t.1 == y.0 * x.1,
            g > 0,
    ;
    let s = x.0 * y.1 + y.0 * x.1;
    assert((t.0 + t.1) * (x.1 * y.1) == s * t.2) by (nonlinear_arith)
        requires
            g * t.0 == x.0 * y.1,
            g * t.1 == y.0 * x.1,
            g * t.2 == x.1 * y.1,
            s == x.0 * y.1 + y.0 * x.1,
            g > 0,
    ;
    assert(x.1 * y.1 > 0) by (nonlinear_arith)
        requires
            x.1 > 0,
            y.1 > 0,
    ;
    lemma_lowest_terms_unique((t.0 + t.1) as nat, t.2, s as nat, x.1 * y.1);
    if t.0 >= t.1 {
        let e = (x.0 * y.1 - y.0 * x.1) as nat;
        assert(((t.0 - t.1) as nat) * (x.1 * y.1) == e * t.2) by (nonlinear_arith)
            requires
                g * t.0 == x.0 * y.1,
                g * t.1 == y.0 * x.1,
                g * t.2 == x.1 * y.1,
                e == x.0 * y.1 - y.0 * x.1,
                t.0 >= t.1,
                g > 0,
        ;
        lemma_lowest_terms_unique((t.0 - t.1) as nat, t.2, e, x.1 * y.1);
    }
}

/// Cross products that fit in 64 bits bound the terms over the least common
/// denominator, which are no larger.
pub proof fn lemma_lcd_fits_from_cross_products(x: (nat, nat), y: (nat, nat))
    requires
        x.1 > 0,
        y.1 > 0,
    ensures
        x.0 * y.1 + y.0 * x.1 <= u64::MAX && x.1 * y.1 <= u64::MAX ==> lcd_add_fits(x, y),
        x.0 * y.1 <= u64::MAX && y.0 * x.1 <= u64::MAX && x.1 * y.1 <= u64::MAX ==> lcd_sub_fits(
            x,
            y,
        ),
{
    lemma_lcd_terms(x, y);
    let t = lcd_terms(x, y);
    let g = gcd(x.1, y.1);
    assert(t.0 <= x.0 * y.1 && t.1 <= y.0 * x.1 && t.2 <= x.1 * y.1) by (nonlinear_arith)
        requires
            g * t.0 == x.0 * y.1,
            g * t.1 == y.0 * x.1,
            g * t.2 == x.1 * y.1,
            g > 0,
    ;
}

/// The least common denominator terms of `y` and `x` are those of `x` and
/// `y` with the numerators swapped.
pub proof fn lemma_lcd_terms_swap(x: (nat, nat), y: (nat, nat))
    requires
        x.1 > 0,
        y.1 > 0,
    ensures
        lcd_terms(y, x) == (lcd_terms(x, y).1, lcd_terms(x, y).0, lcd_terms(x, y).2),
{
    let g = gcd(x.1, y.1);
    lemma_gcd_commutative(x.1, y.1);
    lemma_gcd_divides(x.1, y.1);
    let p = x.1 / g;
    let q = y.1 / g;
    assert(x.1 == g * p && y.1 == g * q) by {
        vstd::arithmetic::div_mod::lemma_fundamental_div_mod(x.1 as int, g as int);
        vstd::arithmetic::div_mod::lemma_fundamental_div_mod(y.1 as int, g as int);
    }
    assert(p * y.1 == q * x.1) by (nonlinear_arith)
        requires
            x.1 == g * p,
            y.1 == g * q,
    ;
}

/// Non-negative fraction `n / d` with a positive denominator.
///
/// Arithmetic accepts any such pair and returns canonical values: a fraction
/// with a zero numerator stands only in intermediate steps, and trims to `UF0`.
#[derive(Clone, Copy, Debug, PartialEq, Eq, Structural, Hash)]
pub struct UFrac {
    n: u64,
    d: u64,
}

impl View for UFrac {
    type V = (nat, nat);

    closed spec fn view(&self) -> (nat, nat) {
        (self.n as nat, self.d as nat)
    }
}

/// The unsigned zero fraction.
#[derive(Clone, Copy, Debug, PartialEq, Eq, Structural, Hash)]
pub struct UF0;

impl View for UF0 {
    type V = (nat, nat);

    open spec fn view(&self) -> (nat, nat) {
        (0nat, 1nat)
    }
}

/// A non-negative rational: the zero singleton or a fraction.
#[derive(Clone, Copy, Debug, PartialEq, Eq, Structural, Hash)]
pub enum UnsignedRational {
    Zero(UF0),
    Frac(UFrac),
}

impl View for UnsignedRational {
    type V = (nat, nat);

    open spec fn view(&self) -> (nat, nat) {
        match self {
            UnsignedRational::Zero(z) => z@,
            UnsignedRational::Frac(f) => f@,
        }
    }
}

impl UFrac {
    /// The denominator is positive.
    pub open spec fn wf(self) -> bool {
        self@.1 > 0
    }

    /// A non-zero fraction in lowest terms.
    pub open spec fn is_canonical(self) -> bool {
        self@.0 > 0 && is_lowest(self@)
    }

    /// The fraction `n / d`, as given.
    pub fn new(n: u64, d: u64) -> (r: UFrac)
        requires
            d > 0,
        ensures
            r@ == (n as nat, d as nat),
            r.wf(),
    {
        UFrac { n, d }
    }

    pub fn numer(&self) -> (r: u64)
        ensures
            r == self@.0,
    {
        self.n
    }

    pub fn denom(&self) -> (r: u64)
        ensures
            r == self@.1,
    {
        self.d
    }

    /// Lowest terms of a fraction with a non-zero numerator.
    pub fn reduced(self) -> (r: UFrac)
        requires
            self.wf(),
            self@.0 > 0,
        ensures
            r.is_canonical(),
            r@ == trim_value(self@),
    {
        proof {
            lemma_gcd_divides(self.n as nat, self.d as nat);
            lemma_lowest_terms(self.n as nat, self.d as nat);
        }
        let g = gcd_u64(self.n, self.d);
        UFrac { n: self.n / g, d: self.d / g }
    }

    /// Canonical form: `UF0` for a zero numerator, else lowest terms.
    pub fn trim(self) -> (r: UnsignedRational)
        requires
            self.wf(),
        ensures
            r.is_canonical(),
            r@ == trim_value(self@),
    {
        if self.n == 0 {
            proof {
                lemma_lowest_terms_zero(self.d as nat);
            }
            UnsignedRational::Zero(UF0)
        } else {
            UnsignedRational::Frac(self.reduced())
        }
    }

    /// Order of the two values, by cross-multiplication.
    pub fn compare(&self, rhs: &UFrac) -> (r: Ordering)
        requires
            self.wf(),
            rhs.wf(),
        ensures
            r == cmp_value(self@, rhs@),
    {
        proof {
            assert(self.n * rhs.d <= u128::MAX && rhs.n * self.d <= u128::MAX) by (nonlinear_arith)
                requires
                    self.n <= u64::MAX,
                    self.d <= u64::MAX,
                    rhs.n <= u64::MAX,
                    rhs.d <= u64::MAX,
            ;
        }
        let l: u128 = (self.n as u128) * (rhs.d as u128);
        let r: u128 = (rhs.n as u128) * (self.d as u128);
        if l < r {
            Ordering::Less
        } else if l == r {
            Ordering::Equal
        } else {
            Ordering::Greater
        }
    }

    /// The numerators and denominator of `self` and `rhs` over their least
    /// common denominator.
    fn lcd(&self, rhs: &UFrac) -> (r: (u64, u64, u64))
        requires
            self.wf(),
            rhs.wf(),
            lcd_sub_fits(self@, rhs@),
        ensures
            (r.0 as nat, r.1 as nat, r.2 as nat) == lcd_terms(self@, rhs@),
    {
        proof {
            lemma_gcd_divides(self.d as nat, rhs.d as nat);
        }
        let g = gcd_u64(self.d, rhs.d);
        (self.n * (rhs.d / g), rhs.n * (self.d / g), (self.d / g) * rhs.d)
    }

    /// `self + rhs` over the least common denominator, before trimming.
    pub(crate) fn lcd_sum(&self, rhs: &UFrac) -> (r: UFrac)
        requires
            self.wf(),
            rhs.wf(),
            lcd_add_fits(self@, rhs@),
        ensures
            r.wf(),
            trim_value(r@) == add_value(self@, rhs@),
            r@.0 > 0 <==> (self@.0 > 0 || rhs@.0 > 0),
    {
        proof {
            lemma_lcd_terms(self@, rhs@);
            let g = gcd(self.d as nat, rhs.d as nat);
            let t = lcd_terms(self@, rhs@);
            assert((t.0 > 0 <==> self.n > 0) && (t.1 > 0 <==> rhs.n > 0)) by (nonlinear_arith)
                requires
                    g * t.0 == self.n * rhs.d,
                    g * t.1 == rhs.n * self.d,
                    g > 0,
                    self.d > 0,
                    rhs.d > 0,
            ;
        }
        let (a, b, l) = self.lcd(rhs);
        UFrac { n: a + b, d: l }
    }

    /// `self - rhs` over the least common denominator, before trimming.
    pub(crate) fn lcd_difference(&self, rhs: &UFrac) -> (r: UFrac)
        requires
            self.wf(),
            rhs.wf(),
            cmp_value(self@, rhs@) != Ordering::Less,
            lcd_sub_fits(self@, rhs@),
        ensures
            r.wf(),
            trim_value(r@) == sub_value(self@, rhs@),
            r@.0 > 0 <==> cmp_value(self@, rhs@) == Ordering::Greater,
    {
        proof {
            lemma_lcd_terms(self@, rhs@);
        }
        let (a, b, l) = self.lcd(rhs);
        UFrac { n: a - b, d: l }
    }

    /// `self + rhs`, in canonical form.
    pub fn add(self, rhs: UFrac) -> (r: UnsignedRational)
        requires
            self.wf(),
            rhs.wf(),
            lcd_add_fits(self@, rhs@),
        ensures
            r.is_canonical(),
            r@ == add_value(self@, rhs@),
    {
        self.lcd_sum(&rhs).trim()
    }

    /// `self - rhs`, in canonical form, where `self` is not less than `rhs`.
    pub fn sub(self, rhs: UFrac) -> (r: UnsignedRational)
        requires
            self.wf(),
            rhs.wf(),
            cmp_value(self@, rhs@) != Ordering::Less,
            lcd_sub_fits(self@, rhs@),
        ensures
            r.is_canonical(),
            r@ == sub_value(self@, rhs@),
    {
        self.lcd_difference(&rhs).trim()
    }

    /// `self * rhs`, before trimming.
    pub(crate) fn product(&self, rhs: &UFrac) -> (r: UFrac)
        requires
            self.wf(),
            rhs.wf(),
            mul_fits(self@, rhs@),
        ensures
            r.wf(),
            r@ == (self@.0 * rhs@.0, self@.1 * rhs@.1),
    {
        proof {
            assert(self.d * rhs.d > 0) by (nonlinear_arith)
                requires
                    self.d > 0,
                    rhs.d > 0,
            ;
        }
        UFrac { n: self.n * rhs.n, d: self.d * rhs.d }
    }

    /// `self * rhs`, in canonical form.
    pub fn mul(self, rhs: UFrac) -> (r: UnsignedRational)
        requires
            self.wf(),
            rhs.wf(),
            mul_fits(self@, rhs@),
        ensures
            r.is_canonical(),
            r@ == mul_value(self@, rhs@),
    {
        self.product(&rhs).trim()
    }

    /// `d / n` for a non-zero `n / d`.
    pub fn reciprocal(self) -> (r: UFrac)
        requires
            self.wf(),
            self@.0 > 0,
        ensures
            r.wf(),
            r@ == (self@.1, self@.0),
    {
        UFrac { n: self.d, d: self.n }
    }

    /// `self / rhs` for a non-zero `rhs`: `self` times the reciprocal of `rhs`.
    pub fn div(self, rhs: UFrac) -> (r: UnsignedRational)
        requires
            self.wf(),
            rhs.wf(),
            rhs@.0 > 0,
            div_fits(self@, rhs@),
        ensures
            r.is_canonical(),
            r@ == div_value(self@, rhs@),
    {
        self.mul(rhs.reciprocal())
    }

    /// `self` raised to the power `k`: numerator and denominator each raised
    /// to `k`, so that any fraction to the power 0 is `1 / 1`.
    pub fn powi(self, k: u32) -> (r: UFrac)
        requires
            self.wf(),
            pow_nat(self@.0, k as nat) <= u64::MAX,
            pow_nat(self@.1, k as nat) <= u64::MAX,
        ensures
            r.wf(),
            r@ == (pow_nat(self@.0, k as nat), pow_nat(self@.1, k as nat)),
    {
        proof {
            lemma_pow_positive(self.d as nat, k as nat);
        }
        UFrac { n: pow_u64(self.n, k), d: pow_u64(self.d, k) }
    }
}

impl UF0 {
    /// The unsigned zero.
    pub fn new() -> (r: UF0)
        ensures
            r@ == (0nat, 1nat),
    {
        UF0
    }

    /// Zero is already canonical.
    pub fn trim(self) -> (r: UF0)
        ensures
            r == self,
    {
        self
    }
}

impl UnsignedRational {
    /// A fraction operand has a positive denominator.
    pub open spec fn wf(self) -> bool {
        match self {
            UnsignedRational::Zero(_) => true,
            UnsignedRational::Frac(f) => f.wf(),
        }
    }

    /// The zero singleton, or a non-zero fraction in lowest terms.
    pub open spec fn is_canonical(self) -> bool {
        match self {
            UnsignedRational::Zero(_) => true,
            UnsignedRational::Frac(f) => f.is_canonical(),
        }
    }

    /// `self + rhs` can be computed in 64 bits.
    pub open spec fn add_fits(self, rhs: UnsignedRational) -> bool {
        match (self, rhs) {
            (UnsignedRational::Frac(a), UnsignedRational::Frac(b)) => lcd_add_fits(a@, b@),
            _ => true,
        }
    }

    /// `self - rhs` can be computed in 64 bits.
    pub open spec fn sub_fits(self, rhs: UnsignedRational) -> bool {
        match (self, rhs) {
            (UnsignedRational::Frac(a), UnsignedRational::Frac(b)) => lcd_sub_fits(a@, b@),
            _ => true,
        }
    }

    /// `self * rhs` can be computed in 64 bits.
    pub open spec fn mul_fits(self, rhs: UnsignedRational) -> bool {
        match (self, rhs) {
            (UnsignedRational::Frac(a), UnsignedRational::Frac(b)) => mul_fits(a@, b@),
            _ => true,
        }
    }

    /// `self / rhs` can be computed in 64 bits.
    pub open spec fn div_fits(self, rhs: UnsignedRational) -> bool {
        match (self, rhs) {
            (UnsignedRational::Frac(a), UnsignedRational::Frac(b)) => div_fits(a@, b@),
            _ => true,
        }
    }

    /// Canonical form of the value.
    pub fn trim(self) -> (r: UnsignedRational)
        requires
            self.wf(),
        ensures
            r.is_canonical(),
            r@ == trim_value(self@),
    {
        match self {
            UnsignedRational::Zero(z) => {
                proof {
                    lemma_lowest_terms_zero(1);
                }
                UnsignedRational::Zero(z.trim())
            },
            UnsignedRational::Frac(f) => f.trim(),
        }
    }

    /// Order of the two values; zero is below every non-zero fraction.
    pub fn compare(&self, rhs: &UnsignedRational) -> (r: Ordering)
        requires
            self.wf(),
            rhs.wf(),
        ensures
            r == cmp_value(self@, rhs@),
    {
        match (self, rhs) {
            (UnsignedRational::Zero(_), UnsignedRational::Zero(_)) => Ordering::Equal,
            (UnsignedRational::Zero(_), UnsignedRational::Frac(b)) => {
                assert(0 * b@.1 == 0 && b@.0 * 1 == b@.0);
                if b.numer() == 0 {
                    Ordering::Equal
                } else {
                    Ordering::Less
                }
            },
            (UnsignedRational::Frac(a), UnsignedRational::Zero(_)) => {
                assert(0 * a@.1 == 0 && a@.0 * 1 == a@.0);
                if a.numer() == 0 {
                    Ordering::Equal
                } else {
                    Ordering::Greater
                }
            },
            (UnsignedRational::Frac(a), UnsignedRational::Frac(b)) => a.compare(b),
        }
    }

    /// `self + rhs`, in canonical form; zero is the identity.
    pub fn add(self, rhs: UnsignedRational) -> (r: UnsignedRational)
        requires
            self.wf(),
            rhs.wf(),
            self.add_fits(rhs),
        ensures
            r.is_canonical(),
            r@ == add_value(self@, rhs@),
    {
        match (self, rhs) {
            (UnsignedRational::Zero(_), _) => rhs.trim(),
            (_, UnsignedRational::Zero(_)) => self.trim(),
            (UnsignedRational::Frac(a), UnsignedRational::Frac(b)) => a.add(b),
        }
    }

    /// `self - rhs`, in canonical form, where `self` is not less than `rhs`.
    pub fn sub(self, rhs: UnsignedRational) -> (r: UnsignedRational)
        requires
            self.wf(),
            rhs.wf(),
            cmp_value(self@, rhs@) != Ordering::Less,
            self.sub_fits(rhs),
        ensures
            r.is_canonical(),
            r@ == sub_value(self@, rhs@),
    {
        match (self, rhs) {
            (_, UnsignedRational::Zero(_)) => {
                assert(self@.0 * 1 == self@.0 && 0 * self@.1 == 0 && self@.1 * 1 == self@.1);
                assert(((self@.0 * 1 - 0 * self@.1) as nat) == self@.0);
                self.trim()
            },
            (UnsignedRational::Zero(z), UnsignedRational::Frac(b)) => {
                proof {
                    assert(0 * b@.1 == 0 && b@.0 * 1 == b@.0 && 1 * b@.1 == b@.1);
                    lemma_lowest_terms_zero(b@.1);
                }
                UnsignedRational::Zero(z)
            },
            (UnsignedRational::Frac(a), UnsignedRational::Frac(b)) => a.sub(b),
        }
    }

    /// `self * rhs`, in canonical form; zero absorbs.
    pub fn mul(self, rhs: UnsignedRational) -> (r: UnsignedRational)
        requires
            self.wf(),
            rhs.wf(),
            self.mul_fits(rhs),
        ensures
            r.is_canonical(),
            r@ == mul_value(self@, rhs@),
    {
        match (self, rhs) {
            (UnsignedRational::Zero(z), _) => {
                proof {
                    lemma_lowest_terms_zero(rhs@.1);
                }
                UnsignedRational::Zero(z)
            },
            (_, UnsignedRational::Zero(z)) => {
                proof {
                    lemma_lowest_terms_zero(self@.1);
                }
                UnsignedRational::Zero(z)
            },
            (UnsignedRational::Frac(a), UnsignedRational::Frac(b)) => a.mul(b),
        }
    }

    /// `self / rhs`, in canonical form, for a non-zero `rhs`.
    pub fn div(self, rhs: UFrac) -> (r: UnsignedRational)
        requires
            self.wf(),
            rhs.wf(),
            rhs@.0 > 0,
            self.div_fits(UnsignedRational::Frac(rhs)),
        ensures
            r.is_canonical(),
            r@ == div_value(self@, rhs@),
    {
        match self {
            UnsignedRational::Zero(z) => {
                proof {
                    lemma_lowest_terms_zero(rhs@.0);
                }
                UnsignedRational::Zero(z)
            },
            UnsignedRational::Frac(a) => a.div(rhs),
        }
    }
}

/// Canonical unsigned values of equal value are identical: the zero
/// singleton, or the same numerator and denominator.
pub proof fn lemma_canonical_unique(a: UnsignedRational, b: UnsignedRational)
    requires
        a.is_canonical(),
        b.is_canonical(),
        a@.0 * b@.1 == b@.0 * a@.1,
    ensures
        a == b,
{
    match (a, b) {
        (UnsignedRational::Frac(f), UnsignedRational::Frac(g)) => {
            crate::natural::lemma_coprime_unique(f@.0, f@.1, g@.0, g@.1);
        },
        (UnsignedRational::Zero(_), UnsignedRational::Frac(g)) => {
            assert(0 * g@.1 == 0 && g@.0 * 1 == g@.0);
        },
        (UnsignedRational::Frac(f), UnsignedRational::Zero(_)) => {
            assert(0 * f@.1 == 0 && f@.0 * 1 == f@.0);
        },
        _ => {},
    }
}

} // verus!
