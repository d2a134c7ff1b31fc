//! Signed fractions: `PFrac` and `NFrac` wrap a non-zero unsigned magnitude
//! with a sign, `F0` is the signed zero, and `Rational` is any of the three.
//!
//! A value is viewed as the pair `(numerator, denominator)` with the sign on
//! the numerator; the zero singleton is viewed as `(0, 1)`. Every operation
//! returns the canonical form of the exact result.
use crate::natural::{gcd, lemma_lowest_terms, lemma_lowest_terms_zero, lowest_terms};
use crate::unsigned::{
    div_fits, is_lowest, lcd_add_fits, lcd_sub_fits, lemma_lcd_terms_swap, mul_fits, UFrac,
};
use core::cmp::Ordering;
use vstd::prelude::*;

verus! {

/// Absolute value.
pub open spec fn abs(n: int) -> nat {
    if n < 0 {
        (-n) as nat
    } else {
        n as nat
    }
}

/// The magnitude of a signed value: `(|n|, d)`.
pub open spec fn magnitude(x: (int, nat)) -> (nat, nat) {
    (abs(x.0), x.1)
}

/// The signed value `n / d` in lowest terms, the sign kept on the numerator.
pub open spec fn signed_lowest_terms(n: int, d: nat) -> (int, nat) {
    let m = lowest_terms(abs(n), d);
    (if n < 0 { -(m.0 as int) } else { m.0 as int }, m.1)
}

/// Canonical form of `x.0 / x.1`.
pub open spec fn signed_trim(x: (int, nat)) -> (int, nat) {
    signed_lowest_terms(x.0, x.1)
}

/// How `x` orders against `y` (both denominators positive).
pub open spec fn signed_cmp(x: (int, nat), y: (int, nat)) -> Ordering {
    if x.0 * y.1 < y.0 * x.1 {
        Ordering::Less
    } else if x.0 * y.1 == y.0 * x.1 {
        Ordering::Equal
    } else {
        Ordering::Greater
    }
}

/// `-x`.
pub open spec fn signed_neg(x: (int, nat)) -> (int, nat) {
    (-x.0, x.1)
}

/// Canonical form of `x + y`.
pub open spec fn signed_add(x: (int, nat), y: (int, nat)) -> (int, nat) {
    signed_lowest_terms(x.0 * y.1 + y.0 * x.1, x.1 * y.1)
}

/// Canonical form of `x - y`.
pub open spec fn signed_sub(x: (int, nat), y: (int, nat)) -> (int, nat) {
    signed_lowest_terms(x.0 * y.1 - y.0 * x.1, x.1 * y.1)
}

/// Canonical form of `x * y`.
pub open spec fn signed_mul(x: (int, nat), y: (int, nat)) -> (int, nat) {
    signed_lowest_terms(x.0 * y.0, x.1 * y.1)
}

/// Canonical form of `x / y`, for `y` non-zero.
pub open spec fn signed_div(x: (int, nat), y: (int, nat)) -> (int, nat) {
    signed_lowest_terms(
        if y.0 < 0 {
            -(x.0 * y.1)
        } else {
            x.0 * y.1
        },
        x.1 * abs(y.0),
    )
}

/// A signed value in lowest terms.
pub open spec fn is_signed_lowest(x: (int, nat)) -> bool {
    is_lowest(magnitude(x))
}

/// `x + y` can be computed in 64 bits: magnitudes of equal sign are added,
/// magnitudes of opposite sign are subtracted.
pub open spec fn signed_add_fits(x: (int, nat), y: (int, nat)) -> bool {
    if x.0 == 0 || y.0 == 0 {
        true
    } else if (x.0 > 0) == (y.0 > 0) {
        lcd_add_fits(magnitude(x), magnitude(y))
    } else {
        lcd_sub_fits(magnitude(x), magnitude(y))
    }
}

/// `x * y` can be computed in 64 bits.
pub open spec fn signed_mul_fits(x: (int, nat), y: (int, nat)) -> bool {
    x.0 == 0 || y.0 == 0 || mul_fits(magnitude(x), magnitude(y))
}

/// `x / y` can be computed in 64 bits.
pub open spec fn signed_div_fits(x: (int, nat), y: (int, nat)) -> bool {
    x.0 == 0 || div_fits(magnitude(x), magnitude(y))
}

/// The signed lowest terms of `n / d` are coprime, have the sign of `n`, and
/// keep the value.
pub proof fn lemma_signed_lowest_terms(n: int, d: nat)
    requires
        d > 0,
    ensures
        is_signed_lowest(signed_lowest_terms(n, d)),
        signed_lowest_terms(n, d).0 * d == n * signed_lowest_terms(n, d).1,
        signed_lowest_terms(n, d).0 == 0 <==> n == 0,
        signed_lowest_terms(n, d).0 < 0 <==> n < 0,
{
    lemma_lowest_terms(abs(n), d);
    let m = lowest_terms(abs(n), d);
    assert(abs(-(m.0 as int)) == m.0);
    if n < 0 {
        assert(-(m.0 as int) * d == n * m.1) by (nonlinear_arith)
            requires
                m.0 * d == abs(n) * m.1,
                n < 0,
                abs(n) == -n,
        ;
    }
}

/// Signed pairs of equal value have the same signed lowest terms.
pub proof fn lemma_signed_lowest_terms_unique(n1: int, d1: nat, n2: int, d2: nat)
    requires
        d1 > 0,
        d2 > 0,
        n1 * d2 == n2 * d1,
    ensures
        signed_lowest_terms(n1, d1) == signed_lowest_terms(n2, d2),
{
    assert((n1 < 0 <==> n2 < 0) && abs(n1) * d2 == abs(n2) * d1) by (nonlinear_arith)
        requires
            d1 > 0,
            d2 > 0,
            n1 * d2 == n2 * d1,
            abs(n1) == if n1 < 0 { -n1 } else { n1 },
            abs(n2) == if n2 < 0 { -n2 } else { n2 },
    ;
    crate::natural::lemma_lowest_terms_unique(abs(n1), d1, abs(n2), d2);
}

/// Positive fraction: a non-zero magnitude.
#[derive(Clone, Copy, Debug, PartialEq, Eq, Structural, Hash)]
pub struct PFrac(UFrac);

/// Negative fraction: the negation of a non-zero magnitude.
#[derive(Clone, Copy, Debug, PartialEq, Eq, Structural, Hash)]
pub struct NFrac(UFrac);

/// The signed zero fraction.
#[derive(Clone, Copy, Debug, PartialEq, Eq, Structural, Hash)]
pub struct F0;

/// A signed rational: zero, positive or negative.
#[derive(Clone, Copy, Debug, PartialEq, Eq, Structural, Hash)]
pub enum Rational {
    Zero(F0),
    Pos(PFrac),
    Neg(NFrac),
}

impl View for PFrac {
    type V = (int, nat);

    closed spec fn view(&self) -> (int, nat) {
        (self.0@.0 as int, self.0@.1)
    }
}

impl View for NFrac {
    type V = (int, nat);

    closed spec fn view(&self) -> (int, nat) {
        (-(self.0@.0 as int), self.0@.1)
    }
}

impl View for F0 {
    type V = (int, nat);

    open spec fn view(&self) -> (int, nat) {
        (0int, 1nat)
    }
}

impl View for Rational {
    type V = (int, nat);

    open spec fn view(&self) -> (int, nat) {
        match self {
            Rational::Zero(z) => z@,
            Rational::Pos(p) => p@,
            Rational::Neg(n) => n@,
        }
    }
}

impl PFrac {
    /// The magnitude is a non-zero fraction.
    pub open spec fn wf(self) -> bool {
        self@.0 > 0 && self@.1 > 0
    }

    /// The magnitude is in lowest terms.
    pub open spec fn is_canonical(self) -> bool {
        self.wf() && is_signed_lowest(self@)
    }

    /// The positive fraction of magnitude `u`.
    pub fn new(u: UFrac) -> (r: PFrac)
        requires
            u.wf(),
            u@.0 > 0,
        ensures
            r.wf(),
            r@ == (u@.0 as int, u@.1),
    {
        PFrac(u)
    }

    pub fn magnitude(&self) -> (r: UFrac)
        requires
            self.wf(),
        ensures
            r.wf(),
            r@.0 > 0,
            r@ == magnitude(self@),
    {
        self.0
    }

    /// The magnitude in lowest terms.
    pub fn trim(self) -> (r: PFrac)
        requires
            self.wf(),
        ensures
            r.is_canonical(),
            r@ == signed_trim(self@),
    {
        PFrac(self.0.reduced())
    }
}

impl NFrac {
    /// The magnitude is a non-zero fraction.
    pub open spec fn wf(self) -> bool {
        self@.0 < 0 && self@.1 > 0
    }

    /// The magnitude is in lowest terms.
    pub open spec fn is_canonical(self) -> bool {
        self.wf() && is_signed_lowest(self@)
    }

    /// The negative fraction of magnitude `u`.
    pub fn new(u: UFrac) -> (r: NFrac)
        requires
            u.wf(),
            u@.0 > 0,
        ensures
            r.wf(),
            r@ == (-(u@.0 as int), u@.1),
    {
        NFrac(u)
    }

    pub fn magnitude(&self) -> (r: UFrac)
        requires
            self.wf(),
        ensures
            r.wf(),
            r@.0 > 0,
            r@ == magnitude(self@),
    {
        self.0
    }

    /// The magnitude in lowest terms.
    pub fn trim(self) -> (r: NFrac)
        requires
            self.wf(),
        ensures
            r.is_canonical(),
            r@ == signed_trim(self@),
    {
        NFrac(self.0.reduced())
    }
}

impl F0 {
    /// The signed zero.
    pub fn new() -> (r: F0)
        ensures
            r@ == (0int, 1nat),
    {
        F0
    }

    /// Zero is already canonical.
    pub fn trim(self) -> (r: F0)
        ensures
            r == self,
    {
        self
    }
}

/// The signed integer `k` as the fraction `k / 1`.
pub fn into_rational(k: i64) -> (r: Rational)
    ensures
        r.is_canonical(),
        r@ == (k as int, 1nat),
{
    proof {
        reveal_with_fuel(gcd, 2);
    }
    if k == 0 {
        Rational::Zero(F0)
    } else if k > 0 {
        Rational::Pos(PFrac(UFrac::new(k as u64, 1)))
    } else {
        let m: u64 = (-(k + 1)) as u64 + 1;
        Rational::Neg(NFrac(UFrac::new(m, 1)))
    }
}

/// `p - n` for non-zero magnitudes `p` and `n`: zero when they are equal,
/// else the difference of the larger and the smaller, with the sign of the
/// larger.
fn private_rational_add(p: UFrac, n: UFrac) -> (r: Rational)
    requires
        p.wf(),
        n.wf(),
        p@.0 > 0,
        n@.0 > 0,
        lcd_sub_fits(p@, n@),
    ensures
        r.is_canonical(),
        r@ == signed_add((p@.0 as int, p@.1), (-(n@.0 as int), n@.1)),
{
    let ghost x = (p@.0 as int, p@.1);
    let ghost y = (-(n@.0 as int), n@.1);
    let ghost num = x.0 * y.1 + y.0 * x.1;
    let ghost den = x.1 * y.1;
    proof {
        assert(num == p@.0 * n@.1 - n@.0 * p@.1) by (nonlinear_arith)
            requires
                num == x.0 * y.1 + y.0 * x.1,
                x == (p@.0 as int, p@.1),
                y == (-(n@.0 as int), n@.1),
        ;
        assert(den == p@.1 * n@.1 && den == n@.1 * p@.1 && den > 0) by (nonlinear_arith)
            requires
                den == x.1 * y.1,
                x.1 == p@.1,
                y.1 == n@.1,
                p@.1 > 0,
                n@.1 > 0,
        ;
    }
    match p.compare(&n) {
        Ordering::Equal => {
            proof {
                lemma_lowest_terms_zero(den as nat);
            }
            Rational::Zero(F0)
        },
        Ordering::Greater => {
            let d = p.lcd_difference(&n);
            proof {
                lemma_lowest_terms(d@.0, d@.1);
            }
            Rational::Pos(PFrac(d.reduced()))
        },
        Ordering::Less => {
            proof {
                lemma_lcd_terms_swap(p@, n@);
            }
            let d = n.lcd_difference(&p);
            proof {
                lemma_lowest_terms(d@.0, d@.1);
            }
            Rational::Neg(NFrac(d.reduced()))
        },
    }
}

impl Rational {
    /// A fraction operand has a non-zero magnitude with a positive denominator.
    pub open spec fn wf(self) -> bool {
        match self {
            Rational::Zero(_) => true,
            Rational::Pos(p) => p.wf(),
            Rational::Neg(n) => n.wf(),
        }
    }

    /// The zero singleton, or a signed fraction in lowest terms.
    pub open spec fn is_canonical(self) -> bool {
        match self {
            Rational::Zero(_) => true,
            Rational::Pos(p) => p.is_canonical(),
            Rational::Neg(n) => n.is_canonical(),
        }
    }

    /// Canonical form of the value.
    pub fn trim(self) -> (r: Rational)
        requires
            self.wf(),
        ensures
            r.is_canonical(),
            r@ == signed_trim(self@),
    {
        match self {
            Rational::Zero(z) => {
                proof {
                    lemma_lowest_terms_zero(1);
                }
                Rational::Zero(z.trim())
            },
            Rational::Pos(p) => Rational::Pos(p.trim()),
            Rational::Neg(n) => Rational::Neg(n.trim()),
        }
    }

    /// Order of the two values: zero lies between the negatives and the
    /// positives, positives order by magnitude, negatives by reversed
    /// magnitude.
    pub fn compare(&self, rhs: &Rational) -> (r: Ordering)
        requires
            self.wf(),
            rhs.wf(),
        ensures
            r == signed_cmp(self@, rhs@),
    {
        let ghost x = self@;
        let ghost y = rhs@;
        proof {
            assert((x.0 * y.1 < 0 <==> x.0 < 0) && (x.0 * y.1 > 0 <==> x.0 > 0)
                && (y.0 * x.1 < 0 <==> y.0 < 0) && (y.0 * x.1 > 0 <==> y.0 > 0))
                by (nonlinear_arith)
                requires
                    x.1 > 0,
                    y.1 > 0,
            ;
        }
        match (self, rhs) {
            (Rational::Zero(_), Rational::Zero(_)) => Ordering::Equal,
            (Rational::Zero(_), Rational::Pos(_)) => Ordering::Less,
            (Rational::Zero(_), Rational::Neg(_)) => Ordering::Greater,
            (Rational::Pos(_), Rational::Zero(_)) => Ordering::Greater,
            (Rational::Neg(_), Rational::Zero(_)) => Ordering::Less,
            (Rational::Pos(_), Rational::Neg(_)) => Ordering::Greater,
            (Rational::Neg(_), Rational::Pos(_)) => Ordering::Less,
            (Rational::Pos(a), Rational::Pos(b)) => a.0.compare(&b.0),
            (Rational::Neg(a), Rational::Neg(b)) => {
                proof {
                    let (a0, a1, b0, b1) = (a.0@.0 as int, a.0@.1 as int, b.0@.0 as int, b.0@.1 as int);
                    assert((-a0) * b1 == -(a0 * b1) && (-b0) * a1 == -(b0 * a1)) by (nonlinear_arith);
                }
                b.0.compare(&a.0)
            },
        }
    }

    /// `-self`.
    pub fn neg(self) -> (r: Rational)
        requires
            self.wf(),
        ensures
            r.wf(),
            r@ == signed_neg(self@),
            self.is_canonical() ==> r.is_canonical(),
    {
        match self {
            Rational::Zero(z) => Rational::Zero(z),
            Rational::Pos(p) => Rational::Neg(NFrac(p.0)),
            Rational::Neg(n) => Rational::Pos(PFrac(n.0)),
        }
    }

    /// `self + rhs`, in canonical form: zero is the identity, equal signs add
    /// magnitudes, opposite signs subtract the smaller magnitude from the
    /// larger and keep the sign of the larger.
    pub fn add(self, rhs: Rational) -> (r: Rational)
        requires
            self.wf(),
            rhs.wf(),
            signed_add_fits(self@, rhs@),
        ensures
            r.is_canonical(),
            r@ == signed_add(self@, rhs@),
    {
        let ghost x = self@;
        let ghost y = rhs@;
        match (self, rhs) {
            (Rational::Zero(_), _) => {
                assert(0 * y.1 + y.0 * 1 == y.0 && 1 * y.1 == y.1);
                rhs.trim()
            },
            (_, Rational::Zero(_)) => {
                assert(x.0 * 1 + 0 * x.1 == x.0 && x.1 * 1 == x.1);
                self.trim()
            },
            (Rational::Pos(a), Rational::Pos(b)) => {
                let s = a.0.lcd_sum(&b.0);
                proof {
                    lemma_lowest_terms(s@.0, s@.1);
                }
                Rational::Pos(PFrac(s.reduced()))
            },
            (Rational::Neg(a), Rational::Neg(b)) => {
                let s = a.0.lcd_sum(&b.0);
                proof {
                    lemma_lowest_terms(s@.0, s@.1);
                    let (a0, a1, b0, b1) = (a.0@.0 as int, a.0@.1 as int, b.0@.0 as int, b.0@.1 as int);
                    assert((-a0) * b1 + (-b0) * a1 == -(a0 * b1 + b0 * a1)) by (nonlinear_arith);
                    assert(a0 * b1 + b0 * a1 > 0) by (nonlinear_arith)
                        requires
                            a0 > 0,
                            a1 > 0,
                            b0 > 0,
                            b1 > 0,
                    ;
                }
                Rational::Neg(NFrac(s.reduced()))
            },
            (Rational::Pos(a), Rational::Neg(b)) => private_rational_add(a.0, b.0),
            (Rational::Neg(a), Rational::Pos(b)) => {
                proof {
                    let (a0, a1, b0, b1) = (a.0@.0 as int, a.0@.1 as int, b.0@.0 as int, b.0@.1 as int);
                    assert(b0 * a1 + (-a0) * b1 == (-a0) * b1 + b0 * a1 && b1 * a1 == a1 * b1)
                        by (nonlinear_arith);
                    lemma_lcd_terms_swap(a.0@, b.0@);
                }
                private_rational_add(b.0, a.0)
            },
        }
    }

    /// `self - rhs`: `self` plus the negation of `rhs`.
    pub fn sub(self, rhs: Rational) -> (r: Rational)
        requires
            self.wf(),
            rhs.wf(),
            signed_add_fits(self@, signed_neg(rhs@)),
        ensures
            r.is_canonical(),
            r@ == signed_sub(self@, rhs@),
    {
        let ghost x = self@;
        let ghost y = rhs@;
        assert(x.0 * y.1 + (-y.0) * x.1 == x.0 * y.1 - y.0 * x.1) by (nonlinear_arith);
        self.add(rhs.neg())
    }

    /// `self * rhs`, in canonical form: zero absorbs, equal signs give a
    /// positive product of magnitudes, opposite signs a negative one.
    pub fn mul(self, rhs: Rational) -> (r: Rational)
        requires
            self.wf(),
            rhs.wf(),
            signed_mul_fits(self@, rhs@),
        ensures
            r.is_canonical(),
            r@ == signed_mul(self@, rhs@),
    {
        let ghost x = self@;
        let ghost y = rhs@;
        proof {
            assert(x.1 * y.1 > 0 && (x.0 * y.0 > 0 <==> (x.0 > 0 && y.0 > 0) || (x.0 < 0 && y.0 < 0))
                && (x.0 * y.0 < 0 <==> (x.0 > 0 && y.0 < 0) || (x.0 < 0 && y.0 > 0)))
                by (nonlinear_arith)
                requires
                    x.1 > 0,
                    y.1 > 0,
            ;
            assert(abs(x.0 * y.0) == abs(x.0) * abs(y.0)) by (nonlinear_arith);
            if x.0 * y.0 == 0 {
                lemma_lowest_terms_zero(x.1 * y.1);
            }
        }
        match (self, rhs) {
            (Rational::Zero(z), _) => Rational::Zero(z),
            (_, Rational::Zero(z)) => Rational::Zero(z),
            (Rational::Pos(a), Rational::Pos(b)) => Rational::Pos(PFrac(a.0.product(&b.0).reduced())),
            (Rational::Neg(a), Rational::Neg(b)) => Rational::Pos(PFrac(a.0.product(&b.0).reduced())),
            (Rational::Pos(a), Rational::Neg(b)) => Rational::Neg(NFrac(a.0.product(&b.0).reduced())),
            (Rational::Neg(a), Rational::Pos(b)) => Rational::Neg(NFrac(a.0.product(&b.0).reduced())),
        }
    }

    /// `self / rhs` for a non-zero `rhs`, in canonical form: `self` times the
    /// reciprocal of `rhs`, with the sign rule of multiplication.
    pub fn div(self, rhs: Rational) -> (r: Rational)
        requires
            self.wf(),
            rhs.wf(),
            rhs@.0 != 0,
            signed_div_fits(self@, rhs@),
        ensures
            r.is_canonical(),
            r@ == signed_div(self@, rhs@),
    {
        let ghost x = self@;
        let ghost y = rhs@;
        let ghost num = if y.0 < 0 { -(x.0 * y.1) } else { x.0 * y.1 };
        proof {
            assert(x.1 * abs(y.0) > 0 && (num > 0 <==> (x.0 > 0 && y.0 > 0) || (x.0 < 0 && y.0 < 0))
                && (num < 0 <==> (x.0 > 0 && y.0 < 0) || (x.0 < 0 && y.0 > 0)) && abs(num) == abs(x.0) * y.1)
                by (nonlinear_arith)
                requires
                    x.1 > 0,
                    y.1 > 0,
                    y.0 != 0,
                    num == if y.0 < 0 { -(x.0 * y.1) } else { x.0 * y.1 },
            ;
            if x.0 == 0 {
                lemma_lowest_terms_zero(x.1 * abs(y.0));
            }
        }
        match (self, rhs) {
            // excluded by the precondition: the divisor is non-zero
            (_, Rational::Zero(_)) => self,
            (Rational::Zero(z), _) => Rational::Zero(z),
            (Rational::Pos(a), Rational::Pos(b)) => Rational::Pos(PFrac(a.0.product(&b.0.reciprocal()).reduced())),
            (Rational::Neg(a), Rational::Neg(b)) => Rational::Pos(PFrac(a.0.product(&b.0.reciprocal()).reduced())),
            (Rational::Pos(a), Rational::Neg(b)) => Rational::Neg(NFrac(a.0.product(&b.0.reciprocal()).reduced())),
            (Rational::Neg(a), Rational::Pos(b)) => Rational::Neg(NFrac(a.0.product(&b.0.reciprocal()).reduced())),
        }
    }
}

/// Canonical signed values of equal value are identical: the zero
/// singleton, or the same sign and magnitude.
pub proof fn lemma_canonical_unique(a: Rational, b: Rational)
    requires
        a.is_canonical(),
        b.is_canonical(),
        a@.0 * b@.1 == b@.0 * a@.1,
    ensures
        a == b,
{
    let (x, y) = (a@, b@);
    assert((x.0 < 0 <==> y.0 < 0) && (x.0 == 0 <==> y.0 == 0) && abs(x.0) * y.1 == abs(y.0) * x.1)
        by (nonlinear_arith)
        requires
            x.1 > 0,
            y.1 > 0,
            x.0 * y.1 == y.0 * x.1,
            abs(x.0) == if x.0 < 0 { -x.0 } else { x.0 },
            abs(y.0) == if y.0 < 0 { -y.0 } else { y.0 },
    ;
    match (a, b) {
        (Rational::Pos(p), Rational::Pos(q)) => {
            crate::natural::lemma_coprime_unique(abs(x.0), x.1, abs(y.0), y.1);
            assert(p.0@ == q.0@);
            crate::unsigned::lemma_canonical_unique(
                crate::unsigned::UnsignedRational::Frac(p.0),
                crate::unsigned::UnsignedRational::Frac(q.0),
            );
        },
        (Rational::Neg(p), Rational::Neg(q)) => {
            crate::natural::lemma_coprime_unique(abs(x.0), x.1, abs(y.0), y.1);
            assert(p.0@ == q.0@);
            crate::unsigned::lemma_canonical_unique(
                crate::unsigned::UnsignedRational::Frac(p.0),
                crate::unsigned::UnsignedRational::Frac(q.0),
            );
        },
        _ => {},
    }
}

} // verus!
