//! Natural-number primitives that the fraction layer is built on: the greatest
//! common divisor, lowest terms of a numerator/denominator pair, and powers.
use vstd::arithmetic::div_mod::{lemma_fundamental_div_mod, lemma_fundamental_div_mod_converse};
use vstd::prelude::*;

verus! {

/// Greatest common divisor, by Euclid's algorithm (`gcd(a, 0) == a`).
pub open spec fn gcd(a: nat, b: nat) -> nat
    decreases b,
{
    if b == 0 {
        a
    } else {
        gcd(b, a % b)
    }
}

/// The pair `(n, d)` divided by its greatest common divisor.
pub open spec fn lowest_terms(n: nat, d: nat) -> (nat, nat) {
    (n / gcd(n, d), d / gcd(n, d))
}

/// `n` raised to the power `k` (`pow_nat(n, 0) == 1`).
pub open spec fn pow_nat(n: nat, k: nat) -> nat
    decreases k,
{
    if k == 0 {
        1
    } else {
        n * pow_nat(n, (k - 1) as nat)
    }
}

/// A multiple of `g` plus a multiple of `g` is a multiple of `g`.
proof fn lemma_multiple_combination(g: int, x: int, y: int, m: int)
    requires
        g > 0,
        x % g == 0,
        y % g == 0,
    ensures
        (m * x + y) % g == 0,
{
    lemma_fundamental_div_mod(x, g);
    lemma_fundamental_div_mod(y, g);
    let qx = x / g;
    let qy = y / g;
    assert(m * x + y == (m * qx + qy) * g) by (nonlinear_arith)
        requires
            x == g * qx + 0,
            y == g * qy + 0,
    ;
    lemma_fundamental_div_mod_converse(m * x + y, g, m * qx + qy, 0);
}

/// `g * q` is a multiple of `g`, with quotient `q`.
proof fn lemma_multiple_of(g: int, q: int)
    requires
        g > 0,
    ensures
        (g * q) % g == 0,
        (g * q) / g == q,
{
    assert(g * q == q * g + 0) by (nonlinear_arith);
    lemma_fundamental_div_mod_converse(g * q, g, q, 0);
}

/// The greatest common divisor divides both arguments, and is positive unless
/// both are zero.
pub proof fn lemma_gcd_divides(a: nat, b: nat)
    requires
        a > 0 || b > 0,
    ensures
        gcd(a, b) > 0,
        a % gcd(a, b) == 0,
        b % gcd(a, b) == 0,
    decreases b,
{
    if b == 0 {
        lemma_multiple_of(a as int, 1);
        lemma_multiple_of(a as int, 0);
    } else {
        let r = a % b;
        lemma_gcd_divides(b, r);
        let g = gcd(b, r);
        lemma_fundamental_div_mod(a as int, b as int);
        lemma_multiple_combination(g as int, b as int, r as int, (a / b) as int);
        assert(a == (a / b) * b + r) by (nonlinear_arith)
            requires
                a == b * (a / b) + r,
        ;
    }
}

/// Every common divisor of `a` and `b` divides their greatest common divisor.
pub proof fn lemma_gcd_greatest(a: nat, b: nat, k: nat)
    requires
        k > 0,
        a % k == 0,
        b % k == 0,
    ensures
        gcd(a, b) % k == 0,
    decreases b,
{
    if b != 0 {
        let r = a % b;
        lemma_fundamental_div_mod(a as int, b as int);
        assert(r == (-(a / b)) * b + a) by (nonlinear_arith)
            requires
                a == b * (a / b) + r,
        ;
        lemma_multiple_combination(k as int, b as int, a as int, -(a / b));
        lemma_gcd_greatest(b, r, k);
    }
}

/// Scaling both arguments scales the greatest common divisor.
pub proof fn lemma_gcd_scale(a: nat, b: nat, c: nat)
    requires
        c > 0,
    ensures
        gcd(c * a, c * b) == c * gcd(a, b),
    decreases b,
{
    if b == 0 {
        assert(c * b == 0);
    } else {
        let q = a / b;
        let r = a % b;
        lemma_fundamental_div_mod(a as int, b as int);
        assert(c * b > 0 && c * a == q * (c * b) + c * r && 0 <= c * r < c * b) by (nonlinear_arith)
            requires
                c > 0,
                b > 0,
                a == b * q + r,
                0 <= r < b,
        ;
        lemma_fundamental_div_mod_converse((c * a) as int, (c * b) as int, q as int, (c * r) as int);
        lemma_gcd_scale(b, r, c);
    }
}

/// `gcd(0, b) == b`.
pub proof fn lemma_gcd_zero_left(b: nat)
    ensures
        gcd(0, b) == b,
{
    if b > 0 {
        lemma_multiple_of(b as int, 0);
        reveal_with_fuel(gcd, 2);
    }
}

/// The greatest common divisor does not depend on the order of its arguments.
pub proof fn lemma_gcd_commutative(a: nat, b: nat)
    ensures
        gcd(a, b) == gcd(b, a),
{
    if a == 0 && b == 0 {
    } else {
        lemma_gcd_divides(a, b);
        lemma_gcd_divides(b, a);
        lemma_gcd_greatest(a, b, gcd(b, a));
        lemma_gcd_greatest(b, a, gcd(a, b));
        lemma_divide_each_other(gcd(a, b), gcd(b, a));
    }
}

/// Zero in lowest terms is `0 / 1`.
pub proof fn lemma_lowest_terms_zero(d: nat)
    requires
        d > 0,
    ensures
        lowest_terms(0, d) == (0nat, 1nat),
{
    lemma_gcd_zero_left(d);
    lemma_multiple_of(d as int, 1);
    lemma_multiple_of(d as int, 0);
}

/// Two positive naturals that divide each other are equal.
proof fn lemma_divide_each_other(a: nat, b: nat)
    requires
        a > 0,
        b > 0,
        a % b == 0,
        b % a == 0,
    ensures
        a == b,
{
    lemma_fundamental_div_mod(a as int, b as int);
    lemma_fundamental_div_mod(b as int, a as int);
    let qa = a / b;
    let qb = b / a;
    assert(a >= b) by (nonlinear_arith)
        requires
            a == b * qa + 0,
            a > 0,
            b > 0,
            qa >= 0,
    ;
    assert(b >= a) by (nonlinear_arith)
        requires
            b == a * qb + 0,
            a > 0,
            b > 0,
            qb >= 0,
    ;
}

/// Dividing a pair by its greatest common divisor leaves a coprime pair of the
/// same ratio, with a positive denominator, and zero numerators stay zero.
pub proof fn lemma_lowest_terms(n: nat, d: nat)
    requires
        d > 0,
    ensures
        lowest_terms(n, d).1 > 0,
        gcd(lowest_terms(n, d).0, lowest_terms(n, d).1) == 1,
        lowest_terms(n, d).0 * d == n * lowest_terms(n, d).1,
        lowest_terms(n, d).0 == 0 <==> n == 0,
        lowest_terms(n, d).0 <= n,
        lowest_terms(n, d).1 <= d,
{
    let g = gcd(n, d);
    lemma_gcd_divides(n, d);
    lemma_fundamental_div_mod(n as int, g as int);
    lemma_fundamental_div_mod(d as int, g as int);
    let a = n / g;
    let b = d / g;
    assert(n == g * a && d == g * b);
    lemma_gcd_scale(a, b, g);
    assert(g * gcd(a, b) == g * 1);
    assert(gcd(a, b) == 1) by (nonlinear_arith)
        requires
            g * gcd(a, b) == g * 1,
            g > 0,
    ;
    assert(b > 0 && a * d == n * b && (a == 0 <==> n == 0) && a <= n && b <= d) by (nonlinear_arith)
        requires
            n == g * a,
            d == g * b,
            g > 0,
            d > 0,
    ;
}

/// A coprime pair of the same ratio as another coprime pair is that pair.
pub proof fn lemma_coprime_unique(n1: nat, d1: nat, n2: nat, d2: nat)
    requires
        d1 > 0,
        d2 > 0,
        gcd(n1, d1) == 1,
        gcd(n2, d2) == 1,
        n1 * d2 == n2 * d1,
    ensures
        n1 == n2,
        d1 == d2,
{
    if n1 == 0 || n2 == 0 {
        assert(n1 == 0 && n2 == 0) by (nonlinear_arith)
            requires
                n1 * d2 == n2 * d1,
                d1 > 0,
                d2 > 0,
                n1 == 0 || n2 == 0,
        ;
        lemma_gcd_zero_left(d1);
        lemma_gcd_zero_left(d2);
    } else {
        // n1 divides n2 * d1 and n2 * n1, hence their gcd n2 * gcd(n1, d1) == n2.
        lemma_gcd_scale(n1, d1, n2);
        lemma_multiple_of(n1 as int, n2 as int);
        lemma_multiple_of(n1 as int, d2 as int);
        assert(n2 * n1 == n1 * n2 && n2 * d1 == n1 * d2) by (nonlinear_arith)
            requires
                n1 * d2 == n2 * d1,
        ;
        lemma_gcd_greatest(n2 * n1, n2 * d1, n1);
        // and symmetrically n2 divides n1.
        lemma_gcd_scale(n2, d2, n1);
        lemma_multiple_of(n2 as int, n1 as int);
        lemma_multiple_of(n2 as int, d1 as int);
        assert(n1 * n2 == n2 * n1 && n1 * d2 == n2 * d1) by (nonlinear_arith)
            requires
                n1 * d2 == n2 * d1,
        ;
        lemma_gcd_greatest(n1 * n2, n1 * d2, n2);
        lemma_divide_each_other(n1, n2);
        assert(d1 == d2) by (nonlinear_arith)
            requires
                n1 * d2 == n2 * d1,
                n1 == n2,
                n1 > 0,
        ;
    }
}

/// Pairs of equal ratio have the same lowest terms.
pub proof fn lemma_lowest_terms_unique(n1: nat, d1: nat, n2: nat, d2: nat)
    requires
        d1 > 0,
        d2 > 0,
        n1 * d2 == n2 * d1,
    ensures
        lowest_terms(n1, d1) == lowest_terms(n2, d2),
{
    lemma_lowest_terms(n1, d1);
    lemma_lowest_terms(n2, d2);
    let (a1, b1) = lowest_terms(n1, d1);
    let (a2, b2) = lowest_terms(n2, d2);
    assert(a1 * b2 == a2 * b1) by (nonlinear_arith)
        requires
            a1 * d1 == n1 * b1,
            a2 * d2 == n2 * b2,
            n1 * d2 == n2 * d1,
            d1 > 0,
            d2 > 0,
    ;
    lemma_coprime_unique(a1, b1, a2, b2);
}

/// A coprime pair is already in lowest terms.
pub proof fn lemma_lowest_terms_of_coprime(n: nat, d: nat)
    requires
        gcd(n, d) == 1,
    ensures
        lowest_terms(n, d) == (n, d),
{
}

/// Powers of a positive base are positive.
pub proof fn lemma_pow_positive(n: nat, k: nat)
    requires
        n > 0,
    ensures
        pow_nat(n, k) > 0,
    decreases k,
{
    if k > 0 {
        lemma_pow_positive(n, (k - 1) as nat);
        let p = pow_nat(n, (k - 1) as nat);
        assert(n * p > 0) by (nonlinear_arith)
            requires
                n > 0,
                p > 0,
        ;
    }
}

/// Powers of a positive base grow with the exponent.
proof fn lemma_pow_grows(n: nat, i: nat, k: nat)
    requires
        n > 0,
        i <= k,
    ensures
        pow_nat(n, i) <= pow_nat(n, k),
    decreases k,
{
    if i < k {
        lemma_pow_grows(n, i, (k - 1) as nat);
        lemma_pow_positive(n, (k - 1) as nat);
        let p = pow_nat(n, (k - 1) as nat);
        assert(p <= n * p) by (nonlinear_arith)
            requires
                n > 0,
                p > 0,
        ;
    }
}

/// Greatest common divisor of two machine integers.
pub fn gcd_u64(a: u64, b: u64) -> (r: u64)
    ensures
        r == gcd(a as nat, b as nat),
{
    let mut x: u64 = a;
    let mut y: u64 = b;
    while y != 0
        invariant
            gcd(x as nat, y as nat) == gcd(a as nat, b as nat),
        decreases y,
    {
        let t: u64 = x % y;
        x = y;
        y = t;
    }
    x
}

/// `n` raised to the power `k`.
pub fn pow_u64(n: u64, k: u32) -> (r: u64)
    requires
        pow_nat(n as nat, k as nat) <= u64::MAX,
    ensures
        r == pow_nat(n as nat, k as nat),
{
    let mut acc: u64 = 1;
    let mut i: u32 = 0;
    while i < k
        invariant
            i <= k,
            acc == pow_nat(n as nat, i as nat),
            pow_nat(n as nat, k as nat) <= u64::MAX,
        decreases k - i,
    {
        proof {
            if n > 0 {
                lemma_pow_grows(n as nat, (i + 1) as nat, k as nat);
            }
        }
        assert(pow_nat(n as nat, (i + 1) as nat) == n * pow_nat(n as nat, i as nat));
        acc = acc * n;
        i = i + 1;
    }
    acc
}

} // verus!
