//! Algebraic laws of the fraction operations, stated over the values that
//! the operations' contracts return (`add_value`, `signed_add`, ...).
use crate::natural::{
    lemma_lowest_terms, lemma_lowest_terms_of_coprime, lemma_lowest_terms_unique,
    lemma_lowest_terms_zero,
};
use crate::signed::{
    abs, is_signed_lowest, lemma_signed_lowest_terms, lemma_signed_lowest_terms_unique,
    signed_add, signed_cmp, signed_div, signed_mul, signed_trim,
};
use crate::unsigned::{add_value, cmp_value, div_value, is_lowest, mul_value, trim_value};
use core::cmp::Ordering;
use vstd::prelude::*;

verus! {

// ------------------------------------------------------------------------------
// Unsigned values

/// Replacing the left operand of `+` by one of equal value keeps the sum.
proof fn lemma_add_respects(x: (nat, nat), x2: (nat, nat), y: (nat, nat))
    requires
        x.1 > 0,
        x2.1 > 0,
        y.1 > 0,
        x.0 * x2.1 == x2.0 * x.1,
    ensures
        add_value(x, y) == add_value(x2, y),
{
    let n1 = x.0 * y.1 + y.0 * x.1;
    let n2 = x2.0 * y.1 + y.0 * x2.1;
    assert(n1 * (x2.1 * y.1) == n2 * (x.1 * y.1) && x.1 * y.1 > 0 && x2.1 * y.1 > 0)
        by (nonlinear_arith)
        requires
            x.1 > 0,
            x2.1 > 0,
            y.1 > 0,
            x.0 * x2.1 == x2.0 * x.1,
            n1 == x.0 * y.1 + y.0 * x.1,
            n2 == x2.0 * y.1 + y.0 * x2.1,
    ;
    lemma_lowest_terms_unique(n1, x.1 * y.1, n2, x2.1 * y.1);
}

/// Replacing the left operand of `*` by one of equal value keeps the product.
proof fn lemma_mul_respects(x: (nat, nat), x2: (nat, nat), y: (nat, nat))
    requires
        x.1 > 0,
        x2.1 > 0,
        y.1 > 0,
        x.0 * x2.1 == x2.0 * x.1,
    ensures
        mul_value(x, y) == mul_value(x2, y),
{
    assert((x.0 * y.0) * (x2.1 * y.1) == (x2.0 * y.0) * (x.1 * y.1) && x.1 * y.1 > 0 && x2.1 * y.1
        > 0) by (nonlinear_arith)
        requires
            x.1 > 0,
            x2.1 > 0,
            y.1 > 0,
            x.0 * x2.1 == x2.0 * x.1,
    ;
    lemma_lowest_terms_unique(x.0 * y.0, x.1 * y.1, x2.0 * y.0, x2.1 * y.1);
}

/// Trimming yields the zero singleton or a coprime pair, and trimming twice is
/// trimming once.
pub proof fn lemma_trim_canonical(x: (nat, nat))
    requires
        x.1 > 0,
    ensures
        is_lowest(trim_value(x)),
        trim_value(x).0 == 0 ==> trim_value(x) == (0nat, 1nat),
        trim_value(trim_value(x)) == trim_value(x),
{
    lemma_lowest_terms(x.0, x.1);
    if x.0 == 0 {
        lemma_lowest_terms_zero(x.1);
    }
    lemma_lowest_terms_of_coprime(trim_value(x).0, trim_value(x).1);
}

/// Values of equal ratio have the same canonical form.
pub proof fn lemma_trim_equal_values(x: (nat, nat), y: (nat, nat))
    requires
        x.1 > 0,
        y.1 > 0,
        x.0 * y.1 == y.0 * x.1,
    ensures
        trim_value(x) == trim_value(y),
{
    lemma_lowest_terms_unique(x.0, x.1, y.0, y.1);
}

/// Comparison is a total order read both ways: `compare(x, y)` is `Less`
/// exactly when `compare(y, x)` is `Greater`, and `Equal` exactly when the
/// two have the same canonical form.
pub proof fn lemma_cmp_mirror(x: (nat, nat), y: (nat, nat))
    requires
        x.1 > 0,
        y.1 > 0,
    ensures
        cmp_value(x, y) == Ordering::Less <==> cmp_value(y, x) == Ordering::Greater,
        cmp_value(x, y) == Ordering::Greater <==> cmp_value(y, x) == Ordering::Less,
        cmp_value(x, y) == Ordering::Equal <==> cmp_value(y, x) == Ordering::Equal,
        cmp_value(x, y) == Ordering::Equal <==> trim_value(x) == trim_value(y),
{
    lemma_lowest_terms(x.0, x.1);
    lemma_lowest_terms(y.0, y.1);
    if x.0 * y.1 == y.0 * x.1 {
        lemma_lowest_terms_unique(x.0, x.1, y.0, y.1);
    }
    if trim_value(x) == trim_value(y) {
        let t = trim_value(x);
        assert(x.0 * y.1 == y.0 * x.1) by (nonlinear_arith)
            requires
                t.0 * x.1 == x.0 * t.1,
                t.0 * y.1 == y.0 * t.1,
                t.1 > 0,
        ;
    }
}

/// Zero is the identity of `+` on either side.
pub proof fn lemma_add_zero(x: (nat, nat))
    requires
        x.1 > 0,
    ensures
        add_value(x, (0nat, 1nat)) == trim_value(x),
        add_value((0nat, 1nat), x) == trim_value(x),
        is_lowest(x) ==> add_value(x, (0nat, 1nat)) == x,
{
    assert(x.0 * 1 + 0 * x.1 == x.0 && 0 * x.1 + x.0 * 1 == x.0 && x.1 * 1 == x.1 && 1 * x.1
        == x.1);
    if is_lowest(x) {
        lemma_lowest_terms_of_coprime(x.0, x.1);
    }
}

/// Zero absorbs under `*` on either side.
pub proof fn lemma_mul_zero(x: (nat, nat))
    requires
        x.1 > 0,
    ensures
        mul_value((0nat, 1nat), x) == (0nat, 1nat),
        mul_value(x, (0nat, 1nat)) == (0nat, 1nat),
{
    assert(0 * x.0 == 0 && x.0 * 0 == 0 && 1 * x.1 == x.1 && x.1 * 1 == x.1);
    lemma_lowest_terms_zero(x.1);
}

/// `x + y == y + x`.
pub proof fn lemma_add_commutative(x: (nat, nat), y: (nat, nat))
    ensures
        add_value(x, y) == add_value(y, x),
{
    assert(x.0 * y.1 + y.0 * x.1 == y.0 * x.1 + x.0 * y.1 && x.1 * y.1 == y.1 * x.1)
        by (nonlinear_arith);
}

/// `(x + y) + z == x + (y + z)`.
pub proof fn lemma_add_associative(x: (nat, nat), y: (nat, nat), z: (nat, nat))
    requires
        x.1 > 0,
        y.1 > 0,
        z.1 > 0,
    ensures
        add_value(add_value(x, y), z) == add_value(x, add_value(y, z)),
{
    let n = x.0 * y.1 + y.0 * x.1;
    let d = x.1 * y.1;
    let m = y.0 * z.1 + z.0 * y.1;
    let e = y.1 * z.1;
    assert(d > 0 && e > 0) by (nonlinear_arith)
        requires
            x.1 > 0,
            y.1 > 0,
            z.1 > 0,
            d == x.1 * y.1,
            e == y.1 * z.1,
    ;
    lemma_lowest_terms(n, d);
    lemma_lowest_terms(m, e);
    lemma_add_respects(add_value(x, y), (n, d), z);
    lemma_add_commutative(x, add_value(y, z));
    lemma_add_respects(add_value(y, z), (m, e), x);
    assert(n * z.1 + z.0 * d == m * x.1 + x.0 * e && d * z.1 == e * x.1) by (nonlinear_arith)
        requires
            n == x.0 * y.1 + y.0 * x.1,
            d == x.1 * y.1,
            m == y.0 * z.1 + z.0 * y.1,
            e == y.1 * z.1,
    ;
}

/// `x * y == y * x`.
pub proof fn lemma_mul_commutative(x: (nat, nat), y: (nat, nat))
    ensures
        mul_value(x, y) == mul_value(y, x),
{
    assert(x.0 * y.0 == y.0 * x.0 && x.1 * y.1 == y.1 * x.1) by (nonlinear_arith);
}

/// `(x * y) * z == x * (y * z)`.
pub proof fn lemma_mul_associative(x: (nat, nat), y: (nat, nat), z: (nat, nat))
    requires
        x.1 > 0,
        y.1 > 0,
        z.1 > 0,
    ensures
        mul_value(mul_value(x, y), z) == mul_value(x, mul_value(y, z)),
{
    let n = x.0 * y.0;
    let d = x.1 * y.1;
    let m = y.0 * z.0;
    let e = y.1 * z.1;
    assert(d > 0 && e > 0) by (nonlinear_arith)
        requires
            x.1 > 0,
            y.1 > 0,
            z.1 > 0,
            d == x.1 * y.1,
            e == y.1 * z.1,
    ;
    lemma_lowest_terms(n, d);
    lemma_lowest_terms(m, e);
    lemma_mul_respects(mul_value(x, y), (n, d), z);
    lemma_mul_commutative(x, mul_value(y, z));
    lemma_mul_respects(mul_value(y, z), (m, e), x);
    assert(n * z.0 == m * x.0 && d * z.1 == e * x.1) by (nonlinear_arith)
        requires
            n == x.0 * y.0,
            d == x.1 * y.1,
            m == y.0 * z.0,
            e == y.1 * z.1,
    ;
}

/// `(x / y) * y` is `x` in canonical form, for a non-zero `y`.
pub proof fn lemma_div_mul_round_trip(x: (nat, nat), y: (nat, nat))
    requires
        x.1 > 0,
        y.1 > 0,
        y.0 > 0,
    ensures
        mul_value(div_value(x, y), y) == trim_value(x),
        is_lowest(x) ==> mul_value(div_value(x, y), y) == x,
{
    let n = x.0 * y.1;
    let d = x.1 * y.0;
    assert(d > 0 && (n * y.0) * x.1 == x.0 * (d * y.1) && d * y.1 > 0) by (nonlinear_arith)
        requires
            x.1 > 0,
            y.1 > 0,
            y.0 > 0,
            n == x.0 * y.1,
            d == x.1 * y.0,
    ;
    lemma_lowest_terms(n, d);
    lemma_mul_respects(div_value(x, y), (n, d), y);
    lemma_lowest_terms_unique(n * y.0, d * y.1, x.0, x.1);
    if is_lowest(x) {
        lemma_lowest_terms_of_coprime(x.0, x.1);
    }
}

// ------------------------------------------------------------------------------
// Signed values

/// Replacing the left operand of `+` by one of equal value keeps the sum.
proof fn lemma_signed_add_respects(x: (int, nat), x2: (int, nat), y: (int, nat))
    requires
        x.1 > 0,
        x2.1 > 0,
        y.1 > 0,
        x.0 * x2.1 == x2.0 * x.1,
    ensures
        signed_add(x, y) == signed_add(x2, y),
{
    let n1 = x.0 * y.1 + y.0 * x.1;
    let n2 = x2.0 * y.1 + y.0 * x2.1;
    assert(n1 * (x2.1 * y.1) == n2 * (x.1 * y.1) && x.1 * y.1 > 0 && x2.1 * y.1 > 0)
        by (nonlinear_arith)
        requires
            x.1 > 0,
            x2.1 > 0,
            y.1 > 0,
            x.0 * x2.1 == x2.0 * x.1,
            n1 == x.0 * y.1 + y.0 * x.1,
            n2 == x2.0 * y.1 + y.0 * x2.1,
    ;
    lemma_signed_lowest_terms_unique(n1, x.1 * y.1, n2, x2.1 * y.1);
}

/// Replacing the left operand of `*` by one of equal value keeps the product.
proof fn lemma_signed_mul_respects(x: (int, nat), x2: (int, nat), y: (int, nat))
    requires
        x.1 > 0,
        x2.1 > 0,
        y.1 > 0,
        x.0 * x2.1 == x2.0 * x.1,
    ensures
        signed_mul(x, y) == signed_mul(x2, y),
{
    assert((x.0 * y.0) * (x2.1 * y.1) == (x2.0 * y.0) * (x.1 * y.1) && x.1 * y.1 > 0 && x2.1 * y.1
        > 0) by (nonlinear_arith)
        requires
            x.1 > 0,
            x2.1 > 0,
            y.1 > 0,
            x.0 * x2.1 == x2.0 * x.1,
    ;
    lemma_signed_lowest_terms_unique(x.0 * y.0, x.1 * y.1, x2.0 * y.0, x2.1 * y.1);
}

/// Signed trimming yields zero as `0 / 1` or a coprime pair, and trimming twice
/// is trimming once.
pub proof fn lemma_signed_trim_canonical(x: (int, nat))
    requires
        x.1 > 0,
    ensures
        is_signed_lowest(signed_trim(x)),
        signed_trim(x).0 == 0 ==> signed_trim(x) == (0int, 1nat),
        signed_trim(signed_trim(x)) == signed_trim(x),
{
    lemma_signed_lowest_terms(x.0, x.1);
    if x.0 == 0 {
        lemma_lowest_terms_zero(x.1);
    }
    let t = signed_trim(x);
    lemma_lowest_terms_of_coprime(abs(t.0), t.1);
}

/// Comparison is a total order read both ways, and `Equal` exactly when the
/// two have the same canonical form.
pub proof fn lemma_signed_cmp_mirror(x: (int, nat), y: (int, nat))
    requires
        x.1 > 0,
        y.1 > 0,
    ensures
        signed_cmp(x, y) == Ordering::Less <==> signed_cmp(y, x) == Ordering::Greater,
        signed_cmp(x, y) == Ordering::Greater <==> signed_cmp(y, x) == Ordering::Less,
        signed_cmp(x, y) == Ordering::Equal <==> signed_cmp(y, x) == Ordering::Equal,
        signed_cmp(x, y) == Ordering::Equal <==> signed_trim(x) == signed_trim(y),
{
    lemma_signed_lowest_terms(x.0, x.1);
    lemma_signed_lowest_terms(y.0, y.1);
    if x.0 * y.1 == y.0 * x.1 {
        lemma_signed_lowest_terms_unique(x.0, x.1, y.0, y.1);
    }
    if signed_trim(x) == signed_trim(y) {
        let t = signed_trim(x);
        assert(x.0 * y.1 == y.0 * x.1) by (nonlinear_arith)
            requires
                t.0 * x.1 == x.0 * t.1,
                t.0 * y.1 == y.0 * t.1,
                t.1 > 0,
        ;
    }
}

/// Zero is the identity of signed `+` on either side.
pub proof fn lemma_signed_add_zero(x: (int, nat))
    requires
        x.1 > 0,
    ensures
        signed_add(x, (0int, 1nat)) == signed_trim(x),
        signed_add((0int, 1nat), x) == signed_trim(x),
        is_signed_lowest(x) ==> signed_add(x, (0int, 1nat)) == x,
{
    assert(x.0 * 1 + 0 * x.1 == x.0 && 0 * x.1 + x.0 * 1 == x.0 && x.1 * 1 == x.1 && 1 * x.1
        == x.1);
    if is_signed_lowest(x) {
        lemma_lowest_terms_of_coprime(abs(x.0), x.1);
    }
}

/// A magnitude plus its negation is zero: `(n / d) + (-n / d) == 0 / 1`.
pub proof fn lemma_signed_add_inverse(n: nat, d: nat)
    requires
        d > 0,
    ensures
        signed_add((n as int, d), (-(n as int), d)) == (0int, 1nat),
{
    assert(n * d + (-n) * d == 0 && d * d > 0) by (nonlinear_arith)
        requires
            d > 0,
    ;
    lemma_lowest_terms_zero(d * d);
}

/// Zero absorbs under signed `*` on either side.
pub proof fn lemma_signed_mul_zero(x: (int, nat))
    requires
        x.1 > 0,
    ensures
        signed_mul((0int, 1nat), x) == (0int, 1nat),
        signed_mul(x, (0int, 1nat)) == (0int, 1nat),
{
    assert(0 * x.0 == 0 && x.0 * 0 == 0 && 1 * x.1 == x.1 && x.1 * 1 == x.1);
    lemma_lowest_terms_zero(x.1);
}

/// `x + y == y + x`.
pub proof fn lemma_signed_add_commutative(x: (int, nat), y: (int, nat))
    ensures
        signed_add(x, y) == signed_add(y, x),
{
    assert(x.0 * y.1 + y.0 * x.1 == y.0 * x.1 + x.0 * y.1 && x.1 * y.1 == y.1 * x.1)
        by (nonlinear_arith);
}

/// `(x + y) + z == x + (y + z)`.
pub proof fn lemma_signed_add_associative(x: (int, nat), y: (int, nat), z: (int, nat))
    requires
        x.1 > 0,
        y.1 > 0,
        z.1 > 0,
    ensures
        signed_add(signed_add(x, y), z) == signed_add(x, signed_add(y, z)),
{
    let n = x.0 * y.1 + y.0 * x.1;
    let d = x.1 * y.1;
    let m = y.0 * z.1 + z.0 * y.1;
    let e = y.1 * z.1;
    assert(d > 0 && e > 0) by (nonlinear_arith)
        requires
            x.1 > 0,
            y.1 > 0,
            z.1 > 0,
            d == x.1 * y.1,
            e == y.1 * z.1,
    ;
    lemma_signed_lowest_terms(n, d);
    lemma_signed_lowest_terms(m, e);
    lemma_signed_add_respects(signed_add(x, y), (n, d), z);
    lemma_signed_add_commutative(x, signed_add(y, z));
    lemma_signed_add_respects(signed_add(y, z), (m, e), x);
    assert(n * z.1 + z.0 * d == m * x.1 + x.0 * e && d * z.1 == e * x.1) by (nonlinear_arith)
        requires
            n == x.0 * y.1 + y.0 * x.1,
            d == x.1 * y.1,
            m == y.0 * z.1 + z.0 * y.1,
            e == y.1 * z.1,
    ;
}

/// `x * y == y * x`.
pub proof fn lemma_signed_mul_commutative(x: (int, nat), y: (int, nat))
    ensures
        signed_mul(x, y) == signed_mul(y, x),
{
    assert(x.0 * y.0 == y.0 * x.0 && x.1 * y.1 == y.1 * x.1) by (nonlinear_arith);
}

/// `(x * y) * z == x * (y * z)`.
pub proof fn lemma_signed_mul_associative(x: (int, nat), y: (int, nat), z: (int, nat))
    requires
        x.1 > 0,
        y.1 > 0,
        z.1 > 0,
    ensures
        signed_mul(signed_mul(x, y), z) == signed_mul(x, signed_mul(y, z)),
{
    let n = x.0 * y.0;
    let d = x.1 * y.1;
    let m = y.0 * z.0;
    let e = y.1 * z.1;
    assert(d > 0 && e > 0) by (nonlinear_arith)
        requires
            x.1 > 0,
            y.1 > 0,
            z.1 > 0,
            d == x.1 * y.1,
            e == y.1 * z.1,
    ;
    lemma_signed_lowest_terms(n, d);
    lemma_signed_lowest_terms(m, e);
    lemma_signed_mul_respects(signed_mul(x, y), (n, d), z);
    lemma_signed_mul_commutative(x, signed_mul(y, z));
    lemma_signed_mul_respects(signed_mul(y, z), (m, e), x);
    assert(n * z.0 == m * x.0 && d * z.1 == e * x.1) by (nonlinear_arith)
        requires
            n == x.0 * y.0,
            d == x.1 * y.1,
            m == y.0 * z.0,
            e == y.1 * z.1,
    ;
}

/// `(x / y) * y` is `x` in canonical form, for a non-zero `y`.
pub proof fn lemma_signed_div_mul_round_trip(x: (int, nat), y: (int, nat))
    requires
        x.1 > 0,
        y.1 > 0,
        y.0 != 0,
    ensures
        signed_mul(signed_div(x, y), y) == signed_trim(x),
        is_signed_lowest(x) ==> signed_mul(signed_div(x, y), y) == x,
{
    let n = if y.0 < 0 {
        -(x.0 * y.1)
    } else {
        x.0 * y.1
    };
    let d = x.1 * abs(y.0);
    assert(d > 0 && (n * y.0) * x.1 == x.0 * (d * y.1) && d * y.1 > 0) by (nonlinear_arith)
        requires
            x.1 > 0,
            y.1 > 0,
            y.0 != 0,
            n == if y.0 < 0 { -(x.0 * y.1) } else { x.0 * y.1 },
            d == x.1 * abs(y.0),
            abs(y.0) == if y.0 < 0 { -y.0 } else { y.0 },
    ;
    lemma_signed_lowest_terms(n, d);
    lemma_signed_mul_respects(signed_div(x, y), (n, d), y);
    lemma_signed_lowest_terms_unique(n * y.0, d * y.1, x.0, x.1);
    if is_signed_lowest(x) {
        lemma_lowest_terms_of_coprime(abs(x.0), x.1);
    }
}

} // verus!
