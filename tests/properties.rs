use fracnum::natural::{gcd_u64, pow_u64};
use fracnum::{NFrac, PFrac, Rational, UFrac, UnsignedRational, F0, UF0};
use std::cmp::Ordering;

fn uf(n: u64, d: u64) -> UFrac {
    UFrac::new(n, d)
}

fn ur(n: u64, d: u64) -> UnsignedRational {
    UnsignedRational::Frac(UFrac::new(n, d))
}

fn uzero() -> UnsignedRational {
    UnsignedRational::Zero(UF0::new())
}

fn pos(n: u64, d: u64) -> Rational {
    Rational::Pos(PFrac::new(UFrac::new(n, d)))
}

fn neg(n: u64, d: u64) -> Rational {
    Rational::Neg(NFrac::new(UFrac::new(n, d)))
}

fn zero() -> Rational {
    Rational::Zero(F0::new())
}

fn f64_of(r: &Rational) -> f64 {
    match r {
        Rational::Zero(_) => 0.0,
        Rational::Pos(p) => p.magnitude().numer() as f64 / p.magnitude().denom() as f64,
        Rational::Neg(n) => -(n.magnitude().numer() as f64 / n.magnitude().denom() as f64),
    }
}

#[test]
fn gcd_and_pow_primitives() {
    assert_eq!(gcd_u64(12, 18), 6);
    assert_eq!(gcd_u64(0, 7), 7);
    assert_eq!(gcd_u64(7, 0), 7);
    assert_eq!(gcd_u64(17, 5), 1);
    assert_eq!(pow_u64(3, 4), 81);
    assert_eq!(pow_u64(0, 0), 1);
    assert_eq!(pow_u64(2, 63), 1u64 << 63);
}

#[test]
fn trim_reduces_two_fourths() {
    assert_eq!(uf(2, 4).trim(), ur(1, 2));
    assert_eq!(pos(2, 4).trim(), pos(1, 2));
    assert_eq!(neg(6, 4).trim(), neg(3, 2));
}

#[test]
fn trim_zero_numerator_collapses() {
    assert_eq!(uf(0, 9).trim(), uzero());
    assert_eq!(uzero().trim(), uzero());
    assert_eq!(zero().trim(), zero());
    assert_eq!(UF0::new().trim(), UF0::new());
    assert_eq!(F0::new().trim(), F0::new());
}

#[test]
fn trim_is_idempotent_and_coprime() {
    for (n, d) in [(12u64, 18u64), (7, 7), (100, 75), (1, 1), (48, 36), (u64::MAX, u64::MAX)] {
        let once = uf(n, d).trim();
        assert_eq!(once.trim(), once);
        if let UnsignedRational::Frac(f) = once {
            assert_eq!(gcd_u64(f.numer(), f.denom()), 1);
        }
    }
    assert_eq!(uf(u64::MAX, u64::MAX).trim(), ur(1, 1));
}

#[test]
fn compare_orders_and_mirrors() {
    let values = [uzero(), ur(1, 3), ur(1, 2), ur(2, 4), ur(3, 2), ur(0, 5)];
    for a in values.iter() {
        for b in values.iter() {
            assert_eq!(a.compare(b), b.compare(a).reverse());
            assert_eq!(a.compare(b) == Ordering::Equal, a.trim() == b.trim());
        }
    }
    assert_eq!(uf(1, 3).compare(&uf(1, 2)), Ordering::Less);
    assert_eq!(uf(2, 4).compare(&uf(1, 2)), Ordering::Equal);
    assert_eq!(uzero().compare(&ur(1, 2)), Ordering::Less);
    assert_eq!(ur(1, 2).compare(&uzero()), Ordering::Greater);
    assert_eq!(uf(u64::MAX, 1).compare(&uf(u64::MAX - 1, 1)), Ordering::Greater);
}

#[test]
fn signed_compare_table() {
    assert_eq!(zero().compare(&zero()), Ordering::Equal);
    assert_eq!(zero().compare(&pos(1, 2)), Ordering::Less);
    assert_eq!(zero().compare(&neg(1, 2)), Ordering::Greater);
    assert_eq!(pos(1, 2).compare(&zero()), Ordering::Greater);
    assert_eq!(neg(1, 2).compare(&zero()), Ordering::Less);
    assert_eq!(pos(1, 100).compare(&neg(100, 1)), Ordering::Greater);
    assert_eq!(neg(100, 1).compare(&pos(1, 100)), Ordering::Less);
    assert_eq!(pos(1, 3).compare(&pos(1, 2)), Ordering::Less);
    assert_eq!(neg(1, 3).compare(&neg(1, 2)), Ordering::Greater);
    assert_eq!(neg(2, 4).compare(&neg(1, 2)), Ordering::Equal);
}

#[test]
fn additive_identity() {
    for a in [ur(3, 4), ur(5, 1), uzero()] {
        assert_eq!(a.add(uzero()), a);
        assert_eq!(uzero().add(a), a);
    }
    for a in [pos(3, 4), neg(7, 2), zero()] {
        assert_eq!(a.add(zero()), a);
        assert_eq!(zero().add(a), a);
    }
}

#[test]
fn additive_inverse() {
    for (n, d) in [(1u64, 2u64), (7, 3), (2, 4), (u64::MAX, 1)] {
        assert_eq!(pos(n, d).add(neg(n, d)), zero());
        assert_eq!(neg(n, d).add(pos(n, d)), zero());
    }
}

#[test]
fn multiplicative_absorption() {
    for a in [ur(3, 4), uzero()] {
        assert_eq!(uzero().mul(a), uzero());
        assert_eq!(a.mul(uzero()), uzero());
    }
    for a in [pos(3, 4), neg(7, 2), zero()] {
        assert_eq!(zero().mul(a), zero());
        assert_eq!(a.mul(zero()), zero());
    }
}

#[test]
fn commutative_and_associative() {
    let us = [ur(1, 2), ur(1, 6), ur(2, 3), uzero(), ur(5, 4)];
    for a in us.iter() {
        for b in us.iter() {
            assert_eq!(a.add(*b), b.add(*a));
            assert_eq!(a.mul(*b), b.mul(*a));
            for c in us.iter() {
                assert_eq!(a.add(*b).add(*c), a.add(b.add(*c)));
                assert_eq!(a.mul(*b).mul(*c), a.mul(b.mul(*c)));
            }
        }
    }
    let ss = [pos(1, 2), neg(1, 6), pos(2, 3), zero(), neg(5, 4)];
    for a in ss.iter() {
        for b in ss.iter() {
            assert_eq!(a.add(*b), b.add(*a));
            assert_eq!(a.mul(*b), b.mul(*a));
            for c in ss.iter() {
                assert_eq!(a.add(*b).add(*c), a.add(b.add(*c)));
                assert_eq!(a.mul(*b).mul(*c), a.mul(b.mul(*c)));
            }
        }
    }
}

#[test]
fn division_multiplication_round_trip() {
    let us = [ur(1, 2), ur(6, 4), uzero(), ur(7, 1)];
    for a in us.iter() {
        for b in [uf(1, 3), uf(5, 2), uf(4, 4)] {
            assert_eq!(a.div(b).mul(UnsignedRational::Frac(b)), a.trim());
        }
    }
    let ss = [pos(1, 2), neg(6, 4), zero()];
    for a in ss.iter() {
        for b in [pos(1, 3), neg(5, 2)] {
            assert_eq!(a.div(b).mul(b), a.trim());
        }
    }
}

#[test]
fn scenario_half_plus_quarter() {
    assert_eq!(uf(1, 2).add(uf(1, 4)), ur(3, 4));
}

#[test]
fn scenario_two_fifths_times_quarter() {
    assert_eq!(uf(2, 5).mul(uf(1, 4)), ur(1, 10));
}

#[test]
fn scenario_half_minus_half_is_zero() {
    assert_eq!(pos(1, 2).add(neg(1, 2)), zero());
}

#[test]
fn scenario_negative_sum() {
    let r = neg(3, 2).add(neg(1, 2));
    assert_eq!(r, neg(2, 1));
    assert_eq!(f64_of(&r), -2.0);
}

#[test]
fn scenario_positive_over_negative() {
    let r = pos(1, 2).div(neg(2, 1));
    assert_eq!(r, neg(1, 4));
    assert_eq!(f64_of(&r), -0.25);
}

#[test]
fn scenario_power_zero() {
    assert_eq!(uf(1, 2).powi(0), uf(1, 1));
    assert_eq!(uf(0, 3).powi(0), uf(1, 1));
}

#[test]
fn power_raises_both_parts() {
    assert_eq!(uf(2, 3).powi(3), uf(8, 27));
    assert_eq!(uf(2, 4).powi(2), uf(4, 16));
    assert_eq!(uf(1, 2).powi(1), uf(1, 2));
}

#[test]
fn unsigned_add_trims_lcd_sum() {
    // 1/2 + 1/6 over the common denominator 6 is 4/6, which is not reduced.
    assert_eq!(uf(1, 2).add(uf(1, 6)), ur(2, 3));
    assert_eq!(uf(2, 4).add(uf(2, 4)), ur(1, 1));
}

#[test]
fn unsigned_sub_and_div_values() {
    assert_eq!(uf(3, 4).sub(uf(1, 4)), ur(1, 2));
    assert_eq!(ur(5, 6).sub(ur(1, 3)), ur(1, 2));
    assert_eq!(ur(0, 6).sub(ur(0, 3)), uzero());
    assert_eq!(uzero().sub(ur(0, 3)), uzero());
    assert_eq!(uf(3, 4).div(uf(3, 8)), ur(2, 1));
    assert_eq!(uf(1, 3).reciprocal(), uf(3, 1));
}

#[test]
fn signed_sign_resolution() {
    assert_eq!(pos(3, 2).add(neg(1, 2)), pos(1, 1));
    assert_eq!(pos(1, 2).add(neg(3, 2)), neg(1, 1));
    assert_eq!(neg(3, 2).add(pos(1, 2)), neg(1, 1));
    assert_eq!(neg(1, 2).add(pos(3, 2)), pos(1, 1));
    assert_eq!(zero().sub(pos(2, 3)), neg(2, 3));
    assert_eq!(zero().sub(neg(2, 3)), pos(2, 3));
    assert_eq!(pos(1, 2).sub(pos(1, 2)), zero());
}

#[test]
fn signed_mul_and_div_signs() {
    assert_eq!(neg(2, 3).mul(neg(3, 4)), pos(1, 2));
    assert_eq!(neg(2, 3).mul(pos(3, 4)), neg(1, 2));
    assert_eq!(neg(2, 3).div(neg(4, 3)), pos(1, 2));
    assert_eq!(pos(2, 3).div(pos(4, 3)), pos(1, 2));
    assert_eq!(neg(2, 3).div(pos(4, 3)), neg(1, 2));
}

#[test]
fn negation() {
    assert_eq!(pos(1, 2).neg(), neg(1, 2));
    assert_eq!(neg(1, 2).neg(), pos(1, 2));
    assert_eq!(zero().neg(), zero());
}

#[test]
fn into_rational_edges() {
    assert_eq!(fracnum::into_rational(0), zero());
    assert_eq!(fracnum::into_rational(i64::MAX), pos(i64::MAX as u64, 1));
    assert_eq!(fracnum::into_rational(i64::MIN), neg(1u64 << 63, 1));
}

#[test]
fn large_values() {
    let big = u64::MAX;
    assert_eq!(uf(big, 2).add(uf(0, 2)), ur(big, 2));
    assert_eq!(uf(big, big - 1).mul(uf(big - 1, big)), ur(1, 1));
    assert_eq!(pos(big, 3).sub(pos(big - 3, 3)), pos(1, 1));
}

#[test]
fn magnitude_and_parts() {
    let p = PFrac::new(uf(3, 5));
    assert_eq!(p.magnitude().numer(), 3);
    assert_eq!(p.magnitude().denom(), 5);
    assert_eq!(NFrac::new(uf(6, 10)).trim().magnitude(), uf(3, 5));
}
