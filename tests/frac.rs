use fracnum::{NFrac, PFrac, Rational, UFrac, UnsignedRational, F0, UF0};

fn uf(n: u64, d: u64) -> UFrac {
    UFrac::new(n, d)
}

fn ur(n: u64, d: u64) -> UnsignedRational {
    UnsignedRational::Frac(UFrac::new(n, d))
}

fn uzero() -> UnsignedRational {
    UnsignedRational::Zero(UF0::new())
}

fn pos(n: u64, d: u64) -> Rational {
    Rational::Pos(PFrac::new(UFrac::new(n, d)))
}

fn neg(n: u64, d: u64) -> Rational {
    Rational::Neg(NFrac::new(UFrac::new(n, d)))
}

fn zero() -> Rational {
    Rational::Zero(F0::new())
}

fn f32_of_frac(f: &UFrac) -> f32 {
    f.numer() as f32 / f.denom() as f32
}

fn f32_of_unsigned(u: &UnsignedRational) -> f32 {
    match u {
        UnsignedRational::Zero(_) => 0.0,
        UnsignedRational::Frac(f) => f32_of_frac(f),
    }
}

fn f32_of(r: &Rational) -> f32 {
    match r {
        Rational::Zero(_) => 0.0,
        Rational::Pos(p) => f32_of_frac(&p.magnitude()),
        Rational::Neg(n) => -1.0 * f32_of_frac(&n.magnitude()),
    }
}

#[test]
fn unsigned_rational() {
    assert_eq!(0.5_f32, f32_of_frac(&uf(1, 2)));
}

#[test]
fn into_rational() {
    assert_eq!(pos(1, 1), fracnum::into_rational(1));
    assert_eq!(neg(3, 1), fracnum::into_rational(-3));
}

#[test]
fn ufrac_add() {
    assert_eq!(0.5_f32, f32_of_unsigned(&ur(1, 2).add(uzero())));
    assert_eq!(0.5_f32, f32_of_unsigned(&uzero().add(ur(1, 2))));
}

#[test]
fn ufrac_sub() {
    assert_eq!(0.25_f32, f32_of_unsigned(&uf(1, 2).sub(uf(1, 4))));
    assert_eq!(0.0_f32, f32_of_unsigned(&uf(1, 2).sub(uf(1, 2))));
    assert_eq!(0.5_f32, f32_of_unsigned(&ur(1, 2).sub(uzero())));
    assert_eq!(0.0_f32, f32_of_unsigned(&uzero().sub(uzero())));
}

#[test]
fn ufrac_mul() {
    assert_eq!(0.25_f32, f32_of_unsigned(&uf(1, 2).mul(uf(1, 2))));
    assert_eq!(0.125_f32, f32_of_unsigned(&uf(1, 2).mul(uf(1, 4))));
    assert_eq!(0.1_f32, f32_of_unsigned(&uf(2, 5).mul(uf(1, 4))));
    assert_eq!(ur(1, 10), uf(2, 5).mul(uf(1, 4)));
    assert_eq!(0_f32, f32_of_unsigned(&ur(1, 2).mul(uzero())));
    assert_eq!(0_f32, f32_of_unsigned(&uzero().mul(ur(1, 2))));
}

#[test]
fn ufrac_div() {
    assert_eq!(1_f32, f32_of_unsigned(&uf(1, 2).div(uf(1, 2))));
    assert_eq!(0.25_f32, f32_of_unsigned(&uf(1, 2).div(uf(2, 1))));
    assert_eq!(0.8_f32, f32_of_unsigned(&uf(2, 5).div(uf(1, 2))));
    assert_eq!(ur(4, 5), uf(2, 5).div(uf(2, 4)));
    assert_eq!(0_f32, f32_of_unsigned(&uzero().div(uf(1, 2))));
}

#[test]
fn frac_add() {
    assert_eq!(0_f32, f32_of(&zero().add(zero())));
    assert_eq!(0.5_f32, f32_of(&zero().add(pos(1, 2))));
    assert_eq!(0.5_f32, f32_of(&pos(1, 2).add(zero())));
    assert_eq!(1_f32, f32_of(&pos(1, 2).add(pos(1, 2))));
    assert_eq!(-2_f32, f32_of(&neg(3, 2).add(neg(1, 2))));
    assert_eq!(0_f32, f32_of(&pos(1, 2).add(neg(1, 2))));
    assert_eq!(0.5_f32, f32_of(&pos(3, 2).add(neg(1, 1))));
    assert_eq!(-0.5_f32, f32_of(&pos(1, 2).add(neg(1, 1))));
}

#[test]
fn frac_sub() {
    assert_eq!(0_f32, f32_of(&zero().sub(zero())));
    assert_eq!(-0.5_f32, f32_of(&zero().sub(pos(1, 2))));
    assert_eq!(0.5_f32, f32_of(&pos(1, 2).sub(zero())));
    assert_eq!(-0.5_f32, f32_of(&neg(1, 2).sub(zero())));
    assert_eq!(0.25_f32, f32_of(&pos(1, 2).sub(pos(1, 4))));
    assert_eq!(-1_f32, f32_of(&neg(3, 2).sub(neg(1, 2))));
    assert_eq!(1_f32, f32_of(&pos(1, 2).sub(neg(1, 2))));
    assert_eq!(-2.5_f32, f32_of(&neg(3, 2).sub(pos(1, 1))));
    assert_eq!(0.5_f32, f32_of(&neg(1, 2).sub(neg(1, 1))));
}

#[test]
fn frac_mul() {
    assert_eq!(0.25_f32, f32_of(&pos(1, 2).mul(pos(1, 2))));
    assert_eq!(0.125_f32, f32_of(&pos(1, 2).mul(pos(1, 4))));
    assert_eq!(-0.1_f32, f32_of(&neg(2, 5).mul(pos(1, 4))));
    assert_eq!(neg(1, 10), pos(2, 5).mul(neg(1, 4)));
    assert_eq!(0_f32, f32_of(&pos(1, 2).mul(zero())));
    assert_eq!(0_f32, f32_of(&zero().mul(pos(1, 2))));
}

#[test]
fn frac_div() {
    assert_eq!(1_f32, f32_of(&pos(1, 2).div(pos(1, 2))));
    assert_eq!(-0.25_f32, f32_of(&pos(1, 2).div(neg(2, 1))));
    assert_eq!(-0.8_f32, f32_of(&neg(2, 5).div(pos(1, 2))));
    assert_eq!(neg(4, 5), neg(2, 5).div(pos(2, 4)));
    assert_eq!(0_f32, f32_of(&zero().div(pos(1, 2))));
    assert_eq!(0_f32, f32_of(&zero().div(neg(1, 2))));
}
