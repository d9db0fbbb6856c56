//! Exercises the prime-field arithmetic and the Montgomery-curve layer on
//! concrete values: construction, inversion, exponentiation, square roots,
//! projective equality and the j-invariant.

use supersingular_elliptic_curve::field::{FieldError, FiniteField};
use supersingular_elliptic_curve::mont_curve::MontgomeryCurve;

#[test]
fn field_test() {
    let prime_num: u32 = 97;
    let fp = FiniteField::new(prime_num as u64).unwrap();

    for _ in 0..100 {
        let mut a = fp.rand(None);
        while a.is_zero() {
            a = fp.rand(None);
        }
        let b = a.add(&a);
        let c = b.mul(&b);

        assert!(c.pow((prime_num - 1) as i128).equals(&fp.one()));
        let d = c.sqrt().unwrap();
        println!("{:?}^2 -> {:?}", d.value(), c.value());
        assert!(d.mul(&d).equals(&c), "Wrong sqrt");
    }
}

#[test]
fn fp_field_test() {
    let fp = FiniteField::new(11).unwrap();
    let a = fp.gen(-2);
    let b = a.add(&a);
    let c = b.mul(&b);

    println!("{:?}", b.value());
    println!("{:?}", c.value());
    assert_eq!(b.value(), 7);
    assert_eq!(c.value(), 5);
}

#[test]
fn field_construction() {
    assert_eq!(FiniteField::new(12).unwrap_err(), FieldError::NotPrime);
    assert!(FiniteField::new(13).is_ok());
}

#[test]
fn field_ops_concrete() {
    let fp = FiniteField::new(13).unwrap();
    assert!(fp.gen(7).add(&fp.gen(8)).equals(&fp.gen(2)));
    assert!(fp.gen(3).sub(&fp.gen(7)).equals(&fp.gen(9)));
    assert!(fp.gen(5).mul(&fp.gen(4)).equals(&fp.gen(7)));
    assert!(fp.gen(5).neg().equals(&fp.gen(8)));
    assert!(fp.gen(13).is_zero());
    assert!(fp.zero().is_zero());
    assert!(!fp.one().is_zero());

    // the field axioms on concrete values
    let a = fp.gen(3);
    let b = fp.gen(5);
    let c = fp.gen(11);
    assert!(a.add(&b).add(&c).equals(&a.add(&b.add(&c))));
    assert!(a.add(&b).equals(&b.add(&a)));
    assert!(a.mul(&b.add(&c)).equals(&a.mul(&b).add(&a.mul(&c))));
    assert!(a.add(&a.neg()).is_zero());
    assert!(a.mul(&a.inv()).equals(&fp.one()));
}

#[test]
fn inversion_concrete() {
    let fp = FiniteField::new(13).unwrap();
    assert!(fp.gen(3).inv().equals(&fp.gen(9)));
    assert!(fp.gen(2).pow(-1).equals(&fp.gen(7)));
    assert!(fp.gen(5).scalar_mul(3).equals(&fp.gen(2)));
}

#[test]
fn sqrt_mod_seven() {
    let fp = FiniteField::new(7).unwrap();
    let x = fp.gen(4);
    let r = x.sqrt().unwrap();
    assert!(r.mul(&r).equals(&x));
    assert!(r.value() == 2 || r.value() == 5);
    assert!(fp.gen(3).sqrt().is_none());
}

#[test]
fn fermat_check() {
    let fp = FiniteField::new(97).unwrap();
    for n in 1..97 {
        assert!(fp.gen(n).pow(96).equals(&fp.one()));
    }
}

#[test]
fn curve_points_and_equality() {
    let fp = FiniteField::new(13).unwrap();
    let curve = MontgomeryCurve::new(&fp, fp.gen(0));
    let zero = curve.zero();
    assert!(zero.is_zero());

    // a 2-torsion point of y^2 = x^3 + x over F_13: (0, 0, 1)
    let p = curve.gen((&fp.gen(0), &fp.gen(0), &fp.gen(1)));
    assert!(!p.is_zero());
    // with y = 0 the point is its own negative
    assert!(p.neg().eq_point(&p));

    // projective equality: (6, 4, 2) and (3, 2, 1) are the same point
    let q = curve.gen((&fp.gen(6), &fp.gen(4), &fp.gen(2)));
    let mut q_red = q;
    q_red.reduce();
    assert_eq!(q_red.coords(), (3, 2, 1));
    let r = curve.gen((&fp.gen(3), &fp.gen(2), &fp.gen(1)));
    assert!(q.eq_point(&r));
    assert!(r.eq_point(&q));
    let s = curve.gen((&fp.gen(3), &fp.gen(11), &fp.gen(1)));
    assert!(!q.eq_point(&s));
}

/// Rejection-sample an affine point of `y^2 = x^3 + A*x^2 + x`.
fn random_point(
    fp: &FiniteField,
    curve: &MontgomeryCurve,
    a: i128,
) -> supersingular_elliptic_curve::mont_curve::MontgomeryCurvePoint {
    loop {
        let x = fp.rand(None);
        let rhs = x.mul(&x).mul(&x).add(&fp.gen(a).mul(&x).mul(&x)).add(&x);
        if let Some(y) = rhs.sqrt() {
            return curve.gen((&x, &y, &fp.one()));
        }
    }
}

#[test]
fn montgomery_curve_test() {
    let fp = FiniteField::new(97).unwrap();
    let curve = MontgomeryCurve::new(&fp, fp.gen(0));
    println!("j-invariant : {:?}", curve.j_invariant().value());
    for _ in 0..1000 {
        let p1 = random_point(&fp, &curve, 0);
        let p2 = random_point(&fp, &curve, 0);
        let p3 = random_point(&fp, &curve, 0);
        let lhs = p1.add(&p2).add(&p3);
        let rhs = p1.add(&p2.add(&p3));
        assert!(lhs.eq_point(&rhs), "Associativity fail");
    }
}

#[test]
fn curve_identity_laws() {
    let fp = FiniteField::new(97).unwrap();
    let curve = MontgomeryCurve::new(&fp, fp.gen(0));
    for _ in 0..20 {
        let p = random_point(&fp, &curve, 0);
        assert!(p.add(&curve.zero()).eq_point(&p));
        assert!(curve.zero().add(&p).eq_point(&p));
        assert!(p.add(&p.neg()).is_zero());
        assert!(p.sub(&p).is_zero());
    }
}

#[test]
fn two_torsion_doubling() {
    let fp = FiniteField::new(13).unwrap();
    let curve = MontgomeryCurve::new(&fp, fp.gen(0));
    let p = curve.gen((&fp.gen(0), &fp.gen(0), &fp.gen(1)));
    assert!(!p.is_zero());
    assert!(p.add(&p).is_zero());
}

#[test]
fn j_invariant_concrete() {
    let fp = FiniteField::new(97).unwrap();
    let curve = MontgomeryCurve::new(&fp, fp.gen(0));
    let j = curve.j_invariant();
    // 256 * (0 - 3)^3 * (0 - 4)^(-1) mod 97
    assert!(j.mul(&fp.gen(-4)).equals(&fp.gen(256 * -27)));
    assert_eq!(j.value(), 79);
}
