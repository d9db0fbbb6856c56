//! Elliptic curves in Montgomery form `y^2 = x^3 + A*x^2 + x` over a prime
//! field, with projective-style points (`z = 0` marks the identity), the
//! group law, negation, projective equality and the j-invariant.

use vstd::prelude::*;
use vstd::arithmetic::div_mod::*;
use vstd::arithmetic::mul::*;
use crate::arith::{is_prime, inv_mod, lemma_inv_mod_unique, lemma_small_nonzero_mod,
    lemma_double_nonzero, lemma_mul_mod_assoc, lemma_prime_zero_product};
use crate::field::{FiniteField, FiniteFieldElement};
use crate::group::{Group, GroupElement};

verus! {

/// The right-hand side of the Montgomery curve equation, as a raw integer
/// polynomial.
pub open spec fn curve_rhs(a: int, x: int) -> int {
    x * x * x + a * (x * x) + x
}

/// Whether the affine pair `(x, y)` satisfies the curve equation modulo `p`.
pub open spec fn on_curve_affine(p: int, a: int, x: int, y: int) -> bool {
    (y * y) % p == curve_rhs(a, x) % p
}

/// Negation of a coordinate triple: the identity is its own negative, and
/// an affine point flips the sign of `y`.
pub open spec fn spec_point_neg(p: int, t: (int, int, int)) -> (int, int, int) {
    if t.2 == 0 {
        t
    } else {
        (t.0, (p - t.1) % p, t.2)
    }
}

/// The Montgomery group law on normalized coordinate triples, with the
/// slope given through `inv_mod`: identity absorption, cancellation of a
/// point with its negative (which settles doubling a 2-torsion point, whose
/// tangent would be vertical), then the tangent or chord slope.
pub open spec fn spec_point_add(p: int, a: int, t1: (int, int, int), t2: (int, int, int)) -> (
    int,
    int,
    int,
) {
    let (x1, y1, z1) = t1;
    let (x2, y2, z2) = t2;
    if z1 == 0 {
        t2
    } else if z2 == 0 {
        t1
    } else if x1 == x2 && y1 == (p - y2) % p {
        (0, 1, 0)
    } else {
        let l = if x1 == x2 && y1 == y2 {
            (((3 * (x1 * x1) + 2 * (a * x1) + 1) % p) * inv_mod((2 * y1) % p, p)) % p
        } else {
            (((y1 - y2) % p) * inv_mod((x1 - x2) % p, p)) % p
        };
        let x3 = (l * l - x1 - x2 - a) % p;
        let y3 = (l * (x1 - x3) - y1) % p;
        (x3, y3, 1)
    }
}

/// A curve in Montgomery form: a back-reference to its field and the
/// coefficient `A`.
#[derive(Clone, Copy, Debug, PartialEq, Eq, Structural)]
pub struct MontgomeryCurve {
    field: FiniteField,
    a: FiniteFieldElement,
}

/// A point of a Montgomery curve in a scaled, projective-like
/// representation; `z = 0` encodes the point at infinity.
#[derive(Clone, Copy, Debug, PartialEq, Eq, Structural)]
pub struct MontgomeryCurvePoint {
    curve: MontgomeryCurve,
    x: FiniteFieldElement,
    y: FiniteFieldElement,
    z: FiniteFieldElement,
}

impl MontgomeryCurve {
    /// The modulus of the underlying field.
    pub closed spec fn modulus(&self) -> int {
        self.field.spec_prime()
    }

    /// The coefficient `A`, as a reduced residue.
    pub closed spec fn coeff(&self) -> int {
        self.a@
    }

    /// The coefficient is a well-formed element of the curve's own field.
    pub closed spec fn coeff_ok(&self) -> bool {
        self.a.wf() && self.a.modulus() == self.field.spec_prime()
    }

    /// A well-formed curve: an odd prime modulus and a reduced coefficient.
    /// (Oddness is the field layer's data-model assumption; the group law
    /// divides by 2, so it is part of the curve's well-formedness.)
    pub open spec fn wf(&self) -> bool {
        &&& is_prime(self.modulus())
        &&& self.modulus() % 2 == 1
        &&& self.coeff_ok()
        &&& 0 <= self.coeff() < self.modulus()
    }

    /// Construct a curve over `field` with coefficient `a`. As in the rest
    /// of the design, no non-singularity check is re-performed here.
    pub fn new(field: &FiniteField, a: FiniteFieldElement) -> (r: MontgomeryCurve)
        requires
            field.wf(),
            a.wf(),
            a.modulus() == field.spec_prime(),
        ensures
            r.modulus() == field.spec_prime(),
            r.coeff() == a@,
            field.spec_prime() % 2 == 1 ==> r.wf(),
    {
        MontgomeryCurve { field: *field, a }
    }

    /// The identity point `(0, 1, 0)`.
    pub fn zero(&self) -> (r: MontgomeryCurvePoint)
        requires
            self.wf(),
        ensures
            r.wf(),
            r.spec_curve() == *self,
            r.is_zero_spec(),
            r.as_triple() == (0int, 1int, 0int),
    {
        MontgomeryCurvePoint {
            curve: *self,
            x: self.field.zero(),
            y: self.field.one(),
            z: self.field.zero(),
        }
    }

    /// Wrap a coordinate triple as a point of this curve, cloning the
    /// coordinates. Nothing is promised about the triple lying on the curve.
    pub fn gen(
        &self,
        xyz: (&FiniteFieldElement, &FiniteFieldElement, &FiniteFieldElement),
    ) -> (r: MontgomeryCurvePoint)
        requires
            xyz.0.wf() && xyz.0.modulus() == self.modulus(),
            xyz.1.wf() && xyz.1.modulus() == self.modulus(),
            xyz.2.wf() && xyz.2.modulus() == self.modulus(),
        ensures
            r.spec_curve() == *self,
            r.as_triple() == (xyz.0@, xyz.1@, xyz.2@),
    {
        let (x, y, z) = xyz;
        MontgomeryCurvePoint { curve: *self, x: *x, y: *y, z: *z }
    }

    /// The j-invariant `256 * (A^2 - 3)^3 * (A^2 - 4)^(-1)`. A singular
    /// curve (`A^2 = 4`) has no j-invariant: asking for it would invert
    /// zero, which is a precondition violation.
    pub fn j_invariant(&self) -> (r: FiniteFieldElement)
        requires
            self.wf(),
            (self.coeff() * self.coeff() - 4) % self.modulus() != 0,
        ensures
            r.wf(),
            r.modulus() == self.modulus(),
            (r@ * ((self.coeff() * self.coeff() - 4) % self.modulus())) % self.modulus() == (256
                * ((self.coeff() * self.coeff() - 3) * (self.coeff() * self.coeff() - 3) * (
            self.coeff() * self.coeff() - 3))) % self.modulus(),
    {
        let ghost p = self.modulus();
        let ghost aa = self.coeff() * self.coeff();
        let a2 = self.a.mul(&self.a);
        let t3 = a2.sub(&self.field.gen(3));
        let t4 = a2.sub(&self.field.gen(4));
        proof {
            lemma_sub_mod_noop(aa, 3, p);
            lemma_sub_mod_noop(aa, 4, p);
            lemma_mod_twice(aa, p);
        }
        assert(t3@ == (aa - 3) % p);
        assert(t4@ == (aa - 4) % p);
        let cube = t3.mul(&t3).mul(&t3);
        assert(cube@ == ((aa - 3) * (aa - 3) * (aa - 3)) % p) by {
            lemma_mul_mod_noop_general((aa - 3), (aa - 3), p);
            lemma_mul_mod_noop_left((aa - 3) * (aa - 3), (aa - 3), p);
            lemma_mul_mod_noop_general((aa - 3) * (aa - 3), (aa - 3), p);
        }
        let num = cube.mul(&self.field.gen(256));
        assert(num@ == (256 * ((aa - 3) * (aa - 3) * (aa - 3))) % p) by {
            lemma_mul_mod_noop_general((aa - 3) * (aa - 3) * (aa - 3), 256, p);
            lemma_mul_is_commutative((aa - 3) * (aa - 3) * (aa - 3), 256);
        }
        let dinv = t4.inv();
        let r = num.mul(&dinv);
        proof {
            // r * (aa - 4) is congruent to num * (dinv * (aa - 4)), which is num
            lemma_mul_mod_noop_left(num@ * dinv@, t4@, p);
            lemma_mul_is_associative(num@, dinv@, t4@);
            lemma_mul_mod_noop_right(num@, dinv@ * t4@, p);
            lemma_mul_is_commutative(dinv@, t4@);
            lemma_mul_basics(num@);
            lemma_small_mod(num@ as nat, p as nat);
        }
        r
    }
}

impl MontgomeryCurvePoint {
    /// The curve this point belongs to.
    pub closed spec fn spec_curve(&self) -> MontgomeryCurve {
        self.curve
    }

    /// The `x` coordinate's residue.
    pub closed spec fn px(&self) -> int {
        self.x@
    }

    /// The `y` coordinate's residue.
    pub closed spec fn py(&self) -> int {
        self.y@
    }

    /// The `z` coordinate's residue.
    pub closed spec fn pz(&self) -> int {
        self.z@
    }

    /// The coordinates as one triple of residues.
    pub open spec fn as_triple(&self) -> (int, int, int) {
        (self.px(), self.py(), self.pz())
    }

    /// The modulus of the point's field.
    pub open spec fn modulus(&self) -> int {
        self.spec_curve().modulus()
    }

    /// The coordinates are well-formed elements of the curve's own field.
    pub closed spec fn coord_fields_ok(&self) -> bool {
        &&& self.x.wf() && self.x.modulus() == self.curve.modulus()
        &&& self.y.wf() && self.y.modulus() == self.curve.modulus()
        &&& self.z.wf() && self.z.modulus() == self.curve.modulus()
    }

    /// Coordinates are reduced residues of the curve's field.
    pub open spec fn coords_wf(&self) -> bool {
        &&& self.spec_curve().wf()
        &&& self.coord_fields_ok()
        &&& 0 <= self.px() < self.modulus()
        &&& 0 <= self.py() < self.modulus()
        &&& 0 <= self.pz() < self.modulus()
    }

    /// A well-formed point of the group law: either the canonical identity
    /// `(0, 1, 0)`, or an affine point (`z = 1`) satisfying the curve
    /// equation.
    pub open spec fn wf(&self) -> bool {
        &&& self.coords_wf()
        &&& self.pz() == 0 ==> self.px() == 0 && self.py() == 1
        &&& self.pz() != 0 ==> self.pz() == 1 && on_curve_affine(
            self.modulus(),
            self.spec_curve().coeff(),
            self.px(),
            self.py(),
        )
    }

    /// Whether this point is the group identity.
    pub open spec fn is_zero_spec(&self) -> bool {
        self.pz() == 0
    }

    /// The coordinate residues as machine words.
    pub fn coords(&self) -> (r: (u64, u64, u64))
        ensures
            r.0 as int == self.px(),
            r.1 as int == self.py(),
            r.2 as int == self.pz(),
    {
        (self.x.value(), self.y.value(), self.z.value())
    }

    /// The identity is encoded by `z = 0`.
    pub fn is_zero(&self) -> (r: bool)
        ensures
            r <==> self.is_zero_spec(),
    {
        self.z.is_zero()
    }

    /// Negation: the identity is its own negative; otherwise the sign of
    /// `y` flips and the point stays on the curve.
    pub fn neg(&self) -> (r: MontgomeryCurvePoint)
        requires
            self.wf(),
        ensures
            r.wf(),
            r.spec_curve() == self.spec_curve(),
            r.as_triple() == spec_point_neg(self.modulus(), self.as_triple()),
    {
        let ghost p = self.modulus();
        if self.z.is_zero() {
            return *self;
        }
        let ny = self.y.neg();
        proof {
            // (p - y)^2 differs from y^2 by a multiple of p
            let yy = self.py();
            assert((p - yy) % p == (p - yy) % p);
            assert(ny@ == (p - yy) % p);
            assert((ny@ * ny@) % p == ((p - yy) * (p - yy)) % p) by {
                lemma_mul_mod_noop_general(p - yy, p - yy, p);
            }
            assert((p - yy) * (p - yy) == yy * yy + p * (p - 2 * yy)) by (nonlinear_arith);
            assert((yy * yy + p * (p - 2 * yy)) % p == (yy * yy) % p) by {
                lemma_mod_multiples_vanish(p - 2 * yy, yy * yy, p);
            }
        }
        MontgomeryCurvePoint { curve: self.curve, x: self.x, y: ny, z: self.z }
    }

    /// Normalize the representation to unit scale, dividing every
    /// coordinate by `z`, or by `y` when `z = 0` (which preserves a
    /// canonical direction for the identity case). A point whose pivot
    /// would be zero cannot be reduced: that is a precondition violation.
    pub fn reduce(&mut self)
        requires
            old(self).coords_wf(),
            !(old(self).pz() == 0 && old(self).py() == 0),
        ensures
            final(self).coords_wf(),
            final(self).spec_curve() == old(self).spec_curve(),
            exists|l: int|
                0 < l < old(self).modulus() && final(self).px() == #[trigger] ((old(self).px()
                    * l) % old(self).modulus()) && final(self).py() == (old(self).py() * l) % old(
                self).modulus() && final(self).pz() == (old(self).pz() * l) % old(self).modulus(),
            old(self).pz() != 0 ==> final(self).pz() == 1,
            old(self).pz() == 0 ==> final(self).py() == 1,
    {
        let ghost p = self.modulus();
        let lambda_inv = if self.z.is_zero() {
            self.y.inv()
        } else {
            self.z.inv()
        };
        let ghost piv = if old(self).pz() == 0 {
            old(self).py()
        } else {
            old(self).pz()
        };
        self.x = self.x.mul(&lambda_inv);
        self.y = self.y.mul(&lambda_inv);
        self.z = self.z.mul(&lambda_inv);
        proof {
            let l = lambda_inv@;
            assert((l * piv) % p == 1);
            assert(l != 0) by {
                if l == 0 {
                    lemma_mul_basics(piv);
                    lemma_small_mod(0, p as nat);
                }
            }
            assert((piv * l) % p == 1) by {
                lemma_mul_is_commutative(piv, l);
            }
            if old(self).pz() == 0 {
                assert(self.py() == 1) by {
                    lemma_small_mod(1, p as nat);
                }
            } else {
                assert(self.pz() == 1) by {
                    lemma_small_mod(1, p as nat);
                }
            }
            assert(0 < l < p && self.px() == (old(self).px() * l) % p && self.py() == (old(
            self).py() * l) % p && self.pz() == (old(self).pz() * l) % p);
        }
    }

    /// Whether some nonzero scale carries the coordinates of `self` onto
    /// those of `rhs`: projective equality of not-all-zero triples.
    pub open spec fn proportional(&self, rhs: &MontgomeryCurvePoint) -> bool {
        exists|l: int|
            0 < l < self.modulus() && rhs.px() == #[trigger] ((self.px() * l) % self.modulus())
                && rhs.py() == (self.py() * l) % self.modulus() && rhs.pz() == (self.pz() * l)
                % self.modulus()
    }

    /// Projective equality: the first nonzero coordinate of `self` (in the
    /// order `x`, `y`, `z`) serves as the scale pivot, and the points are
    /// equal iff the remaining coordinates match after scaling by the
    /// pivots' ratio. Comparing a point whose coordinates are all zero is a
    /// precondition violation, as is comparing points of different fields.
    pub fn eq_point(&self, rhs: &MontgomeryCurvePoint) -> (r: bool)
        requires
            self.coords_wf(),
            rhs.coords_wf(),
            self.modulus() == rhs.modulus(),
            !(self.px() == 0 && self.py() == 0 && self.pz() == 0),
            !(rhs.px() == 0 && rhs.py() == 0 && rhs.pz() == 0),
        ensures
            r <==> self.proportional(rhs),
    {
        if !self.x.is_zero() {
            scaled_match(&self.x, &rhs.x, &self.y, &rhs.y, &self.z, &rhs.z)
        } else if !self.y.is_zero() {
            let r = scaled_match(&self.y, &rhs.y, &self.x, &rhs.x, &self.z, &rhs.z);
            proof {
                let p = self.modulus();
                if r {
                    let l = choose|l: int|
                        0 < l < p && rhs.py() == #[trigger] ((self.py() * l) % p) && rhs.px()
                            == (self.px() * l) % p && rhs.pz() == (self.pz() * l) % p;
                    assert(rhs.px() == (self.px() * l) % p);
                }
                if self.proportional(rhs) {
                    let l = choose|l: int|
                        0 < l < p && rhs.px() == #[trigger] ((self.px() * l) % p) && rhs.py()
                            == (self.py() * l) % p && rhs.pz() == (self.pz() * l) % p;
                    assert(rhs.py() == (self.py() * l) % p);
                }
            }
            r
        } else {
            let r = scaled_match(&self.z, &rhs.z, &self.x, &rhs.x, &self.y, &rhs.y);
            proof {
                let p = self.modulus();
                if r {
                    let l = choose|l: int|
                        0 < l < p && rhs.pz() == #[trigger] ((self.pz() * l) % p) && rhs.px()
                            == (self.px() * l) % p && rhs.py() == (self.py() * l) % p;
                    assert(rhs.px() == (self.px() * l) % p);
                }
                if self.proportional(rhs) {
                    let l = choose|l: int|
                        0 < l < p && rhs.px() == #[trigger] ((self.px() * l) % p) && rhs.py()
                            == (self.py() * l) % p && rhs.pz() == (self.pz() * l) % p;
                    assert(rhs.pz() == (self.pz() * l) % p);
                }
            }
            r
        }
    }

    /// The group law: identity absorption, cancellation of a point with its
    /// negative (which settles doubling a 2-torsion point, whose tangent
    /// would be vertical), then the tangent or chord slope. The result is
    /// again a point of the curve.
    pub fn add(&self, rhs: &MontgomeryCurvePoint) -> (r: MontgomeryCurvePoint)
        requires
            self.wf(),
            rhs.wf(),
            self.spec_curve() == rhs.spec_curve(),
        ensures
            r.wf(),
            r.spec_curve() == self.spec_curve(),
            r.as_triple() == spec_point_add(
                self.modulus(),
                self.spec_curve().coeff(),
                self.as_triple(),
                rhs.as_triple(),
            ),
    {
        let ghost p = self.modulus();
        let ghost a = self.spec_curve().coeff();
        let ghost x1 = self.px();
        let ghost y1 = self.py();
        let ghost x2 = rhs.px();
        let ghost y2 = rhs.py();
        if self.z.is_zero() {
            return *rhs;
        }
        if rhs.z.is_zero() {
            return *self;
        }
        let ny = rhs.y.neg();
        if self.x.equals(&rhs.x) && self.y.equals(&ny) {
            return MontgomeryCurvePoint {
                curve: self.curve,
                x: self.curve.field.zero(),
                y: self.curve.field.one(),
                z: self.curve.field.zero(),
            };
        }
        let fp = &self.curve.field;
        let tangent = self.x.equals(&rhs.x) && self.y.equals(&rhs.y);
        let (num, den) = if tangent {
            proof {
                // a 2-torsion point would have cancelled against its own
                // negative above
                if y1 == 0 {
                    lemma_mod_self_0(p);
                    assert(false);
                }
            }
            let x1sq = self.x.mul(&self.x);
            let t1 = fp.gen(3).mul(&x1sq);
            let t2 = fp.gen(2).mul(&self.curve.a).mul(&self.x);
            let n = t1.add(&t2).add(&fp.one());
            proof {
                lemma_small_mod(a as nat, p as nat);
                lemma_mul_mod_noop_general(3, x1 * x1, p);
                assert(t1@ == (3 * (x1 * x1)) % p);
                lemma_mul_mod_noop_left(2, a, p);
                lemma_mul_mod_noop_left(2 * a, x1, p);
                lemma_mul_is_associative(2, a, x1);
                assert(t2@ == (2 * (a * x1)) % p);
                lemma_add_mod_noop(3 * (x1 * x1), 2 * (a * x1), p);
                lemma_small_mod(1, p as nat);
                lemma_add_mod_noop(3 * (x1 * x1) + 2 * (a * x1), 1, p);
                assert(n@ == (3 * (x1 * x1) + 2 * (a * x1) + 1) % p);
            }
            (n, self.y.add(&self.y))
        } else {
            proof {
                if x1 == x2 {
                    lemma_same_x_y_matches(p, a, x1, y1, y2);
                    assert(false);
                }
            }
            (self.y.sub(&rhs.y), self.x.sub(&rhs.x))
        };
        proof {
            if tangent {
                lemma_double_nonzero(y1, p);
                assert(den@ == (2 * y1) % p);
            } else {
                lemma_small_nonzero_mod(x1 - x2, p);
            }
        }
        let dinv = den.inv();
        let l = num.mul(&dinv);
        proof {
            lemma_mul_is_commutative(dinv@, den@);
            lemma_inv_mod_unique(den@, dinv@, p);
            lemma_slope_satisfies(p, num@, den@, dinv@, l@);
        }
        let x3e = l.mul(&l).sub(&self.x).sub(&rhs.x).sub(&self.curve.a);
        proof {
            let lv = l@;
            lemma_mod_twice(lv * lv, p);
            lemma_small_mod(x1 as nat, p as nat);
            lemma_sub_mod_noop(lv * lv, x1, p);
            lemma_small_mod(x2 as nat, p as nat);
            lemma_sub_mod_noop(lv * lv - x1, x2, p);
            lemma_small_mod(a as nat, p as nat);
            lemma_sub_mod_noop(lv * lv - x1 - x2, a, p);
            assert(x3e@ == (lv * lv - x1 - x2 - a) % p);
        }
        let y3e = l.mul(&self.x.sub(&x3e)).sub(&self.y);
        proof {
            let lv = l@;
            let x3r = x3e@;
            lemma_mul_mod_noop_right(lv, x1 - x3r, p);
            lemma_small_mod(y1 as nat, p as nat);
            lemma_mod_twice(lv * (x1 - x3r), p);
            lemma_sub_mod_noop(lv * (x1 - x3r), y1, p);
            assert(y3e@ == (lv * (x1 - x3r) - y1) % p);
            // the slope's defining equation puts the result on the curve
            if tangent {
                lemma_tangent_uv(p, a, x1, y1, lv);
            } else {
                lemma_chord_uv(p, a, x1, y1, x2, y2, lv);
            }
            lemma_uv_curve(p, a, x1, y1, x2, lv);
        }
        MontgomeryCurvePoint { curve: self.curve, x: x3e, y: y3e, z: fp.one() }
    }

    /// Subtraction: addition of the negative.
    pub fn sub(&self, rhs: &MontgomeryCurvePoint) -> (r: MontgomeryCurvePoint)
        requires
            self.wf(),
            rhs.wf(),
            self.spec_curve() == rhs.spec_curve(),
        ensures
            r.wf(),
            r.spec_curve() == self.spec_curve(),
            r.as_triple() == spec_point_add(
                self.modulus(),
                self.spec_curve().coeff(),
                self.as_triple(),
                spec_point_neg(self.modulus(), rhs.as_triple()),
            ),
    {
        self.add(&rhs.neg())
    }
}

impl GroupElement for MontgomeryCurvePoint {
    open spec fn elem_wf(&self) -> bool {
        self.wf()
    }

    open spec fn is_zero_spec(&self) -> bool {
        self.pz() == 0
    }

    fn is_zero(&self) -> (r: bool) {
        self.z.is_zero()
    }
}

impl Group for MontgomeryCurve {
    type Element = MontgomeryCurvePoint;

    open spec fn group_wf(&self) -> bool {
        self.wf()
    }

    open spec fn owns(&self, e: &MontgomeryCurvePoint) -> bool {
        e.spec_curve() == *self
    }

    fn zero(&self) -> (r: MontgomeryCurvePoint) {
        MontgomeryCurvePoint {
            curve: *self,
            x: self.field.zero(),
            y: self.field.one(),
            z: self.field.zero(),
        }
    }
}

/// Shared pivot comparison for projective equality: with `p1` nonzero as
/// the pivot, decide whether one nonzero scale carries `(p1, a1, b1)` onto
/// `(p2, a2, b2)`.
fn scaled_match(
    p1: &FiniteFieldElement,
    p2: &FiniteFieldElement,
    a1: &FiniteFieldElement,
    a2: &FiniteFieldElement,
    b1: &FiniteFieldElement,
    b2: &FiniteFieldElement,
) -> (r: bool)
    requires
        p1.wf() && p2.wf() && a1.wf() && a2.wf() && b1.wf() && b2.wf(),
        p1.modulus() == p2.modulus(),
        p1.modulus() == a1.modulus() && p1.modulus() == a2.modulus(),
        p1.modulus() == b1.modulus() && p1.modulus() == b2.modulus(),
        p1@ != 0,
        !(p2@ == 0 && a2@ == 0 && b2@ == 0),
    ensures
        r <==> exists|l: int|
            0 < l < p1.modulus() && p2@ == #[trigger] ((p1@ * l) % p1.modulus()) && a2@ == (a1@
                * l) % p1.modulus() && b2@ == (b1@ * l) % p1.modulus(),
{
    let ghost p = p1.modulus();
    let pinv = p1.inv();
    let lam = pinv.mul(p2);
    let ca = a1.mul(&lam).equals(a2);
    let cb = b1.mul(&lam).equals(b2);
    let r = ca && cb;
    proof {
        lemma_mul_is_commutative(pinv@, p1@);
        if r {
            // the computed ratio is itself a witness
            assert((p1@ * lam@) % p == p2@) by {
                lemma_mul_mod_assoc(p1@, pinv@, p2@, p);
                lemma_mul_mod_noop_left(p1@ * pinv@, p2@, p);
                lemma_mul_basics(p2@);
                lemma_small_mod(p2@ as nat, p as nat);
            }
            assert(lam@ != 0) by {
                if lam@ == 0 {
                    lemma_mul_basics(p1@);
                    lemma_mul_basics(a1@);
                    lemma_mul_basics(b1@);
                    lemma_small_mod(0, p as nat);
                }
            }
            assert(0 < lam@ < p && p2@ == (p1@ * lam@) % p && a2@ == (a1@ * lam@) % p && b2@ == (
            b1@ * lam@) % p);
        }
        if exists|l: int|
            0 < l < p && p2@ == #[trigger] ((p1@ * l) % p) && a2@ == (a1@ * l) % p && b2@ == (b1@
                * l) % p {
            let l = choose|l: int|
                0 < l < p && p2@ == #[trigger] ((p1@ * l) % p) && a2@ == (a1@ * l) % p && b2@ == (
                b1@ * l) % p;
            assert(lam@ == l) by {
                lemma_mul_mod_assoc(pinv@, p1@, l, p);
                lemma_mul_mod_noop_left(pinv@ * p1@, l, p);
                lemma_mul_basics(l);
                lemma_small_mod(l as nat, p as nat);
            }
            assert(ca && cb);
        }
    }
    r
}

/// Adding the identity on either side leaves a point unchanged.
pub proof fn lemma_add_identity(p: int, a: int, t: (int, int, int))
    requires
        t.2 == 0 ==> t == (0int, 1int, 0int),
    ensures
        spec_point_add(p, a, t, (0int, 1int, 0int)) == t,
        spec_point_add(p, a, (0int, 1int, 0int), t) == t,
{
}

/// A point of the group law cancels against its own negative: their sum is
/// the identity. In particular doubling a 2-torsion point (`y = 0`), whose
/// negative is itself, yields the identity rather than a division by zero.
pub proof fn lemma_add_negative(p: int, a: int, t: (int, int, int))
    requires
        p >= 2,
        0 <= t.1 < p,
        t.2 == 0 ==> t == (0int, 1int, 0int),
    ensures
        spec_point_add(p, a, t, spec_point_neg(p, t)) == (0int, 1int, 0int),
{
    if t.2 != 0 {
        let y = t.1;
        if y == 0 {
            lemma_mod_self_0(p);
        } else {
            lemma_small_mod((p - y) as nat, p as nat);
            lemma_small_mod(y as nat, p as nat);
        }
    }
}

/// The raw (unreduced) abscissa produced by the group law from slope `l`.
spec fn law_x3(a: int, x1: int, x2: int, l: int) -> int {
    l * l - x1 - x2 - a
}

/// Linear coefficient of the difference between the curve polynomial and
/// the square of the slope line, after splitting off the product of the
/// three root factors.
spec fn law_u(a: int, x1: int, y1: int, x2: int, l: int) -> int {
    1 - 2 * (l * (y1 - l * x1)) - (x1 * x2 + x1 * law_x3(a, x1, x2, l) + x2 * law_x3(
        a,
        x1,
        x2,
        l,
    ))
}

/// Constant coefficient of the same difference.
spec fn law_v(a: int, x1: int, y1: int, x2: int, l: int) -> int {
    x1 * x2 * law_x3(a, x1, x2, l) - (y1 - l * x1) * (y1 - l * x1)
}

/// Expansion of a product of three root factors into coefficients.
proof fn lemma_cubic_roots(x1: int, x2: int, x3: int, xx: int)
    ensures
        (xx - x1) * (xx - x2) * (xx - x3) == xx * xx * xx - (x1 + x2 + x3) * (xx * xx) + (x1 * x2
            + x1 * x3 + x2 * x3) * xx - x1 * x2 * x3,
{
    let q = xx * xx - (x1 + x2) * xx + x1 * x2;
    assert((xx - x1) * (xx - x2) == q) by (nonlinear_arith)
        requires
            q == xx * xx - (x1 + x2) * xx + x1 * x2,
    ;
    // distribute the quadratic factor over the last linear one
    lemma_mul_is_distributive_sub(q, xx, x3);
    assert(q * xx == xx * xx * xx - (x1 + x2) * (xx * xx) + (x1 * x2) * xx) by {
        lemma_mul_is_distributive_add_other_way(xx, xx * xx - (x1 + x2) * xx, x1 * x2);
        lemma_mul_is_distributive_sub_other_way(xx, xx * xx, (x1 + x2) * xx);
        lemma_mul_is_associative(x1 + x2, xx, xx);
    }
    assert(q * x3 == x3 * (xx * xx) - ((x1 + x2) * x3) * xx + x1 * x2 * x3) by {
        lemma_mul_is_distributive_add_other_way(x3, xx * xx - (x1 + x2) * xx, x1 * x2);
        lemma_mul_is_distributive_sub_other_way(x3, xx * xx, (x1 + x2) * xx);
        lemma_mul_is_commutative(xx * xx, x3);
        lemma_mul_is_associative(x1 + x2, xx, x3);
        lemma_mul_is_commutative(xx, x3);
        lemma_mul_is_associative(x1 + x2, x3, xx);
    }
    // regroup the coefficients of the expanded difference
    lemma_mul_is_distributive_add_other_way(xx * xx, x1 + x2, x3);
    lemma_mul_is_distributive_add_other_way(xx, x1 * x2, (x1 + x2) * x3);
    lemma_mul_is_distributive_add_other_way(x3, x1, x2);
}

/// The defining ring identity of the group law: at any abscissa, the curve
/// polynomial minus the square of the slope line differs from the linear
/// correction `u * x + v` exactly by the product of the three root factors.
proof fn lemma_law_identity(a: int, x1: int, y1: int, x2: int, l: int, xx: int)
    ensures
        curve_rhs(a, xx) - (l * xx + (y1 - l * x1)) * (l * xx + (y1 - l * x1)) - (law_u(
            a,
            x1,
            y1,
            x2,
            l,
        ) * xx + law_v(a, x1, y1, x2, l)) == (xx - x1) * (xx - x2) * (xx - law_x3(a, x1, x2, l)),
{
    let c = y1 - l * x1;
    let x3 = law_x3(a, x1, x2, l);
    let u = law_u(a, x1, y1, x2, l);
    let v = law_v(a, x1, y1, x2, l);
    lemma_cubic_roots(x1, x2, x3, xx);
    assert((l * xx + c) * (l * xx + c) == (l * l) * (xx * xx) + 2 * ((l * c) * xx) + c * c)
        by (nonlinear_arith);
    assert(u * xx == xx - 2 * ((l * c) * xx) - (x1 * x2 + x1 * x3 + x2 * x3) * xx) by {
        lemma_mul_is_distributive_sub_other_way(xx, 1 - 2 * (l * c), x1 * x2 + x1 * x3 + x2 * x3);
        lemma_mul_is_distributive_sub_other_way(xx, 1, 2 * (l * c));
        lemma_mul_basics(xx);
        lemma_mul_is_associative(2, l * c, xx);
    }
    assert((x1 + x2 + x3) * (xx * xx) == (l * l) * (xx * xx) - a * (xx * xx)) by {
        lemma_mul_is_distributive_sub_other_way(xx * xx, l * l, a);
    }
}

/// Two points of the curve over one abscissa have matching or opposite
/// ordinates: in a field, `y1^2 = y2^2` leaves no third possibility.
proof fn lemma_same_x_y_matches(p: int, a: int, x: int, y1: int, y2: int)
    requires
        is_prime(p),
        0 <= y1 < p,
        0 <= y2 < p,
        on_curve_affine(p, a, x, y1),
        on_curve_affine(p, a, x, y2),
    ensures
        y1 == y2 || y1 == (p - y2) % p,
{
    let d1 = (y1 - y2) % p;
    let d2 = (y1 + y2) % p;
    assert(((y1 - y2) * (y1 + y2)) % p == 0) by {
        assert((y1 - y2) * (y1 + y2) == y1 * y1 - y2 * y2) by (nonlinear_arith);
        lemma_sub_mod_noop(y1 * y1, y2 * y2, p);
        lemma_small_mod(0, p as nat);
    }
    assert((d1 * d2) % p == 0) by {
        lemma_mul_mod_noop_general(y1 - y2, y1 + y2, p);
    }
    lemma_mod_bound(y1 - y2, p);
    lemma_mod_bound(y1 + y2, p);
    if d1 != 0 {
        lemma_prime_zero_product(d1, d2, p);
        if y1 + y2 == 0 {
            lemma_mod_self_0(p);
        } else {
            if y1 + y2 < p {
                lemma_small_mod((y1 + y2) as nat, p as nat);
                assert(false);
            }
            lemma_mod_sub_multiples_vanish(y1 + y2, p);
            lemma_small_mod((y1 + y2 - p) as nat, p as nat);
            assert(y1 + y2 == p);
            lemma_small_mod((p - y2) as nat, p as nat);
        }
    } else {
        if y1 != y2 {
            lemma_small_nonzero_mod(y1 - y2, p);
            assert(false);
        }
    }
}

/// A slope computed as `numerator * denominator^(-1)` satisfies the
/// defining equation `slope * denominator = numerator` modulo `p`.
proof fn lemma_slope_satisfies(p: int, num: int, den: int, dinv: int, l: int)
    requires
        p >= 2,
        0 <= num < p,
        (dinv * den) % p == 1,
        l == (num * dinv) % p,
    ensures
        (l * den) % p == num,
{
    lemma_mul_mod_noop_left(num * dinv, den, p);
    lemma_mul_is_associative(num, dinv, den);
    lemma_mul_mod_noop_right(num, dinv * den, p);
    lemma_mul_basics(num);
    lemma_small_mod(num as nat, p as nat);
}

/// If both correction coefficients vanish modulo `p`, the coordinates the
/// group law produces satisfy the curve equation.
#[verifier::rlimit(50)]
proof fn lemma_uv_curve(p: int, a: int, x1: int, y1: int, x2: int, l: int)
    requires
        p >= 2,
        law_u(a, x1, y1, x2, l) % p == 0,
        law_v(a, x1, y1, x2, l) % p == 0,
    ensures
        on_curve_affine(
            p,
            a,
            law_x3(a, x1, x2, l) % p,
            (l * (x1 - (law_x3(a, x1, x2, l) % p)) - y1) % p,
        ),
{
    let x3 = law_x3(a, x1, x2, l);
    let y3 = l * (x1 - x3) - y1;
    let c = y1 - l * x1;
    let u = law_u(a, x1, y1, x2, l);
    let v = law_v(a, x1, y1, x2, l);
    assert(x3 == l * l - x1 - x2 - a);
    // the group law's abscissa is the third root of the defining identity
    lemma_law_identity(a, x1, y1, x2, l, x3);
    assert((x3 - x1) * (x3 - x2) * (x3 - x3) == 0) by (nonlinear_arith);
    assert(y3 == -(l * x3 + c)) by (nonlinear_arith)
        requires
            y3 == l * (x1 - x3) - y1,
            c == y1 - l * x1,
    ;
    assert(y3 * y3 == (l * x3 + c) * (l * x3 + c)) by (nonlinear_arith)
        requires
            y3 == -(l * x3 + c),
    ;
    assert(curve_rhs(a, x3) - y3 * y3 == u * x3 + v);
    // modulo p the correction vanishes
    assert((u * x3 + v) % p == 0) by {
        lemma_mul_mod_noop_left(u, x3, p);
        assert((u * x3) % p == ((u % p) * x3) % p);
        lemma_mul_basics(x3);
        assert((0int * x3) == 0);
        lemma_small_mod(0, p as nat);
        assert((u * x3) % p == 0);
        lemma_add_mod_noop(u * x3, v, p);
    }
    assert(curve_rhs(a, x3) % p == (y3 * y3) % p) by {
        assert(curve_rhs(a, x3) == y3 * y3 + (u * x3 + v));
        lemma_add_mod_noop(y3 * y3, u * x3 + v, p);
        lemma_mod_twice(y3 * y3, p);
    }
    // transfer to the reduced abscissa and the ordinate computed from it
    let x3r = x3 % p;
    let y3r = l * (x1 - x3r) - y1;
    assert(y3r % p == y3 % p) by {
        lemma_fundamental_div_mod(x3, p);
        assert(y3r == y3 + (l * (x3 / p)) * p) by (nonlinear_arith)
            requires
                x3 == p * (x3 / p) + x3r,
                y3 == l * (x1 - x3) - y1,
                y3r == l * (x1 - x3r) - y1,
        ;
        lemma_mod_multiples_vanish(l * (x3 / p), y3, p);
        lemma_mul_is_commutative(l * (x3 / p), p);
    }
    assert((y3r % p) * (y3r % p) % p == (y3 * y3) % p) by {
        lemma_mul_mod_noop_general(y3r, y3r, p);
        lemma_mul_mod_noop_general(y3, y3, p);
    }
    assert(curve_rhs(a, x3r) % p == curve_rhs(a, x3) % p) by {
        lemma_curve_rhs_mod_noop(p, a, x3);
    }
}

/// Reducing the abscissa before evaluating the curve polynomial does not
/// change the result modulo `p`.
proof fn lemma_curve_rhs_mod_noop(p: int, a: int, x: int)
    requires
        p >= 2,
    ensures
        curve_rhs(a, x % p) % p == curve_rhs(a, x) % p,
{
    let w = x % p;
    assert((w * w) % p == (x * x) % p) by {
        lemma_mul_mod_noop_general(x, x, p);
        lemma_mod_twice(x * x, p);
    }
    assert((w * w * w) % p == (x * x * x) % p) by {
        lemma_mul_mod_noop_left(w * w, w, p);
        lemma_mul_mod_noop_left(x * x, x, p);
        assert(((w * w) % p) * w % p == ((x * x) % p) * w % p);
        lemma_mul_mod_noop_general(x * x, x, p);
        lemma_mul_mod_noop_general(x * x, w, p);
        assert((((x * x) % p) * w) % p == ((x * x) * w) % p);
        assert(((x * x) * w) % p == ((x * x) * (x % p)) % p);
        lemma_mul_mod_noop_right(x * x, x, p);
    }
    assert((a * (w * w)) % p == (a * (x * x)) % p) by {
        lemma_mul_mod_noop_right(a, w * w, p);
        lemma_mul_mod_noop_right(a, x * x, p);
    }
    assert(w % p == x % p) by {
        lemma_mod_twice(x, p);
    }
    assert(curve_rhs(a, w) % p == curve_rhs(a, x) % p) by {
        lemma_add_mod_noop(w * w * w, a * (w * w), p);
        lemma_add_mod_noop(x * x * x, a * (x * x), p);
        lemma_add_mod_noop(w * w * w + a * (w * w), w, p);
        lemma_add_mod_noop(x * x * x + a * (x * x), x, p);
        lemma_mod_twice(w * w * w + a * (w * w), p);
        lemma_mod_twice(x * x * x + a * (x * x), p);
    }
}

/// For a chord between two distinct-abscissa points of the curve, both
/// correction coefficients vanish modulo `p`.
#[verifier::rlimit(50)]
proof fn lemma_chord_uv(p: int, a: int, x1: int, y1: int, x2: int, y2: int, l: int)
    requires
        is_prime(p),
        0 <= x1 < p,
        0 <= y1 < p,
        0 <= x2 < p,
        0 <= y2 < p,
        0 <= l < p,
        x1 != x2,
        on_curve_affine(p, a, x1, y1),
        on_curve_affine(p, a, x2, y2),
        (l * ((x1 - x2) % p)) % p == (y1 - y2) % p,
    ensures
        law_u(a, x1, y1, x2, l) % p == 0,
        law_v(a, x1, y1, x2, l) % p == 0,
{
    let u = law_u(a, x1, y1, x2, l);
    let v = law_v(a, x1, y1, x2, l);
    let c0 = l * (x1 - x2) - (y1 - y2);
    assert(c0 % p == 0) by {
        lemma_mul_mod_noop_right(l, x1 - x2, p);
        lemma_sub_mod_noop(l * (x1 - x2), y1 - y2, p);
        lemma_mod_twice(y1 - y2, p);
        lemma_small_mod(0, p as nat);
    }
    // the line's value at x2 is congruent to y2
    let t = l * (x2 - x1) + y1;
    assert((t - y2) % p == 0) by {
        assert(t - y2 == -c0) by (nonlinear_arith)
            requires
                t == l * (x2 - x1) + y1,
                c0 == l * (x1 - x2) - (y1 - y2),
        ;
        crate::arith::lemma_neg_mod(c0, p);
        lemma_mod_self_0(p);
    }
    assert((t * t) % p == (y2 * y2) % p) by {
        lemma_mod_equivalence(t, y2, p);
        lemma_mul_mod_noop_general(t, t, p);
        lemma_mul_mod_noop_general(y2, y2, p);
    }
    // the correction evaluated at x1 and at x2 vanishes
    let c = y1 - l * x1;
    let x3 = law_x3(a, x1, x2, l);
    assert(x3 == l * l - x1 - x2 - a);
    assert((u * x1 + v) % p == 0) by {
        lemma_law_identity(a, x1, y1, x2, l, x1);
        assert((x1 - x1) * (x1 - x2) * (x1 - x3) == 0) by (nonlinear_arith);
        assert((l * x1 + c) * (l * x1 + c) == y1 * y1) by (nonlinear_arith)
            requires
                c == y1 - l * x1,
        ;
        assert(u * x1 + v == curve_rhs(a, x1) - y1 * y1);
        lemma_sub_mod_noop(curve_rhs(a, x1), y1 * y1, p);
        lemma_small_mod(0, p as nat);
    }
    assert((u * x2 + v) % p == 0) by {
        lemma_law_identity(a, x1, y1, x2, l, x2);
        assert((x2 - x1) * (x2 - x2) * (x2 - x3) == 0) by (nonlinear_arith);
        assert(t == l * x2 + c) by (nonlinear_arith)
            requires
                t == l * (x2 - x1) + y1,
                c == y1 - l * x1,
        ;
        assert((l * x2 + c) * (l * x2 + c) == t * t);
        assert(u * x2 + v == curve_rhs(a, x2) - t * t);
        lemma_sub_mod_noop(curve_rhs(a, x2), t * t, p);
        lemma_small_mod(0, p as nat);
    }
    // their difference isolates u against the nonzero factor x1 - x2
    assert((u * (x1 - x2)) % p == 0) by {
        assert(u * (x1 - x2) == (u * x1 + v) - (u * x2 + v)) by (nonlinear_arith);
        lemma_sub_mod_noop(u * x1 + v, u * x2 + v, p);
        lemma_small_mod(0, p as nat);
    }
    let d = (x1 - x2) % p;
    let ur = u % p;
    assert(d != 0) by {
        lemma_small_nonzero_mod(x1 - x2, p);
    }
    assert((d * ur) % p == 0) by {
        lemma_mul_mod_noop_general(x1 - x2, u, p);
        lemma_mul_is_commutative(x1 - x2, u);
        lemma_mod_twice((x1 - x2) * u, p);
    }
    lemma_mod_bound(x1 - x2, p);
    lemma_mod_bound(u, p);
    lemma_prime_zero_product(d, ur, p);
    // and then v vanishes as well
    assert(v % p == 0) by {
        assert((u * x1) % p == 0) by {
            lemma_mul_mod_noop_left(u, x1, p);
            lemma_mul_basics(x1);
            lemma_small_mod(0, p as nat);
        }
        assert(v == (u * x1 + v) - u * x1);
        lemma_sub_mod_noop(u * x1 + v, u * x1, p);
        lemma_small_mod(0, p as nat);
    }
}

/// For the tangent at a point of the curve with nonzero ordinate, both
/// correction coefficients vanish modulo `p`.
#[verifier::rlimit(50)]
proof fn lemma_tangent_uv(p: int, a: int, x1: int, y1: int, l: int)
    requires
        is_prime(p),
        0 <= x1 < p,
        0 <= y1 < p,
        0 <= l < p,
        on_curve_affine(p, a, x1, y1),
        (l * ((2 * y1) % p)) % p == (3 * (x1 * x1) + 2 * (a * x1) + 1) % p,
    ensures
        law_u(a, x1, y1, x1, l) % p == 0,
        law_v(a, x1, y1, x1, l) % p == 0,
{
    let u = law_u(a, x1, y1, x1, l);
    let v = law_v(a, x1, y1, x1, l);
    let t0 = l * (2 * y1) - (3 * (x1 * x1) + 2 * (a * x1) + 1);
    assert(t0 % p == 0) by {
        lemma_mul_mod_noop_right(l, 2 * y1, p);
        lemma_sub_mod_noop(l * (2 * y1), 3 * (x1 * x1) + 2 * (a * x1) + 1, p);
        lemma_mod_twice(3 * (x1 * x1) + 2 * (a * x1) + 1, p);
        lemma_small_mod(0, p as nat);
    }
    let c = y1 - l * x1;
    let x3 = law_x3(a, x1, x1, l);
    assert(x3 == l * l - x1 - x1 - a);
    assert(u == 1 - 2 * (l * c) - (x1 * x1 + x1 * x3 + x1 * x3));
    assert(v == x1 * x1 * x3 - c * c);
    assert(u % p == 0) by {
        assert(u == -t0) by (nonlinear_arith)
            requires
                u == 1 - 2 * (l * c) - (x1 * x1 + x1 * x3 + x1 * x3),
                c == y1 - l * x1,
                x3 == l * l - x1 - x1 - a,
                t0 == l * (2 * y1) - (3 * (x1 * x1) + 2 * (a * x1) + 1),
        ;
        crate::arith::lemma_neg_mod(t0, p);
        lemma_mod_self_0(p);
    }
    assert((u * x1 + v) % p == 0) by {
        lemma_law_identity(a, x1, y1, x1, l, x1);
        assert((x1 - x1) * (x1 - x1) * (x1 - x3) == 0) by (nonlinear_arith);
        assert((l * x1 + c) * (l * x1 + c) == y1 * y1) by (nonlinear_arith)
            requires
                c == y1 - l * x1,
        ;
        assert(u * x1 + v == curve_rhs(a, x1) - y1 * y1);
        lemma_sub_mod_noop(curve_rhs(a, x1), y1 * y1, p);
        lemma_small_mod(0, p as nat);
    }
    assert(v % p == 0) by {
        assert((u * x1) % p == 0) by {
            lemma_mul_mod_noop_left(u, x1, p);
            lemma_mul_basics(x1);
            lemma_small_mod(0, p as nat);
        }
        assert(v == (u * x1 + v) - u * x1);
        lemma_sub_mod_noop(u * x1 + v, u * x1, p);
        lemma_small_mod(0, p as nat);
    }
}

} // verus!
