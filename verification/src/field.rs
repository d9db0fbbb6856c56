//! Prime fields and their elements: construction guarded by a primality
//! test, modular arithmetic, extended-Euclidean inversion, square-and-multiply
//! exponentiation and square-root extraction.

use vstd::prelude::*;
use vstd::arithmetic::div_mod::*;
use vstd::arithmetic::mul::*;
use vstd::arithmetic::power::*;
use crate::arith::{is_prime, gcd, lemma_bezout, lemma_prime_gcd_one,
    lemma_inverse_unique, lemma_pow_step, lemma_scalar_step, lemma_neg_mod,
    lemma_pow_nonzero_mod_prime, lemma_sqrt_closed_form};

verus! {

/// Failure conditions surfaced as values rather than panics.
#[derive(Clone, Copy, Debug, PartialEq, Eq, Structural)]
pub enum FieldError {
    /// The modulus handed to `FiniteField::new` did not pass the primality test.
    NotPrime,
}

/// A prime field: the integers modulo an odd prime `p` (the structure holds
/// the modulus only; elements carry a copy of this handle as their
/// back-reference).
#[derive(Clone, Copy, Debug, PartialEq, Eq, Structural)]
pub struct FiniteField {
    prime: u64,
}

/// An element of a prime field: a residue fully reduced into `[0, p)`,
/// together with the handle of its owning field.
#[derive(Clone, Copy, Debug, PartialEq, Eq, Structural)]
pub struct FiniteFieldElement {
    field: FiniteField,
    num: u64,
}

impl View for FiniteFieldElement {
    type V = int;

    /// The residue this element stands for, as a mathematical integer.
    closed spec fn view(&self) -> int {
        self.num as int
    }
}

/// Relies on num_prime::nt_funcs::is_prime64: a deterministic Miller-Rabin
/// primality decision, exact on the whole u64 range.
#[verifier::external_body]
fn is_prime_u64(n: u64) -> (r: bool)
    ensures
        r <==> is_prime(n as int),
{
    num_prime::nt_funcs::is_prime64(n)
}

/// Relies on rand::random: a word from the thread-local random generator.
/// Nothing is promised of the value.
#[verifier::external_body]
fn random_u64() -> u64 {
    rand::random::<u64>()
}

impl FiniteField {
    /// The modulus, seen as a mathematical integer.
    pub closed spec fn spec_prime(&self) -> int {
        self.prime as int
    }

    /// A well-formed field has a prime modulus.
    pub open spec fn wf(&self) -> bool {
        is_prime(self.spec_prime())
    }

    /// Construct the field of integers modulo `prime`; fails unless the
    /// modulus passes the primality test.
    pub fn new(prime: u64) -> (r: Result<FiniteField, FieldError>)
        ensures
            r is Ok <==> is_prime(prime as int),
            r matches Ok(f) ==> f.wf() && f.spec_prime() == prime,
    {
        if is_prime_u64(prime) {
            Ok(FiniteField { prime })
        } else {
            Err(FieldError::NotPrime)
        }
    }

    /// The modulus of this field.
    pub fn prime(&self) -> (r: u64)
        ensures
            r == self.spec_prime(),
    {
        self.prime
    }

    /// Reduce an arbitrary integer into `[0, p)` and wrap it as an element.
    pub fn gen(&self, num: i128) -> (r: FiniteFieldElement)
        requires
            self.wf(),
        ensures
            r.wf(),
            r.modulus() == self.spec_prime(),
            r@ == (num as int) % self.spec_prime(),
    {
        let p = self.prime;
        if num >= 0 {
            let m = ((num as u128) % (p as u128)) as u64;
            proof {
                lemma_mod_bound(num as int, p as int);
            }
            FiniteFieldElement { field: *self, num: m }
        } else {
            // the magnitude of `num`, computed without overflowing `i128`
            let mag: u128 = ((-(num + 1)) as u128) + 1;
            let m = (mag % (p as u128)) as u64;
            proof {
                lemma_mod_bound(mag as int, p as int);
                lemma_fundamental_div_mod(mag as int, p as int);
            }
            proof {
                assert(mag as int == -(num as int));
            }
            if m == 0 {
                proof {
                    assert(num as int == (-(mag as int / p as int)) * (p as int) + 0)
                        by (nonlinear_arith)
                        requires
                            mag as int == (p as int) * (mag as int / p as int) + (
                            mag as int % p as int),
                            mag as int % p as int == 0,
                            num as int == -(mag as int),
                    ;
                    lemma_fundamental_div_mod_converse_mod(
                        num as int,
                        p as int,
                        -(mag as int / p as int),
                        0,
                    );
                }
                FiniteFieldElement { field: *self, num: 0 }
            } else {
                proof {
                    assert(num as int == (-(mag as int / p as int) - 1) * (p as int) + (
                    p as int - m as int)) by (nonlinear_arith)
                        requires
                            mag as int == (p as int) * (mag as int / p as int) + (
                            mag as int % p as int),
                            m as int == mag as int % p as int,
                            num as int == -(mag as int),
                    ;
                    lemma_fundamental_div_mod_converse_mod(
                        num as int,
                        p as int,
                        -(mag as int / p as int) - 1,
                        p as int - m as int,
                    );
                }
                FiniteFieldElement { field: *self, num: p - m }
            }
        }
    }

    /// The additive identity.
    pub fn zero(&self) -> (r: FiniteFieldElement)
        requires
            self.wf(),
        ensures
            r.wf(),
            r.modulus() == self.spec_prime(),
            r@ == 0,
    {
        FiniteFieldElement { field: *self, num: 0 }
    }

    /// The multiplicative identity.
    pub fn one(&self) -> (r: FiniteFieldElement)
        requires
            self.wf(),
        ensures
            r.wf(),
            r.modulus() == self.spec_prime(),
            r@ == 1,
    {
        FiniteFieldElement { field: *self, num: 1 }
    }

    /// Number of binary digits of the modulus.
    fn bit_length(&self) -> (r: usize)
        ensures
            r <= 64,
    {
        let mut n = self.prime;
        let mut c: usize = 0;
        while n > 0 && c < 64
            invariant
                c <= 64,
            decreases n,
        {
            n = n / 2;
            c = c + 1;
        }
        c
    }

    /// A random element of the field: a sample of `size` random bits
    /// (defaulting to the bit length of the modulus), reduced into `[0, p)`.
    pub fn rand(&self, size: Option<usize>) -> (r: FiniteFieldElement)
        requires
            self.wf(),
        ensures
            r.wf(),
            r.modulus() == self.spec_prime(),
    {
        let bits: usize = match size {
            Some(s) => s,
            None => self.bit_length(),
        };
        let raw = random_u64();
        let sample = if bits >= 64 {
            raw
        } else {
            let sh = bits as u64;
            assert((1u64 << sh) >= 1) by (bit_vector)
                requires
                    sh < 64,
            ;
            raw & ((1u64 << sh) - 1)
        };
        self.gen(sample as i128)
    }
}

impl FiniteFieldElement {
    /// The modulus of the owning field.
    pub closed spec fn modulus(&self) -> int {
        self.field.prime as int
    }

    /// The owning field.
    pub closed spec fn spec_field(&self) -> FiniteField {
        self.field
    }

    /// A well-formed element: its field is well formed and its residue is
    /// fully reduced.
    pub open spec fn wf(&self) -> bool {
        is_prime(self.modulus()) && 0 <= self@ < self.modulus()
    }

    /// Construct an element of `field` from an arbitrary integer, reducing it.
    pub fn new(field: &FiniteField, num: i128) -> (r: FiniteFieldElement)
        requires
            field.wf(),
        ensures
            r.wf(),
            r.modulus() == field.spec_prime(),
            r@ == (num as int) % field.spec_prime(),
    {
        field.gen(num)
    }

    /// The reduced residue.
    pub fn value(&self) -> (r: u64)
        ensures
            r == self@,
    {
        self.num
    }

    /// Whether this is the additive identity.
    pub fn is_zero(&self) -> (r: bool)
        ensures
            r <==> self@ == 0,
    {
        self.num == 0
    }

    /// Equality of elements of one field. Comparing elements of fields with
    /// different moduli is a precondition violation, mirrored here as a
    /// `requires` rather than a run-time failure.
    pub fn equals(&self, rhs: &FiniteFieldElement) -> (r: bool)
        requires
            self.modulus() == rhs.modulus(),
        ensures
            r <==> self@ == rhs@,
    {
        self.num == rhs.num
    }

    /// Addition modulo `p`.
    pub fn add(&self, rhs: &FiniteFieldElement) -> (r: FiniteFieldElement)
        requires
            self.wf(),
            rhs.wf(),
            self.modulus() == rhs.modulus(),
        ensures
            r.wf(),
            r.modulus() == self.modulus(),
            r@ == (self@ + rhs@) % self.modulus(),
    {
        let p = self.field.prime;
        let s = ((self.num as u128) + (rhs.num as u128)) % (p as u128);
        proof {
            lemma_mod_bound(self@ + rhs@, p as int);
        }
        FiniteFieldElement { field: self.field, num: s as u64 }
    }

    /// Subtraction modulo `p`, sign-corrected by adding `p` before reducing.
    pub fn sub(&self, rhs: &FiniteFieldElement) -> (r: FiniteFieldElement)
        requires
            self.wf(),
            rhs.wf(),
            self.modulus() == rhs.modulus(),
        ensures
            r.wf(),
            r.modulus() == self.modulus(),
            r@ == (self@ - rhs@) % self.modulus(),
    {
        let p = self.field.prime;
        let s = ((self.num as u128) + (p as u128) - (rhs.num as u128)) % (p as u128);
        proof {
            lemma_mod_add_multiples_vanish(self@ - rhs@, p as int);
            lemma_mod_bound(self@ - rhs@, p as int);
        }
        FiniteFieldElement { field: self.field, num: s as u64 }
    }

    /// Multiplication modulo `p`.
    pub fn mul(&self, rhs: &FiniteFieldElement) -> (r: FiniteFieldElement)
        requires
            self.wf(),
            rhs.wf(),
            self.modulus() == rhs.modulus(),
        ensures
            r.wf(),
            r.modulus() == self.modulus(),
            r@ == (self@ * rhs@) % self.modulus(),
    {
        let p = self.field.prime;
        proof {
            lemma_mul_upper_bound(self@, u64::MAX as int, rhs@, u64::MAX as int);
        }
        let s = ((self.num as u128) * (rhs.num as u128)) % (p as u128);
        proof {
            lemma_mod_bound(self@ * rhs@, p as int);
        }
        FiniteFieldElement { field: self.field, num: s as u64 }
    }


    /// Multiplicative inverse by the extended Euclidean algorithm, with the
    /// Bezout coefficient of the value tracked modulo `p`. Inverting the zero
    /// element is a precondition violation: there is no inverse of zero.
    pub fn inv(&self) -> (r: FiniteFieldElement)
        requires
            self.wf(),
            self@ != 0,
        ensures
            r.wf(),
            r.modulus() == self.modulus(),
            (r@ * self@) % self.modulus() == 1,
    {
        let p = self.field.prime;
        let v = self.num;
        let mut r0: u64 = v;
        let mut r1: u64 = p;
        let mut u0: u64 = 1;
        let mut u1: u64 = 0;
        proof {
            lemma_small_mod(v as nat, p as nat);
            lemma_mul_basics(v as int);
            lemma_mod_self_0(p as int);
            assert((0int * v as int) % p as int == 0) by {
                lemma_small_mod(0, p as nat);
            }
        }
        while r1 != 0
            invariant
                is_prime(p as int),
                0 < v < p,
                u0 < p,
                u1 < p,
                r0 as int % p as int == (u0 as int * v as int) % p as int,
                r1 as int % p as int == (u1 as int * v as int) % p as int,
                gcd(r0 as nat, r1 as nat) == gcd(v as nat, p as nat),
                r0 > 0 || r1 > 0,
            decreases r1,
        {
            let q = r0 / r1;
            let r2 = r0 % r1;
            proof {
                lemma_mul_upper_bound(q as int, u64::MAX as int, u1 as int, u64::MAX as int);
            }
            let qu = (((q as u128) * (u1 as u128)) % (p as u128)) as u64;
            let u2 = (((u0 as u128) + (p as u128) - (qu as u128)) % (p as u128)) as u64;
            proof {
                lemma_mod_bound(q as int * u1 as int, p as int);
                lemma_mod_bound(u0 as int + p as int - qu as int, p as int);
                lemma_fundamental_div_mod(r0 as int, r1 as int);
                // r2 is congruent to u2 * v modulo p
                assert(u2 as int % p as int == (u0 as int - q as int * u1 as int) % p as int) by {
                    lemma_mod_twice(u0 as int + p as int - qu as int, p as int);
                    lemma_mod_add_multiples_vanish(u0 as int - qu as int, p as int);
                    lemma_sub_mod_noop_right(u0 as int, q as int * u1 as int, p as int);
                    lemma_small_mod(u0 as nat, p as nat);
                }
                assert((u2 as int * v as int) % p as int == ((u0 as int - q as int * u1 as int)
                    * v as int) % p as int) by {
                    lemma_small_mod(u2 as nat, p as nat);
                    lemma_mul_mod_noop_left(u2 as int, v as int, p as int);
                    lemma_mul_mod_noop_left(u0 as int - q as int * u1 as int, v as int, p as int);
                }
                assert((u0 as int - q as int * u1 as int) * v as int == u0 as int * v as int
                    - q as int * (u1 as int * v as int)) by (nonlinear_arith);
                assert((u0 as int * v as int - q as int * (u1 as int * v as int)) % p as int == (
                r0 as int - q as int * r1 as int) % p as int) by {
                    lemma_sub_mod_noop(u0 as int * v as int, q as int * (u1 as int * v as int),
                        p as int);
                    lemma_sub_mod_noop(r0 as int, q as int * r1 as int, p as int);
                    lemma_mul_mod_noop_right(q as int, u1 as int * v as int, p as int);
                    lemma_mul_mod_noop_right(q as int, r1 as int, p as int);
                }
                assert(r2 as int == r0 as int - q as int * r1 as int) by {
                    lemma_mul_is_commutative(r1 as int, q as int);
                }
                // the gcd is untouched by one Euclidean step
                assert(gcd(r1 as nat, r2 as nat) == gcd(r0 as nat, r1 as nat));
            }
            r0 = r1;
            r1 = r2;
            u0 = u1;
            u1 = u2;
        }
        proof {
            lemma_prime_gcd_one(v as nat, p as nat);
            assert(gcd(r0 as nat, 0) == r0 as nat);
            assert(r0 == 1);
            lemma_small_mod(1, p as nat);
        }
        FiniteFieldElement { field: self.field, num: u0 }
    }

    /// Square-and-multiply exponentiation by a nonnegative machine exponent.
    fn pow_u128(&self, e: u128) -> (r: FiniteFieldElement)
        requires
            self.wf(),
        ensures
            r.wf(),
            r.modulus() == self.modulus(),
            r@ == pow(self@, e as nat) % self.modulus(),
    {
        let ghost p = self.modulus();
        let mut result = FiniteFieldElement { field: self.field, num: 1 };
        let mut base = *self;
        let mut exp = e;
        proof {
            lemma_pow0(self@);
            lemma_small_mod(1, p as nat);
            lemma_mul_basics(pow(self@, e as nat));
        }
        while exp > 0
            invariant
                result.wf(),
                base.wf(),
                result.modulus() == p,
                base.modulus() == p,
                self.wf(),
                self.modulus() == p,
                (result@ * pow(base@, exp as nat)) % p == pow(self@, e as nat) % p,
            decreases exp,
        {
            let ghost r_old = result@;
            let ghost b_old = base@;
            let ghost e_old = exp as nat;
            if exp % 2 == 1 {
                result = result.mul(&base);
            }
            base = base.mul(&base);
            exp = exp / 2;
            proof {
                lemma_pow_step(p, r_old, b_old, result@, base@, e_old);
            }
        }
        proof {
            lemma_pow0(base@);
            lemma_mul_basics(result@);
            lemma_small_mod(result@ as nat, p as nat);
        }
        result
    }

    /// Exponentiation by an arbitrary integer. A negative exponent first
    /// raises to the magnitude and then inverts, so it demands a nonzero
    /// base. This reference implementation makes no constant-time claim.
    pub fn pow(&self, exponent: i128) -> (r: FiniteFieldElement)
        requires
            self.wf(),
            exponent < 0 ==> self@ != 0,
        ensures
            r.wf(),
            r.modulus() == self.modulus(),
            exponent >= 0 ==> r@ == pow(self@, exponent as nat) % self.modulus(),
            exponent < 0 ==> (r@ * (pow(self@, (-(exponent as int)) as nat) % self.modulus()))
                % self.modulus() == 1,
    {
        if exponent >= 0 {
            self.pow_u128(exponent as u128)
        } else {
            let mag: u128 = ((-(exponent + 1)) as u128) + 1;
            let t = self.pow_u128(mag);
            proof {
                lemma_pow_nonzero_mod_prime(self@, mag as nat, self.modulus());
            }
            t.inv()
        }
    }

    /// Scalar multiplication as a module over the integers: the element
    /// added to itself `k` times, by repeated doubling.
    pub fn scalar_mul(&self, k: i128) -> (r: FiniteFieldElement)
        requires
            self.wf(),
        ensures
            r.wf(),
            r.modulus() == self.modulus(),
            r@ == (self@ * (k as int)) % self.modulus(),
    {
        let ghost p = self.modulus();
        let negative = k < 0;
        let mut mag: u128 = if k >= 0 {
            k as u128
        } else {
            ((-(k + 1)) as u128) + 1
        };
        let ghost mag0 = mag as nat;
        let mut acc = FiniteFieldElement { field: self.field, num: 0 };
        let mut base = *self;
        proof {
            lemma_small_mod(0, p as nat);
            assert((0 + base@ * mag0) % p == (self@ * mag0) % p);
        }
        while mag > 0
            invariant
                acc.wf(),
                base.wf(),
                acc.modulus() == p,
                base.modulus() == p,
                self.wf(),
                self.modulus() == p,
                (acc@ + base@ * (mag as int)) % p == (self@ * mag0) % p,
            decreases mag,
        {
            let ghost a_old = acc@;
            let ghost b_old = base@;
            let ghost m_old = mag as nat;
            if mag % 2 == 1 {
                acc = acc.add(&base);
            }
            base = base.add(&base);
            mag = mag / 2;
            proof {
                lemma_scalar_step(p, a_old, b_old, acc@, base@, m_old);
            }
        }
        proof {
            lemma_mul_basics(base@);
            lemma_small_mod(acc@ as nat, p as nat);
            assert(acc@ == (self@ * mag0) % p);
        }
        if negative {
            let r = acc.neg();
            proof {
                lemma_neg_mod(self@ * mag0, p);
                lemma_mod_twice(self@ * mag0, p);
                assert(self@ * (k as int) == -(self@ * mag0)) by (nonlinear_arith)
                    requires
                        k as int == -(mag0 as int),
                ;
            }
            r
        } else {
            acc
        }
    }


    /// Square-root extraction. `None` is the expected answer on a quadratic
    /// non-residue (detected by the Euler criterion `v^((p-1)/2) == 1`); a
    /// returned root always squares back to the element. For moduli congruent
    /// to 3 modulo 4 the closed form settles the answer outright; otherwise a
    /// randomized search over the quadratic extension is run, capped rather
    /// than unbounded, so on a true prime a residue's root can fail to be
    /// found only with vanishing probability.
    pub fn sqrt(&self) -> (r: Option<FiniteFieldElement>)
        requires
            self.wf(),
            self.modulus() % 2 == 1,
        ensures
            r matches Some(s) ==> s.wf() && s.modulus() == self.modulus() && (s@ * s@)
                % self.modulus() == self@,
            pow(self@, ((self.modulus() - 1) / 2) as nat) % self.modulus() != 1 ==> r is None,
            self.modulus() % 4 == 3 ==> ((r is Some) <==> pow(
                self@,
                ((self.modulus() - 1) / 2) as nat,
            ) % self.modulus() == 1),
    {
        let p = self.field.prime;
        let ghost euler = pow(self@, ((p - 1) / 2) as nat) % p as int;

        // Euler's criterion: anything that fails it has no square root.
        let t = self.pow_u128(((p - 1) / 2) as u128);
        if t.value() != 1 {
            return None;
        }

        // For p = 4k + 3 the root is v^((p+1)/4).
        if p % 4 == 3 {
            let q = (((p as u128) + 1) / 4) as u64;
            let cand = self.pow_u128(q as u128);
            proof {
                lemma_sqrt_closed_form(self@, p as int);
            }
            return Some(cand);
        }

        // Decompose p - 1 = 2^e * m with m odd.
        let mut e: u64 = 0;
        let mut m: u64 = p - 1;
        while m % 2 == 0 && e < 64
            invariant
                m >= 1,
                e <= 64,
            decreases m,
        {
            m = m / 2;
            e = e + 1;
        }

        let neg_self = self.neg();
        let mut attempts: u64 = 0;
        while attempts < 1000
            invariant
                self.wf(),
                self.modulus() == p,
                neg_self.wf(),
                neg_self.modulus() == p,
                euler == 1,
                euler == pow(self@, ((p - 1) / 2) as nat) % p as int,
            decreases 1000 - attempts,
        {
            attempts = attempts + 1;
            // Pick u with u + sqrt(-v) a non-zero-divisor in Fp[sqrt(-v)].
            let u = self.field.rand(None);
            let v1 = self.field.one();
            if !u.mul(&u).equals(&neg_self) {
                // Compute (u + v1 * sqrt(-v))^m by square-and-multiply on
                // coefficient pairs, with (a + b*sqrt(-v))(c + d*sqrt(-v))
                // = (ac - v*bd) + (ad + bc)*sqrt(-v).
                let mut cu = u;
                let mut cv = v1;
                let mut ru = self.field.one();
                let mut rv = self.field.zero();
                let mut bits = m;
                while bits > 0
                    invariant
                        self.wf(),
                        self.modulus() == p,
                        cu.wf() && cu.modulus() == p,
                        cv.wf() && cv.modulus() == p,
                        ru.wf() && ru.modulus() == p,
                        rv.wf() && rv.modulus() == p,
                    decreases bits,
                {
                    if bits % 2 == 1 {
                        let nru = ru.mul(&cu).sub(&self.mul(&rv).mul(&cv));
                        let nrv = rv.mul(&cu).add(&ru.mul(&cv));
                        ru = nru;
                        rv = nrv;
                    }
                    let ncu = cu.mul(&cu).sub(&self.mul(&cv).mul(&cv));
                    let ncv = cu.mul(&cv).add(&cv.mul(&cu));
                    cu = ncu;
                    cv = ncv;
                    bits = bits / 2;
                }
                if !ru.is_zero() && !rv.is_zero() {
                    // Square repeatedly; the first time the pair's square has a
                    // vanishing real part, ru/rv is a candidate root, which is
                    // checked before it is returned.
                    let mut i: u64 = 0;
                    let mut answer: Option<FiniteFieldElement> = None;
                    while i < e
                        invariant
                            self.wf(),
                            self.modulus() == p,
                            ru.wf() && ru.modulus() == p,
                            rv.wf() && rv.modulus() == p,
                            answer matches Some(s) ==> s.wf() && s.modulus() == p as int && (
                            s@ * s@) % p as int == self@,
                        decreases e - i,
                    {
                        let w = ru.mul(&ru).sub(&self.mul(&rv).mul(&rv));
                        if w.is_zero() {
                            if !rv.is_zero() {
                                let cand = ru.mul(&rv.inv());
                                if cand.mul(&cand).equals(self) {
                                    answer = Some(cand);
                                }
                            }
                            // the first vanishing real part settles this attempt
                            i = e;
                        } else {
                            let nrv = ru.mul(&rv).add(&rv.mul(&ru));
                            ru = w;
                            rv = nrv;
                            i = i + 1;
                        }
                    }
                    match answer {
                        Some(cand) => {
                            return Some(cand);
                        },
                        None => {},
                    }
                }
            }
        }
        None
    }

    /// Additive inverse: `p - value`, with zero staying zero.
    pub fn neg(&self) -> (r: FiniteFieldElement)
        requires
            self.wf(),
        ensures
            r.wf(),
            r.modulus() == self.modulus(),
            r@ == (self.modulus() - self@) % self.modulus(),
    {
        let p = self.field.prime;
        if self.num == 0 {
            proof {
                lemma_mod_self_0(p as int);
            }
            FiniteFieldElement { field: self.field, num: 0 }
        } else {
            proof {
                lemma_small_mod((p - self.num) as nat, p as nat);
            }
            FiniteFieldElement { field: self.field, num: p - self.num }
        }
    }
}

/// The field axioms, stated over the views that the element operations'
/// contracts use and proved for every well-formed element of one field.
///
/// Addition is associative: reducing after each step agrees in either
/// association.
pub proof fn lemma_field_add_associative(
    a: FiniteFieldElement,
    b: FiniteFieldElement,
    c: FiniteFieldElement,
)
    requires
        a.wf(),
        b.wf(),
        c.wf(),
        a.modulus() == b.modulus(),
        b.modulus() == c.modulus(),
    ensures
        (((a@ + b@) % a.modulus()) + c@) % a.modulus() == (a@ + ((b@ + c@) % a.modulus()))
            % a.modulus(),
{
    let p = a.modulus();
    assert((((a@ + b@) % p) + c@) % p == (a@ + b@ + c@) % p) by {
        lemma_add_mod_noop(a@ + b@, c@, p);
        lemma_small_mod(c@ as nat, p as nat);
    }
    assert((a@ + ((b@ + c@) % p)) % p == (a@ + b@ + c@) % p) by {
        lemma_add_mod_noop(a@, b@ + c@, p);
        lemma_small_mod(a@ as nat, p as nat);
    }
}

/// Addition is commutative.
pub proof fn lemma_field_add_commutative(a: FiniteFieldElement, b: FiniteFieldElement)
    requires
        a.wf(),
        b.wf(),
        a.modulus() == b.modulus(),
    ensures
        (a@ + b@) % a.modulus() == (b@ + a@) % a.modulus(),
{
}

/// Multiplication distributes over addition.
pub proof fn lemma_field_distributive(
    a: FiniteFieldElement,
    b: FiniteFieldElement,
    c: FiniteFieldElement,
)
    requires
        a.wf(),
        b.wf(),
        c.wf(),
        a.modulus() == b.modulus(),
        b.modulus() == c.modulus(),
    ensures
        (a@ * ((b@ + c@) % a.modulus())) % a.modulus() == ((a@ * b@) % a.modulus() + (a@ * c@)
            % a.modulus()) % a.modulus(),
{
    let p = a.modulus();
    assert((a@ * ((b@ + c@) % p)) % p == (a@ * (b@ + c@)) % p) by {
        lemma_mul_mod_noop_right(a@, b@ + c@, p);
    }
    assert(a@ * (b@ + c@) == a@ * b@ + a@ * c@) by {
        lemma_mul_is_distributive_add(a@, b@, c@);
    }
    assert(((a@ * b@) % p + (a@ * c@) % p) % p == (a@ * b@ + a@ * c@) % p) by {
        lemma_add_mod_noop(a@ * b@, a@ * c@, p);
    }
}

/// Every element and its negation sum to the additive identity.
pub proof fn lemma_field_add_inverse(a: FiniteFieldElement)
    requires
        a.wf(),
    ensures
        (a@ + ((a.modulus() - a@) % a.modulus())) % a.modulus() == 0,
{
    let p = a.modulus();
    if a@ == 0 {
        lemma_mod_self_0(p);
        lemma_small_mod(0, p as nat);
    } else {
        lemma_small_mod((p - a@) as nat, p as nat);
        lemma_mod_self_0(p);
    }
}

/// Every nonzero element has exactly one multiplicative inverse among the
/// reduced residues; `inv` returns it.
pub proof fn lemma_field_mul_inverse(a: FiniteFieldElement)
    requires
        a.wf(),
        a@ != 0,
    ensures
        exists|x: int|
            0 <= x < a.modulus() && #[trigger] ((a@ * x) % a.modulus()) == 1,
        forall|x: int, y: int|
            0 <= x < a.modulus() && 0 <= y < a.modulus() && #[trigger] ((a@ * x) % a.modulus())
                == 1 && #[trigger] ((a@ * y) % a.modulus()) == 1 ==> x == y,
{
    let p = a.modulus();
    lemma_prime_gcd_one(a@ as nat, p as nat);
    lemma_bezout(a@ as nat, p as nat);
    let (s, t) = choose|s: int, t: int|
        #![trigger s * a@, t * p]
        s * a@ + t * p == gcd(a@ as nat, p as nat);
    let x = s % p;
    lemma_mod_bound(s, p);
    assert((a@ * x) % p == (a@ * s) % p) by {
        lemma_mul_mod_noop_right(a@, s, p);
    }
    assert((a@ * s) % p == 1) by {
        assert(a@ * s == 1 + (-t) * p) by (nonlinear_arith)
            requires
                s * a@ + t * p == 1,
        ;
        lemma_mod_multiples_vanish(-t, 1, p);
        lemma_small_mod(1, p as nat);
    }
    assert forall|x1: int, y1: int|
        0 <= x1 < p && 0 <= y1 < p && #[trigger] ((a@ * x1) % p) == 1 && #[trigger] ((a@ * y1)
            % p) == 1 implies x1 == y1 by {
        lemma_inverse_unique(a@, x1, y1, p);
    }
}

/// Capability contract for inversion: the one operation singled out by the
/// original algebra layer, since inverting the additive identity is a
/// precondition violation rather than a value.
pub trait MultiplicativeInverse: Sized {
    /// Precondition of `inv`.
    spec fn inv_req(&self) -> bool;

    /// What `inv` returns.
    spec fn inv_ens(&self, r: &Self) -> bool;

    /// The multiplicative inverse.
    fn inv(&self) -> (r: Self)
        requires
            self.inv_req(),
        ensures
            self.inv_ens(&r),
    ;
}

/// Capability contract for elements of any field-like type: identities,
/// ring operations, inversion, exponentiation and square roots, each with
/// its meaning supplied by the implementing type's spec functions.
pub trait FieldElement: MultiplicativeInverse + Sized + Clone {
    /// Well-formedness of the element.
    spec fn elem_wf(&self) -> bool;

    /// Whether two elements belong to the same field; only such elements
    /// may be combined or compared.
    spec fn same_field(&self, other: &Self) -> bool;

    /// Whether the element is the additive identity.
    spec fn is_zero_spec(&self) -> bool;

    /// What `add` returns.
    spec fn add_ens(&self, rhs: &Self, r: &Self) -> bool;

    /// What `sub` returns.
    spec fn sub_ens(&self, rhs: &Self, r: &Self) -> bool;

    /// What `mul` returns.
    spec fn mul_ens(&self, rhs: &Self, r: &Self) -> bool;

    /// What `neg` returns.
    spec fn neg_ens(&self, r: &Self) -> bool;

    /// What `pow` returns.
    spec fn pow_ens(&self, exponent: i128, r: &Self) -> bool;

    /// What `scalar_mul` returns.
    spec fn scalar_mul_ens(&self, k: i128, r: &Self) -> bool;

    /// Extra precondition of `sqrt`.
    spec fn sqrt_req(&self) -> bool;

    /// What `sqrt` returns.
    spec fn sqrt_ens(&self, r: &Option<Self>) -> bool;

    /// Addition.
    fn add(&self, rhs: &Self) -> (r: Self)
        requires
            self.elem_wf(),
            rhs.elem_wf(),
            self.same_field(rhs),
        ensures
            r.elem_wf(),
            self.same_field(&r),
            self.add_ens(rhs, &r),
    ;

    /// Subtraction.
    fn sub(&self, rhs: &Self) -> (r: Self)
        requires
            self.elem_wf(),
            rhs.elem_wf(),
            self.same_field(rhs),
        ensures
            r.elem_wf(),
            self.same_field(&r),
            self.sub_ens(rhs, &r),
    ;

    /// Multiplication.
    fn mul(&self, rhs: &Self) -> (r: Self)
        requires
            self.elem_wf(),
            rhs.elem_wf(),
            self.same_field(rhs),
        ensures
            r.elem_wf(),
            self.same_field(&r),
            self.mul_ens(rhs, &r),
    ;

    /// Additive inverse.
    fn neg(&self) -> (r: Self)
        requires
            self.elem_wf(),
        ensures
            r.elem_wf(),
            self.same_field(&r),
            self.neg_ens(&r),
    ;

    /// Whether the element is the additive identity.
    fn is_zero(&self) -> (r: bool)
        requires
            self.elem_wf(),
        ensures
            r <==> self.is_zero_spec(),
    ;

    /// Exponentiation by an arbitrary integer; a negative exponent demands
    /// a nonzero base.
    fn pow(&self, exponent: i128) -> (r: Self)
        requires
            self.elem_wf(),
            exponent < 0 ==> !self.is_zero_spec(),
        ensures
            r.elem_wf(),
            self.same_field(&r),
            self.pow_ens(exponent, &r),
    ;

    /// Scalar multiplication by an integer, seeing the element as a member
    /// of a module over the integers.
    fn scalar_mul(&self, k: i128) -> (r: Self)
        requires
            self.elem_wf(),
        ensures
            r.elem_wf(),
            self.same_field(&r),
            self.scalar_mul_ens(k, &r),
    ;

    /// Square-root extraction; `None` is the expected answer on a
    /// non-residue.
    fn sqrt(&self) -> (r: Option<Self>)
        requires
            self.elem_wf(),
            self.sqrt_req(),
        ensures
            self.sqrt_ens(&r),
    ;
}

/// Capability contract for field-like types: identity elements and random
/// sampling.
pub trait Field: Sized + Clone {
    type Element: FieldElement;

    /// Well-formedness of the field itself.
    spec fn field_wf(&self) -> bool;

    /// Whether `e` belongs to this field.
    spec fn owns(&self, e: &Self::Element) -> bool;

    /// What `zero` returns.
    spec fn zero_ens(&self, r: &Self::Element) -> bool;

    /// What `one` returns.
    spec fn one_ens(&self, r: &Self::Element) -> bool;

    /// The additive identity.
    fn zero(&self) -> (r: Self::Element)
        requires
            self.field_wf(),
        ensures
            r.elem_wf(),
            self.owns(&r),
            self.zero_ens(&r),
    ;

    /// The multiplicative identity.
    fn one(&self) -> (r: Self::Element)
        requires
            self.field_wf(),
        ensures
            r.elem_wf(),
            self.owns(&r),
            self.one_ens(&r),
    ;

    /// A random element, optionally bounded to `size` random bits.
    fn rand(&self, size: Option<usize>) -> (r: Self::Element)
        requires
            self.field_wf(),
        ensures
            r.elem_wf(),
            self.owns(&r),
    ;
}

impl MultiplicativeInverse for FiniteFieldElement {
    /// Inversion demands a well-formed, nonzero element.
    open spec fn inv_req(&self) -> bool {
        self.wf() && self@ != 0
    }

    /// The inverse is the reduced residue whose product with the element is 1.
    open spec fn inv_ens(&self, r: &Self) -> bool {
        r.wf() && r.modulus() == self.modulus() && (r@ * self@) % self.modulus() == 1
    }

    fn inv(&self) -> (r: Self) {
        FiniteFieldElement::inv(self)
    }
}

impl FieldElement for FiniteFieldElement {
    open spec fn elem_wf(&self) -> bool {
        self.wf()
    }

    open spec fn same_field(&self, other: &Self) -> bool {
        self.modulus() == other.modulus()
    }

    open spec fn is_zero_spec(&self) -> bool {
        self@ == 0
    }

    open spec fn add_ens(&self, rhs: &Self, r: &Self) -> bool {
        r@ == (self@ + rhs@) % self.modulus()
    }

    open spec fn sub_ens(&self, rhs: &Self, r: &Self) -> bool {
        r@ == (self@ - rhs@) % self.modulus()
    }

    open spec fn mul_ens(&self, rhs: &Self, r: &Self) -> bool {
        r@ == (self@ * rhs@) % self.modulus()
    }

    open spec fn neg_ens(&self, r: &Self) -> bool {
        r@ == (self.modulus() - self@) % self.modulus()
    }

    open spec fn pow_ens(&self, exponent: i128, r: &Self) -> bool {
        &&& exponent >= 0 ==> r@ == pow(self@, exponent as nat) % self.modulus()
        &&& exponent < 0 ==> (r@ * (pow(self@, (-(exponent as int)) as nat) % self.modulus()))
            % self.modulus() == 1
    }

    open spec fn scalar_mul_ens(&self, k: i128, r: &Self) -> bool {
        r@ == (self@ * (k as int)) % self.modulus()
    }

    open spec fn sqrt_req(&self) -> bool {
        self.modulus() % 2 == 1
    }

    open spec fn sqrt_ens(&self, r: &Option<Self>) -> bool {
        &&& r matches Some(s) ==> s.wf() && s.modulus() == self.modulus() && (s@ * s@)
            % self.modulus() == self@
        &&& pow(self@, ((self.modulus() - 1) / 2) as nat) % self.modulus() != 1 ==> r is None
    }

    fn add(&self, rhs: &Self) -> (r: Self) {
        FiniteFieldElement::add(self, rhs)
    }

    fn sub(&self, rhs: &Self) -> (r: Self) {
        FiniteFieldElement::sub(self, rhs)
    }

    fn mul(&self, rhs: &Self) -> (r: Self) {
        FiniteFieldElement::mul(self, rhs)
    }

    fn neg(&self) -> (r: Self) {
        FiniteFieldElement::neg(self)
    }

    fn is_zero(&self) -> (r: bool) {
        FiniteFieldElement::is_zero(self)
    }

    fn pow(&self, exponent: i128) -> (r: Self) {
        FiniteFieldElement::pow(self, exponent)
    }

    fn scalar_mul(&self, k: i128) -> (r: Self) {
        FiniteFieldElement::scalar_mul(self, k)
    }

    fn sqrt(&self) -> (r: Option<Self>) {
        FiniteFieldElement::sqrt(self)
    }
}

impl Field for FiniteField {
    type Element = FiniteFieldElement;

    open spec fn field_wf(&self) -> bool {
        self.wf()
    }

    open spec fn owns(&self, e: &FiniteFieldElement) -> bool {
        e.modulus() == self.spec_prime()
    }

    open spec fn zero_ens(&self, r: &FiniteFieldElement) -> bool {
        r@ == 0
    }

    open spec fn one_ens(&self, r: &FiniteFieldElement) -> bool {
        r@ == 1
    }

    fn zero(&self) -> (r: FiniteFieldElement) {
        FiniteField::zero(self)
    }

    fn one(&self) -> (r: FiniteFieldElement) {
        FiniteField::one(self)
    }

    fn rand(&self, size: Option<usize>) -> (r: FiniteFieldElement) {
        FiniteField::rand(self, size)
    }
}

} // verus!
