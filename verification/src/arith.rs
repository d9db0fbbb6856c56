//! Number-theoretic groundwork: primality, greatest common divisors,
//! Bezout coefficients and the modular-arithmetic facts that the field
//! and curve layers build on.

use vstd::prelude::*;
use vstd::arithmetic::div_mod::*;
use vstd::arithmetic::mul::*;
use vstd::arithmetic::power::*;

verus! {

/// `p` is a prime number: at least 2, with no divisor strictly between 1 and `p`.
pub open spec fn is_prime(p: int) -> bool {
    p >= 2 && forall|d: int| 1 < d < p ==> #[trigger] (p % d) != 0
}

/// Greatest common divisor by the Euclidean recursion.
pub open spec fn gcd(a: nat, b: nat) -> nat
    decreases b,
{
    if b == 0 {
        a
    } else {
        gcd(b, a % b)
    }
}

/// Exponentiation with reduction after every step; equal to `pow(b, e) % m`
/// but cheap to evaluate, which makes it suitable for proof by computation.
pub open spec fn pow_mod(b: int, e: nat, m: int) -> int
    decreases e,
{
    if e == 0 {
        1int % m
    } else {
        (b * pow_mod(b, (e - 1) as nat, m)) % m
    }
}

/// The step-by-step reduced power agrees with reducing the full power once.
pub proof fn lemma_pow_mod_eq_pow(b: int, e: nat, m: int)
    requires
        m >= 1,
    ensures
        pow_mod(b, e, m) == pow(b, e) % m,
    decreases e,
{
    if e == 0 {
        assert(pow(b, 0) == 1) by {
            lemma_pow0(b);
        }
    } else {
        lemma_pow_mod_eq_pow(b, (e - 1) as nat, m);
        lemma_mul_mod_noop_right(b, pow(b, (e - 1) as nat), m);
        assert(pow(b, e) == b * pow(b, (e - 1) as nat)) by {
            reveal(pow);
        }
    }
}

/// The gcd of two numbers, not both zero, is positive.
pub proof fn lemma_gcd_positive(a: nat, b: nat)
    requires
        a > 0 || b > 0,
    ensures
        gcd(a, b) > 0,
    decreases b,
{
    if b == 0 {
    } else {
        lemma_mod_bound(a as int, b as int);
        lemma_gcd_positive(b, a % b);
    }
}

/// A common divisor of `x` and `y` divides `x + k * y`.
proof fn lemma_divides_combination(x: int, y: int, k: int, d: int)
    requires
        d > 0,
        x % d == 0,
        y % d == 0,
    ensures
        (x + k * y) % d == 0,
{
    lemma_mul_mod_noop_right(k, y, d);
    assert(k * (y % d) == 0) by {
        assert(y % d == 0);
    }
    lemma_small_mod(0, d as nat);
    assert((k * y) % d == 0);
    lemma_add_mod_noop(x, k * y, d);
}

/// The gcd divides both of its arguments.
pub proof fn lemma_gcd_divides(a: nat, b: nat)
    requires
        a > 0 || b > 0,
    ensures
        a % gcd(a, b) == 0,
        b % gcd(a, b) == 0,
    decreases b,
{
    if b == 0 {
        lemma_mod_self_0(a as int);
        lemma_small_mod(0, a);
    } else {
        let g = gcd(b, a % b);
        lemma_gcd_divides(b, a % b);
        lemma_gcd_positive(b, a % b);
        lemma_fundamental_div_mod(a as int, b as int);
        assert(a as int == (a % b) as int + (a as int / b as int) * b as int) by {
            lemma_mul_is_commutative(b as int, a as int / b as int);
        }
        lemma_divides_combination((a % b) as int, b as int, a as int / b as int, g as int);
    }
}

/// Bezout's identity: some integer combination of `a` and `b` equals their gcd.
pub proof fn lemma_bezout(a: nat, b: nat)
    ensures
        exists|s: int, t: int| #![trigger s * a, t * b] s * a + t * b == gcd(a, b),
    decreases b,
{
    if b == 0 {
        assert(1int * a + 0int * b == gcd(a, b)) by {
            lemma_mul_basics(a as int);
            lemma_mul_basics(b as int);
        }
    } else {
        lemma_bezout(b, a % b);
        let (s0, t0) = choose|s: int, t: int| #![trigger s * b, t * ((a % b) as int)] s * b + t * ((a % b) as int) == gcd(b, a % b);
        let q = a as int / b as int;
        lemma_fundamental_div_mod(a as int, b as int);
        assert((a % b) as int == a as int - q * b as int);
        let s1 = t0;
        let t1 = s0 - t0 * q;
        assert(s1 * a + t1 * b == s0 * b + t0 * ((a % b) as int)) by (nonlinear_arith)
            requires
                (a % b) as int == a as int - q * b as int,
                s1 == t0,
                t1 == s0 - t0 * q,
        ;
        assert(s1 * a + t1 * b == gcd(a, b));
    }
}

/// A prime is coprime to every smaller positive number.
pub proof fn lemma_prime_gcd_one(v: nat, p: nat)
    requires
        is_prime(p as int),
        0 < v < p,
    ensures
        gcd(v, p) == 1,
{
    let g = gcd(v, p);
    lemma_gcd_positive(v, p);
    lemma_gcd_divides(v, p);
    if g > 1 {
        if g < p {
            assert(p as int % g as int != 0);
            assert(false);
        } else {
            if g > v {
                lemma_small_mod(v, g);
                assert(false);
            }
            assert(g <= v < p);
            assert(false);
        }
    }
}

/// In a prime modulus there are no zero divisors: if a product of two
/// reduced values is divisible by `p` and the first is nonzero, the second
/// must be zero.
pub proof fn lemma_prime_zero_product(a: int, b: int, p: int)
    requires
        is_prime(p),
        0 <= a < p,
        0 <= b < p,
        (a * b) % p == 0,
        a != 0,
    ensures
        b == 0,
{
    lemma_prime_gcd_one(a as nat, p as nat);
    lemma_bezout(a as nat, p as nat);
    let (s, t) = choose|s: int, t: int| #![trigger s * a, t * p] s * a + t * p == gcd(a as nat, p as nat);
    assert(b == s * (a * b) + (t * b) * p) by (nonlinear_arith)
        requires
            s * a + t * p == 1,
    ;
    assert((s * (a * b) + (t * b) * p) % p == (s * (a * b)) % p) by {
        lemma_mod_multiples_vanish(t * b, s * (a * b), p);
        lemma_mul_is_commutative(t * b, p);
    }
    assert((s * (a * b)) % p == 0) by {
        lemma_mul_mod_noop_right(s, a * b, p);
        lemma_small_mod(0, p as nat);
    }
    lemma_small_mod(b as nat, p as nat);
}

/// A value has at most one multiplicative inverse in `[0, m)`.
pub proof fn lemma_inverse_unique(a: int, x: int, y: int, m: int)
    requires
        m >= 2,
        0 <= x < m,
        0 <= y < m,
        (a * x) % m == 1,
        (a * y) % m == 1,
    ensures
        x == y,
{
    lemma_small_mod(x as nat, m as nat);
    lemma_small_mod(y as nat, m as nat);
    assert((x * (a * y)) % m == x) by {
        lemma_mul_mod_noop_right(x, a * y, m);
        lemma_mul_basics(x);
    }
    assert(x * (a * y) == (a * x) * y) by (nonlinear_arith);
    assert(((a * x) * y) % m == y) by {
        lemma_mul_mod_noop_left(a * x, y, m);
        lemma_mul_basics(y);
    }
}

/// Splitting one step off a square-and-multiply exponentiation:
/// `t^e == (t*t)^(e/2) * t^(e%2)`.
pub proof fn lemma_pow_split(t: int, e: nat)
    requires
        e > 0,
    ensures
        e % 2 == 1 ==> pow(t, e) == pow(t * t, (e / 2) as nat) * t,
        e % 2 == 0 ==> pow(t, e) == pow(t * t, (e / 2) as nat),
{
    let h = (e / 2) as nat;
    assert(e == 2 * h + e % 2);
    lemma_pow_multiplies(t, 2, h);
    assert(pow(t, 2) == t * t) by {
        lemma_square_is_pow2(t);
    }
    lemma_pow_adds(t, (2 * h) as nat, (e % 2) as nat);
    if e % 2 == 1 {
        lemma_pow1(t);
    } else {
        lemma_pow0(t);
        lemma_mul_basics(pow(t, (2 * h) as nat));
    }
}

/// One iteration of square-and-multiply preserves the running product:
/// with the accumulator folded and the base squared, the remaining power
/// of the new base accounts for the halved exponent.
pub proof fn lemma_pow_step(p: int, r_old: int, b_old: int, r_new: int, b_new: int, e: nat)
    requires
        p >= 2,
        e > 0,
        r_new == if e % 2 == 1 {
            (r_old * b_old) % p
        } else {
            r_old
        },
        b_new == (b_old * b_old) % p,
    ensures
        (r_new * pow(b_new, (e / 2) as nat)) % p == (r_old * pow(b_old, e)) % p,
{
    let h = (e / 2) as nat;
    lemma_pow_split(b_old, e);
    lemma_pow_mod_noop(b_old * b_old, h, p);
    assert((r_new * pow(b_new, h)) % p == (r_new * pow(b_old * b_old, h)) % p) by {
        lemma_mul_mod_noop_right(r_new, pow(b_new, h), p);
        lemma_mul_mod_noop_right(r_new, pow(b_old * b_old, h), p);
        assert(pow(b_new, h) % p == pow(b_old * b_old, h) % p);
    }
    if e % 2 == 1 {
        assert((r_new * pow(b_old * b_old, h)) % p == (r_old * b_old * pow(b_old * b_old, h))
            % p) by {
            lemma_mul_mod_noop_left(r_old * b_old, pow(b_old * b_old, h), p);
        }
        assert(r_old * b_old * pow(b_old * b_old, h) == r_old * (pow(b_old * b_old, h) * b_old))
            by (nonlinear_arith);
        assert(pow(b_old, e) == pow(b_old * b_old, h) * b_old);
    } else {
        assert(pow(b_old, e) == pow(b_old * b_old, h));
    }
}

/// One iteration of double-and-add preserves the running sum:
/// with the accumulator folded and the base doubled, the remaining multiple
/// of the new base accounts for the halved multiplier.
pub proof fn lemma_scalar_step(p: int, a_old: int, b_old: int, a_new: int, b_new: int, m: nat)
    requires
        p >= 2,
        m > 0,
        a_new == if m % 2 == 1 {
            (a_old + b_old) % p
        } else {
            a_old
        },
        b_new == (b_old + b_old) % p,
    ensures
        (a_new + b_new * ((m / 2) as int)) % p == (a_old + b_old * m) % p,
{
    let h = (m / 2) as int;
    assert((b_new * h) % p == ((b_old + b_old) * h) % p) by {
        lemma_mul_mod_noop_left(b_old + b_old, h, p);
    }
    assert((a_new + b_new * h) % p == (a_new % p + (b_new * h) % p) % p) by {
        lemma_add_mod_noop(a_new, b_new * h, p);
    }
    assert(a_new % p == (a_old + b_old * (m % 2)) % p) by {
        if m % 2 == 1 {
            lemma_mod_twice(a_old + b_old, p);
            lemma_mul_basics(b_old);
        } else {
            lemma_mul_basics(b_old);
        }
    }
    assert((a_new + b_new * h) % p == ((a_old + b_old * (m % 2)) + (b_old + b_old) * h) % p) by {
        lemma_add_mod_noop(a_old + b_old * (m % 2), (b_old + b_old) * h, p);
        lemma_mod_twice(a_old + b_old * (m % 2), p);
        lemma_mod_twice((b_old + b_old) * h, p);
    }
    assert((a_old + b_old * (m % 2)) + (b_old + b_old) * h == a_old + b_old * m)
        by (nonlinear_arith)
        requires
            m == 2 * h + m % 2,
    ;
}

/// Reducing a negated value: `(-x) % p` equals `(p - x % p) % p`.
pub proof fn lemma_neg_mod(x: int, p: int)
    requires
        p >= 1,
    ensures
        (-x) % p == (p - x % p) % p,
{
    let r = x % p;
    let q = x / p;
    lemma_fundamental_div_mod(x, p);
    lemma_mod_bound(x, p);
    if r == 0 {
        assert(-x == (-q) * p + 0) by (nonlinear_arith)
            requires
                x == q * p + r,
                r == 0,
        ;
        lemma_fundamental_div_mod_converse_mod(-x, p, -q, 0);
        lemma_mod_self_0(p);
    } else {
        assert(-x == (-q - 1) * p + (p - r)) by (nonlinear_arith)
            requires
                x == q * p + r,
        ;
        lemma_fundamental_div_mod_converse_mod(-x, p, -q - 1, p - r);
        lemma_small_mod((p - r) as nat, p as nat);
    }
}

/// Powers of a nonzero value stay nonzero modulo a prime.
pub proof fn lemma_pow_nonzero_mod_prime(v: int, e: nat, p: int)
    requires
        is_prime(p),
        0 < v < p,
    ensures
        pow(v, e) % p != 0,
    decreases e,
{
    if e == 0 {
        lemma_pow0(v);
        lemma_small_mod(1, p as nat);
    } else {
        lemma_pow_nonzero_mod_prime(v, (e - 1) as nat, p);
        let x = pow(v, (e - 1) as nat);
        assert(pow(v, e) == v * x) by {
            reveal(pow);
        }
        lemma_mod_bound(x, p);
        if (v * x) % p == 0 {
            assert((v * (x % p)) % p == 0) by {
                lemma_mul_mod_noop_right(v, x, p);
            }
            lemma_prime_zero_product(v, x % p, p);
            assert(false);
        }
    }
}

/// The closed-form square root for moduli congruent to 3 modulo 4:
/// if `v` passes the Euler residue test, then `v^((p+1)/4)` squared is `v`.
pub proof fn lemma_sqrt_closed_form(v: int, p: int)
    requires
        is_prime(p),
        0 <= v < p,
        p % 4 == 3,
        pow(v, ((p - 1) / 2) as nat) % p == 1,
    ensures
        ((pow(v, ((p + 1) / 4) as nat) % p) * (pow(v, ((p + 1) / 4) as nat) % p)) % p == v,
{
    let k = p / 4;
    lemma_fundamental_div_mod(p, 4);
    assert(p == 4 * k + 3);
    assert((p + 1) / 4 == k + 1 && (p + 1) % 4 == 0) by {
        lemma_fundamental_div_mod_converse(p + 1, 4, k + 1, 0);
    }
    assert((p - 1) / 2 == 2 * k + 1 && (p - 1) % 2 == 0) by {
        lemma_fundamental_div_mod_converse(p - 1, 2, 2 * k + 1, 0);
    }
    let q = (k + 1) as nat;
    let h = (2 * k + 1) as nat;
    assert(pow(v, q) * pow(v, q) == pow(v, h) * v) by {
        lemma_pow_adds(v, q, q);
        lemma_pow_adds(v, h, 1);
        lemma_pow1(v);
        assert(q + q == h + 1);
    }
    assert(((pow(v, q) % p) * (pow(v, q) % p)) % p == (pow(v, q) * pow(v, q)) % p) by {
        lemma_mul_mod_noop_general(pow(v, q), pow(v, q), p);
    }
    assert((pow(v, h) * v) % p == ((pow(v, h) % p) * v) % p) by {
        lemma_mul_mod_noop_left(pow(v, h), v, p);
    }
    assert((1 * v) % p == v) by {
        lemma_mul_basics(v);
        lemma_small_mod(v as nat, p as nat);
    }
}

/// The multiplicative inverse of `v` modulo `p` as a specification value:
/// the reduced residue whose product with `v` is 1 (arbitrary if none exists).
pub open spec fn inv_mod(v: int, p: int) -> int {
    choose|x: int| 0 <= x < p && #[trigger] ((v * x) % p) == 1
}

/// Any witness of the inverse property pins `inv_mod` down to itself.
pub proof fn lemma_inv_mod_unique(v: int, w: int, p: int)
    requires
        p >= 2,
        0 <= w < p,
        (v * w) % p == 1,
    ensures
        inv_mod(v, p) == w,
{
    assert(exists|x: int| 0 <= x < p && #[trigger] ((v * x) % p) == 1);
    let x = inv_mod(v, p);
    assert(0 <= x < p && (v * x) % p == 1);
    lemma_inverse_unique(v, x, w, p);
}

/// A nonzero value strictly between `-p` and `p` stays nonzero when reduced.
pub proof fn lemma_small_nonzero_mod(d: int, p: int)
    requires
        p >= 1,
        -p < d < p,
        d != 0,
    ensures
        d % p != 0,
{
    if d > 0 {
        lemma_small_mod(d as nat, p as nat);
    } else {
        lemma_mod_add_multiples_vanish(d, p);
        lemma_small_mod((d + p) as nat, p as nat);
    }
}

/// Doubling a nonzero residue of an odd modulus never lands on zero.
pub proof fn lemma_double_nonzero(y: int, p: int)
    requires
        p >= 3,
        p % 2 == 1,
        0 < y < p,
    ensures
        (2 * y) % p != 0,
{
    if 2 * y < p {
        lemma_small_mod((2 * y) as nat, p as nat);
    } else {
        if 2 * y == p {
            lemma_fundamental_div_mod_converse(p, 2, y, 0);
            assert(false);
        }
        lemma_mod_sub_multiples_vanish(2 * y, p);
        lemma_small_mod((2 * y - p) as nat, p as nat);
    }
}

/// Reassociating a product under reduction:
/// `(a * ((b * c) % p)) % p == ((a * b) * c) % p`.
pub proof fn lemma_mul_mod_assoc(a: int, b: int, c: int, p: int)
    requires
        p >= 1,
    ensures
        (a * ((b * c) % p)) % p == ((a * b) * c) % p,
{
    lemma_mul_mod_noop_right(a, b * c, p);
    assert(a * (b * c) == (a * b) * c) by {
        lemma_mul_is_associative(a, b, c);
    }
}

} // verus!
