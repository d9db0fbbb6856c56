//! Algebraic structures for isogeny-based elliptic-curve cryptography:
//! prime fields with modular inverse, exponentiation and square roots,
//! and elliptic curves in Montgomery form with their group law.

pub mod arith;
pub mod field;
pub mod group;
pub mod mont_curve;
