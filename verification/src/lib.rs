//! A KZG (Kate–Zaverucha–Goldberg) polynomial commitment scheme over the
//! BN254 pairing: a prover commits to a polynomial with a single curve
//! point and later proves its value at one point (or at a whole set of
//! points at once) with a constant-size proof.
//!
//! The scalar-field and curve arithmetic come from `halo2curves`; this
//! crate models each opaque field or group element by the integer it
//! stands for and verifies the polynomial engine and both protocols
//! against that model.
use vstd::prelude::*;

use halo2curves::bn256::Fr;

pub mod kzg;
pub mod kzg_variables;
pub mod kzg_vector;

verus! {

/// Marker for the scalar-field types that the engine is built over.
pub trait FieldExt {

}

impl FieldExt for Fr {

}

/// A violated precondition, surfaced as a typed error rather than a wrong
/// but well-typed result.
#[derive(Clone, Copy, Debug, PartialEq, Eq, Structural)]
pub enum KzgError {
    /// A polynomial with no coefficients was handed to a protocol.
    EmptyPolynomial,
    /// The reference string holds fewer powers than the polynomial needs.
    SrsTooShort,
    /// The multi-point protocols need at least two challenge points.
    TooFewChallenges,
    /// Two sequences that must agree in length do not, or a divisor does
    /// not have the shape the division expects.
    LengthMismatch,
    /// Interpolation met a vanishing denominator: two domain points coincide.
    DuplicatePoint,
    /// The numerator handed to the exact division is not divisible by the
    /// vanishing polynomial of the challenge set.
    InexactDivision,
    /// A proof of the other protocol's shape was handed to a verifier.
    WrongProofKind,
}

} // verus!
