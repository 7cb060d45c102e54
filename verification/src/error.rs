//! The ways in which building, decoding or checking a proof can fail.

use vstd::prelude::*;

verus! {

/// Why an operation of this library was refused.
#[derive(Clone, Copy, Debug, PartialEq, Eq, Structural)]
pub enum ProofError {
    /// Two vectors that must have the same length do not.
    LengthMismatch,
    /// The value does not fit in the agreed number of bits.
    ValueOutOfRange,
    /// The randomness source could not deliver.
    RandomnessUnavailable,
    /// The proof does not satisfy the verification equation.
    InvalidProof,
    /// The bytes are not the encoding of a proof.
    DecodeError,
}

} // verus!
