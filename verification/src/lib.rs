//! Zero-knowledge range proofs over the Ristretto group.
//!
//! A prover who knows a secret integer `v` and the blinding factor of a
//! Pedersen commitment to it shows that `0 <= v < 2^n` without revealing `v`.
//! The scalar-field algebra behind the proof is stated over the integers and
//! proved; the group and hash primitives come from `curve25519-dalek` and
//! `sha2` and are reached through a small set of trusted declarations.

pub mod algebra;
pub mod commitment;
pub mod completeness;
pub mod encoding;
pub mod error;
pub mod field;
pub mod generators;
pub mod group;
pub mod module_laws;
pub mod polynomial;
pub mod protocol;
pub mod randomness;
mod residue;
pub mod transcript;
pub mod vector_ops;

pub use error::ProofError;
pub use field::Scalar;
pub use group::GroupElement;
pub use transcript::{commit, derive_pair};
pub use generators::make_generators;
pub use vector_ops::{hadamard_product, inner_product};
pub use polynomial::Degree3Poly;
pub use protocol::{Blinding, RangeProof};
