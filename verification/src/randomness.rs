//! Random scalars, drawn from a generator that the caller supplies.
//!
//! The generator is `rand`'s `StdRng`, a cryptographically secure generator
//! that can be seeded from the operating system or, for reproducible runs,
//! from a fixed seed. Nothing is claimed about the bytes it hands out.

use vstd::prelude::*;
use crate::error::ProofError;
use crate::field::{all_scalars, is_scalar, le_value, reduce, Scalar};
use crate::group::scalar_values;
use rand::RngCore;

verus! {

/// `StdRng` of rand, the generator that randomness is drawn from. Its state
/// is not looked into.
#[verifier::external_type_specification]
#[verifier::external_body]
pub struct ExStdRng(rand::rngs::StdRng);

/// `Error` of rand, which a generator reports when it cannot deliver. It
/// is only ever passed on.
#[verifier::external_type_specification]
#[verifier::external_body]
pub struct ExRandError(rand::Error);

/// Asks the generator for 64 bytes with `RngCore::try_fill_bytes`, and hands
/// on its error where it reports one. Which bytes come is not stated.
#[verifier::external_body]
fn draw_wide(rng: &mut rand::rngs::StdRng) -> (r: Result<[u8; 64], rand::Error>) {
    let mut wide = [0u8; 64];
    match rng.try_fill_bytes(&mut wide) {
        Ok(()) => Ok(wide),
        Err(e) => Err(e),
    }
}

/// The scalar that one draw stands for: the 64 bytes as an integer, reduced
/// modulo the group order, so that the scalar is uniform up to a negligible
/// bias; a failed draw is reported and never replaced.
pub fn scalar_from_draw(draw: Result<[u8; 64], rand::Error>) -> (r: Result<Scalar, ProofError>)
    ensures
        draw.is_ok() <==> r.is_ok(),
        draw.is_err() <==> r == Err::<Scalar, ProofError>(ProofError::RandomnessUnavailable),
        r matches Ok(s) ==> s@ == reduce(le_value(draw.unwrap()@) as int),
{
    match draw {
        Ok(wide) => Ok(Scalar::from_bytes_mod_order_wide(&wide)),
        Err(_) => Err(ProofError::RandomnessUnavailable),
    }
}

/// A fresh random scalar, or `RandomnessUnavailable` where the generator
/// fails.
pub fn random_scalar(rng: &mut rand::rngs::StdRng) -> (r: Result<Scalar, ProofError>)
    ensures
        r is Err ==> r == Err::<Scalar, ProofError>(ProofError::RandomnessUnavailable),
{
    scalar_from_draw(draw_wide(rng))
}

/// `n` fresh random scalars, or `RandomnessUnavailable` where the generator
/// fails on any of them. Nothing is drawn, and nothing can fail, for
/// `n == 0`.
pub fn random_scalars(n: usize, rng: &mut rand::rngs::StdRng) -> (r: Result<Vec<Scalar>, ProofError>)
    ensures
        n == 0 ==> r is Ok,
        r matches Ok(scalars) ==> scalars.len() == n && all_scalars(scalar_values(scalars@)),
        r is Err ==> r == Err::<Vec<Scalar>, ProofError>(ProofError::RandomnessUnavailable),
{
    let mut scalars: Vec<Scalar> = Vec::new();
    let mut i: usize = 0;
    while i < n
        invariant
            i <= n,
            scalars.len() == i,
            forall|j: int| 0 <= j < i ==> is_scalar(#[trigger] scalars[j]@),
        decreases n - i,
    {
        match random_scalar(rng) {
            Ok(s) => {
                s.bounded();
                scalars.push(s);
            },
            Err(_) => {
                return Err(ProofError::RandomnessUnavailable);
            },
        }
        i += 1;
    }
    Ok(scalars)
}

} // verus!
