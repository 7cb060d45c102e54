//! Fiat–Shamir challenges: scalars derived by hashing commitments.
//!
//! A challenge is the SHA-512 digest of a label and two compressed group
//! elements, read as a 512-bit little-endian integer and reduced modulo the
//! group order. The digest comes from `sha2` through one trusted function.

use vstd::prelude::*;
use crate::field::{le_bytes, le_value, reduce, Scalar};
use crate::group::GroupElement;
use sha2::Digest;

verus! {

/// The 64-byte SHA-512 digest of `data`.
pub uninterp spec fn sha512_digest(data: Seq<u8>) -> Seq<u8>;

/// Hashes with `Sha512::digest` of sha2.
#[verifier::external_body]
fn sha512(data: &Vec<u8>) -> (r: [u8; 64])
    ensures
        r@ == sha512_digest(data@),
{
    let digest = sha2::Sha512::digest(data.as_slice());
    let mut out = [0u8; 64];
    out.copy_from_slice(digest.as_slice());
    out
}

/// The label under which the challenges `y` and `z` are derived.
pub open spec fn bit_commitment_label() -> Seq<u8> {
    seq![0x79u8, 0x7au8]
}

/// The label under which the challenge `x` is derived.
pub open spec fn polynomial_commitment_label() -> Seq<u8> {
    seq![0x78u8]
}

/// The scalar that a hash input stands for: its digest as an integer, reduced.
pub open spec fn challenge_of(input: Seq<u8>) -> int {
    reduce(le_value(sha512_digest(input)) as int)
}

/// The first challenge derived from two elements under a label.
pub open spec fn first_challenge(label: Seq<u8>, p1: Seq<u8>, p2: Seq<u8>) -> int {
    challenge_of(label + p1 + p2)
}

/// The second challenge: the first one's encoding is hashed in as well.
pub open spec fn second_challenge(label: Seq<u8>, p1: Seq<u8>, p2: Seq<u8>) -> int {
    challenge_of(label + p1 + p2 + le_bytes(first_challenge(label, p1, p2) as nat, 32))
}

/// The challenge `y`, derived from the first-round commitments `A` and `S`.
pub open spec fn challenge_y(a: Seq<u8>, s: Seq<u8>) -> int {
    first_challenge(bit_commitment_label(), a, s)
}

/// The challenge `z`, derived from the first-round commitments and `y`.
pub open spec fn challenge_z(a: Seq<u8>, s: Seq<u8>) -> int {
    second_challenge(bit_commitment_label(), a, s)
}

/// The challenge `x`, derived from the second-round commitments `T1` and
/// `T2`.
pub open spec fn challenge_x(t1: Seq<u8>, t2: Seq<u8>) -> int {
    first_challenge(polynomial_commitment_label(), t1, t2)
}

/// Appends the 32 bytes of `block` to `buffer`.
pub(crate) fn append_block(buffer: &mut Vec<u8>, block: &[u8; 32])
    ensures
        final(buffer)@ == old(buffer)@ + block@,
{
    let mut i: usize = 0;
    while i < 32
        invariant
            i <= 32,
            buffer@ == old(buffer)@ + block@.subrange(0, i as int),
        decreases 32 - i,
    {
        buffer.push(block[i]);
        i += 1;
        assert(block@.subrange(0, i as int) =~= block@.subrange(0, i - 1).push(block@[i - 1]));
    }
    assert(block@.subrange(0, 32) =~= block@);
}

/// The scalar that the bytes of `input` hash to.
pub fn challenge_scalar(input: &Vec<u8>) -> (r: Scalar)
    ensures
        r@ == challenge_of(input@),
{
    let digest = sha512(input);
    Scalar::from_bytes_mod_order_wide(&digest)
}

/// Derives two challenges from two group elements under a label: the first
/// from `label ‖ p1 ‖ p2`, the second from `label ‖ p1 ‖ p2 ‖ first`, where
/// `first` is the 32-byte encoding of the first challenge.
pub fn derive_pair(label: &[u8], p1: &GroupElement, p2: &GroupElement) -> (r: (Scalar, Scalar))
    ensures
        r.0@ == first_challenge(label@, p1@, p2@),
        r.1@ == second_challenge(label@, p1@, p2@),
{
    let mut input: Vec<u8> = Vec::new();
    let mut i: usize = 0;
    while i < label.len()
        invariant
            i <= label.len(),
            input@ == label@.subrange(0, i as int),
        decreases label.len() - i,
    {
        input.push(label[i]);
        i += 1;
        assert(label@.subrange(0, i as int) =~= label@.subrange(0, i - 1).push(label@[i - 1]));
    }
    assert(label@.subrange(0, label@.len() as int) =~= label@);
    let e1 = p1.to_bytes();
    let e2 = p2.to_bytes();
    append_block(&mut input, &e1);
    append_block(&mut input, &e2);
    let first = challenge_scalar(&input);
    let e3 = first.to_bytes();
    proof {
        first.lemma_encoding();
    }
    append_block(&mut input, &e3);
    let second = challenge_scalar(&input);
    (first, second)
}

/// Derives two challenges from two group elements with no label: the first
/// from `a ‖ b`, the second from `a ‖ b ‖ first`.
pub fn commit(a: &GroupElement, b: &GroupElement) -> (r: (Scalar, Scalar))
    ensures
        r.0@ == first_challenge(Seq::<u8>::empty(), a@, b@),
        r.1@ == second_challenge(Seq::<u8>::empty(), a@, b@),
{
    let label: [u8; 0] = [];
    let r = derive_pair(label.as_slice(), a, b);
    assert(label@ =~= Seq::<u8>::empty());
    r
}

/// The challenges `y` and `z` for the first-round commitments `a` and `s`.
pub fn bit_challenges(a: &GroupElement, s: &GroupElement) -> (r: (Scalar, Scalar))
    ensures
        r.0@ == challenge_y(a@, s@),
        r.1@ == challenge_z(a@, s@),
{
    let label: [u8; 2] = [0x79, 0x7a];
    assert(label@ =~= bit_commitment_label());
    derive_pair(label.as_slice(), a, s)
}

/// The challenge `x` for the second-round commitments `t1` and `t2`. The
/// second scalar that the derivation yields is not used.
pub fn polynomial_challenge(t1: &GroupElement, t2: &GroupElement) -> (r: Scalar)
    ensures
        r@ == challenge_x(t1@, t2@),
{
    let label: [u8; 1] = [0x78];
    assert(label@ =~= polynomial_commitment_label());
    let pair = derive_pair(label.as_slice(), t1, t2);
    pair.0
}

} // verus!
