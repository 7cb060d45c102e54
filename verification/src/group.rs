//! The Ristretto group.
//!
//! A [`GroupElement`] is held as its canonical 32-byte compressed encoding,
//! and its view is that encoding. The group law is computed by
//! `curve25519-dalek`; what it returns is given a name here, as a function of
//! the encodings that go in, and the functions that reach it are marked as
//! trusted.

use vstd::prelude::*;
use crate::field::Scalar;
use curve25519_dalek::ristretto::CompressedRistretto;
use curve25519_dalek::ristretto::RistrettoPoint;
use curve25519_dalek::traits::MultiscalarMul;
use subtle::ConditionallySelectable;

verus! {

/// Whether 32 bytes are the canonical encoding of a group element: whether
/// `CompressedRistretto::decompress` accepts them.
pub uninterp spec fn is_point_encoding(bytes: Seq<u8>) -> bool;

/// The encoding of the sum of the elements encoded by `a` and `b`.
pub uninterp spec fn point_add(a: Seq<u8>, b: Seq<u8>) -> Seq<u8>;

/// The encoding of the inverse of the element encoded by `a`.
pub uninterp spec fn point_neg(a: Seq<u8>) -> Seq<u8>;

/// The encoding of `k` times the element encoded by `p`.
pub uninterp spec fn point_scale(k: int, p: Seq<u8>) -> Seq<u8>;

/// The encoding of the element that `RistrettoPoint::hash_from_bytes`, run
/// with SHA-512, derives from `data`.
pub uninterp spec fn hashed_point(data: Seq<u8>) -> Seq<u8>;

/// The encoding of the neutral element: 32 zero bytes.
pub open spec fn identity_encoding() -> Seq<u8> {
    Seq::new(32, |i: int| 0u8)
}

/// The encoding of `scalars[0]·points[0] + … + scalars[k-1]·points[k-1]`,
/// summed from the left, starting from the neutral element.
pub open spec fn linear_combination(scalars: Seq<int>, points: Seq<Seq<u8>>) -> Seq<u8>
    decreases scalars.len(),
{
    if scalars.len() == 0 || points.len() != scalars.len() {
        identity_encoding()
    } else {
        point_add(
            linear_combination(scalars.drop_last(), points.drop_last()),
            point_scale(scalars.last(), points.last()),
        )
    }
}

/// The integers of a sequence of scalars.
pub open spec fn scalar_values(scalars: Seq<Scalar>) -> Seq<int> {
    Seq::new(scalars.len(), |i: int| scalars[i]@)
}

/// The encodings of a sequence of group elements.
pub open spec fn encodings(points: Seq<GroupElement>) -> Seq<Seq<u8>> {
    Seq::new(points.len(), |i: int| points[i]@)
}

/// An element of the Ristretto group.
#[derive(Clone, Copy, Debug, PartialEq, Eq)]
pub struct GroupElement {
    bytes: [u8; 32],
}

impl View for GroupElement {
    type V = Seq<u8>;

    closed spec fn view(&self) -> Seq<u8> {
        self.bytes@
    }
}

/// Decodes with `CompressedRistretto::decompress` of curve25519-dalek, which
/// accepts exactly the canonical encodings; the element is kept as the bytes
/// that were given.
#[verifier::external_body]
fn point_of_bytes(bytes: [u8; 32]) -> (r: Option<GroupElement>)
    ensures
        r.is_some() <==> is_point_encoding(bytes@),
        r matches Some(p) ==> p@ == bytes@,
{
    match CompressedRistretto(bytes).decompress() {
        Some(_) => Some(GroupElement { bytes }),
        None => None,
    }
}

/// Hashes to the group with `RistrettoPoint::hash_from_bytes` of
/// curve25519-dalek over SHA-512, and compresses the element it gives: a
/// canonical encoding that depends on `data` alone.
#[verifier::external_body]
fn point_of_hash(data: &[u8]) -> (r: GroupElement)
    ensures
        r@ == hashed_point(data@),
        is_point_encoding(r@),
{
    GroupElement { bytes: RistrettoPoint::hash_from_bytes::<sha2::Sha512>(data).compress().to_bytes() }
}

/// Adds with the `Add` of curve25519-dalek's `RistrettoPoint`, on the
/// elements that the two encodings decompress to, and compresses the sum: a
/// canonical encoding that depends on the two encodings alone.
#[verifier::external_body]
fn point_sum(a: &GroupElement, b: &GroupElement) -> (r: GroupElement)
    requires
        is_point_encoding(a@),
        is_point_encoding(b@),
    ensures
        r@ == point_add(a@, b@),
        is_point_encoding(r@),
{
    let x = CompressedRistretto(a.bytes).decompress().unwrap();
    let y = CompressedRistretto(b.bytes).decompress().unwrap();
    GroupElement { bytes: (x + y).compress().to_bytes() }
}

/// Negates with the `Neg` of curve25519-dalek's `RistrettoPoint`, on the
/// element that the encoding decompresses to, and compresses the inverse.
#[verifier::external_body]
fn point_negation(a: &GroupElement) -> (r: GroupElement)
    requires
        is_point_encoding(a@),
    ensures
        r@ == point_neg(a@),
        is_point_encoding(r@),
{
    let x = CompressedRistretto(a.bytes).decompress().unwrap();
    GroupElement { bytes: (-x).compress().to_bytes() }
}

/// Multiplies an element by a scalar with the `Mul` of curve25519-dalek's
/// `RistrettoPoint`, on the element that the encoding decompresses to, and
/// compresses the multiple.
#[verifier::external_body]
fn point_multiple(k: &Scalar, p: &GroupElement) -> (r: GroupElement)
    requires
        is_point_encoding(p@),
    ensures
        r@ == point_scale(k@, p@),
        is_point_encoding(r@),
{
    let s = curve25519_dalek::scalar::Scalar::from_bytes_mod_order(k.bytes);
    let x = CompressedRistretto(p.bytes).decompress().unwrap();
    GroupElement { bytes: (x * s).compress().to_bytes() }
}

/// Computes `scalars[0]·points[0] + … + scalars[k-1]·points[k-1]` with
/// `RistrettoPoint::multiscalar_mul` of curve25519-dalek, which asks for as
/// many scalars as points and returns the neutral element for none. The
/// result is stated as the same sum taken with single additions and
/// multiplications.
#[verifier::external_body]
fn point_combination(scalars: &Vec<Scalar>, points: &Vec<GroupElement>) -> (r: GroupElement)
    requires
        scalars.len() == points.len(),
        forall|i: int| 0 <= i < points.len() ==> is_point_encoding(#[trigger] points[i]@),
    ensures
        r@ == linear_combination(scalar_values(scalars@), encodings(points@)),
        is_point_encoding(r@),
{
    let s = scalars.iter().map(|k| curve25519_dalek::scalar::Scalar::from_bytes_mod_order(k.bytes));
    let p = points.iter().map(|x| CompressedRistretto(x.bytes).decompress().unwrap());
    GroupElement { bytes: RistrettoPoint::multiscalar_mul(s, p).compress().to_bytes() }
}

/// Picks one of two elements with `RistrettoPoint::conditional_select` of
/// curve25519-dalek, which runs the same instructions whatever the flag is:
/// `on` where the flag is set, `off` where it is not. Compressing what was
/// decompressed gives the canonical encoding back.
#[verifier::external_body]
fn point_choice(flag: bool, on: &GroupElement, off: &GroupElement) -> (r: GroupElement)
    requires
        is_point_encoding(on@),
        is_point_encoding(off@),
    ensures
        r@ == (if flag { on@ } else { off@ }),
        is_point_encoding(r@),
{
    let x = CompressedRistretto(on.bytes).decompress().unwrap();
    let y = CompressedRistretto(off.bytes).decompress().unwrap();
    let c = subtle::Choice::from(flag as u8);
    GroupElement { bytes: RistrettoPoint::conditional_select(&y, &x, c).compress().to_bytes() }
}

impl GroupElement {
    #[verifier::type_invariant]
    spec fn decodable(self) -> bool {
        is_point_encoding(self.bytes@)
    }

    /// Every element's view is a canonical encoding of 32 bytes.
    pub fn valid(&self)
        ensures
            is_point_encoding(self@),
            self@.len() == 32,
    {
        proof {
            use_type_invariant(self);
        }
    }

    /// Elements with the same encoding are the same element.
    pub proof fn lemma_encoding_determines(&self, other: &GroupElement)
        requires
            self@ == other@,
        ensures
            *self == *other,
    {
        assert(self.bytes@ =~= other.bytes@);
        assert(self.bytes == other.bytes);
    }

    /// Decodes a compressed element: `None` exactly when the bytes are not a
    /// canonical encoding.
    pub fn from_bytes(bytes: [u8; 32]) -> (r: Option<GroupElement>)
        ensures
            r.is_some() <==> is_point_encoding(bytes@),
            r matches Some(p) ==> p@ == bytes@,
    {
        point_of_bytes(bytes)
    }

    /// The compressed encoding.
    pub fn to_bytes(&self) -> (r: [u8; 32])
        ensures
            r@ == self@,
    {
        self.bytes
    }

    /// The element that `data` hashes to.
    pub fn hash_from_bytes(data: &[u8]) -> (r: GroupElement)
        ensures
            r@ == hashed_point(data@),
    {
        point_of_hash(data)
    }

    /// The sum of two elements.
    pub fn add(&self, other: &GroupElement) -> (r: GroupElement)
        ensures
            r@ == point_add(self@, other@),
    {
        self.valid();
        other.valid();
        point_sum(self, other)
    }

    /// The inverse of an element.
    pub fn neg(&self) -> (r: GroupElement)
        ensures
            r@ == point_neg(self@),
    {
        self.valid();
        point_negation(self)
    }

    /// The element multiplied by a scalar.
    pub fn scale(&self, k: &Scalar) -> (r: GroupElement)
        ensures
            r@ == point_scale(k@, self@),
    {
        self.valid();
        point_multiple(k, self)
    }

    /// One of two elements, picked without branching on the flag: `on` where
    /// it is set, `off` where it is not.
    pub fn select(flag: bool, on: &GroupElement, off: &GroupElement) -> (r: GroupElement)
        ensures
            r@ == (if flag { on@ } else { off@ }),
    {
        on.valid();
        off.valid();
        point_choice(flag, on, off)
    }

    /// Whether two elements are the same.
    pub fn equals(&self, other: &GroupElement) -> (r: bool)
        ensures
            r == (self@ == other@),
    {
        let mut i: usize = 0;
        while i < 32
            invariant
                i <= 32,
                forall|j: int| 0 <= j < i ==> self.bytes@[j] == other.bytes@[j],
            decreases 32 - i,
        {
            if self.bytes[i] != other.bytes[i] {
                return false;
            }
            i += 1;
        }
        assert(self.bytes@ =~= other.bytes@);
        true
    }
}

/// The combination `scalars[0]·points[0] + … + scalars[k-1]·points[k-1]`, or
/// `None` where the two sequences differ in length.
pub fn multiscalar_mul(scalars: &Vec<Scalar>, points: &Vec<GroupElement>) -> (r: Option<GroupElement>)
    ensures
        r.is_some() <==> scalars.len() == points.len(),
        r matches Some(p) ==> p@ == linear_combination(scalar_values(scalars@), encodings(points@)),
{
    if scalars.len() != points.len() {
        return None;
    }
    let mut i: usize = 0;
    while i < points.len()
        invariant
            i <= points.len(),
            forall|j: int| 0 <= j < i ==> is_point_encoding(#[trigger] points[j]@),
        decreases points.len() - i,
    {
        points[i].valid();
        i += 1;
    }
    Some(point_combination(scalars, points))
}

/// The Pedersen commitment `value·value_base + blinding·blinding_base`.
pub open spec fn pedersen(value: int, blinding: int, value_base: Seq<u8>, blinding_base: Seq<u8>) -> Seq<u8> {
    point_add(point_scale(value, value_base), point_scale(blinding, blinding_base))
}

/// Commits to `value` under `blinding`: `value·value_base + blinding·blinding_base`.
pub fn pedersen_commit(
    value: &Scalar,
    blinding: &Scalar,
    value_base: &GroupElement,
    blinding_base: &GroupElement,
) -> (r: GroupElement)
    ensures
        r@ == pedersen(value@, blinding@, value_base@, blinding_base@),
{
    let left = value_base.scale(value);
    let right = blinding_base.scale(blinding);
    left.add(&right)
}

} // verus!
