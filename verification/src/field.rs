//! The scalar field: integers modulo the order of the Ristretto group.
//!
//! A [`Scalar`] is held as its canonical 32-byte little-endian encoding. Its
//! view is the integer that the bytes spell, always below the group order.
//! The arithmetic itself is done by `curve25519-dalek`; the functions that
//! reach it are marked as trusted and say what the result is as an integer.

use vstd::prelude::*;
use vstd::arithmetic::power2::*;
use vstd::arithmetic::div_mod::*;

verus! {

/// The order of the Ristretto group: the prime
/// `2^252 + 27742317777372353535851937790883648493`.
pub open spec fn group_order() -> nat {
    pow2(252) + 27742317777372353535851937790883648493
}

/// The canonical representative of the integer `x` modulo the group order.
pub open spec fn reduce(x: int) -> int {
    x % (group_order() as int)
}

/// Whether `k` is the integer of a scalar: whether it lies in
/// `0 .. group_order()`.
pub open spec fn is_scalar(k: int) -> bool {
    0 <= k < group_order()
}

/// Whether every integer of a sequence is the integer of a scalar.
pub open spec fn all_scalars(cs: Seq<int>) -> bool {
    forall|i: int| 0 <= i < cs.len() ==> is_scalar(#[trigger] cs[i])
}

/// The integer spelled by `bytes`, least significant byte first.
pub open spec fn le_value(bytes: Seq<u8>) -> nat
    decreases bytes.len(),
{
    if bytes.len() == 0 {
        0
    } else {
        (bytes[0] as nat) + 256 * le_value(bytes.skip(1))
    }
}

/// The `len` bytes that spell `value`, least significant byte first; higher
/// digits of `value` are left out.
pub open spec fn le_bytes(value: nat, len: nat) -> Seq<u8>
    decreases len,
{
    if len == 0 {
        Seq::empty()
    } else {
        seq![(value % 256) as u8] + le_bytes(value / 256, (len - 1) as nat)
    }
}

/// Bytes are the spelling of the integer that they spell.
pub proof fn lemma_le_bytes_of_value(bytes: Seq<u8>)
    ensures
        le_bytes(le_value(bytes), bytes.len()) == bytes,
    decreases bytes.len(),
{
    if bytes.len() > 0 {
        let rest = bytes.skip(1);
        let value = le_value(bytes);
        lemma_le_bytes_of_value(rest);
        assert(value == bytes[0] as nat + 256 * le_value(rest));
        assert(value % 256 == bytes[0] as nat && value / 256 == le_value(rest)) by {
            lemma_fundamental_div_mod_converse(value as int, 256, le_value(rest) as int, bytes[0] as int);
        }
        assert(seq![bytes[0]] + rest =~= bytes);
    } else {
        assert(bytes =~= Seq::<u8>::empty());
    }
}

/// The group order exceeds every `u64`.
pub proof fn lemma_group_order_large()
    ensures
        group_order() > 0x1_0000_0000_0000_0000,
{
    lemma2_to64();
    lemma_pow2_strictly_increases(64, 252);
}

/// A representative lies in `0 .. group_order()` and is its own representative.
pub proof fn lemma_reduce_range(x: int)
    ensures
        0 <= reduce(x) < group_order(),
        reduce(reduce(x)) == reduce(x),
{
    lemma_group_order_large();
    lemma_mod_bound(x, group_order() as int);
    lemma_mod_twice(x, group_order() as int);
}

/// An integer in `0 .. group_order()` is its own representative.
pub proof fn lemma_reduce_small(x: int)
    requires
        0 <= x < group_order(),
    ensures
        reduce(x) == x,
{
    lemma_small_mod(x as nat, group_order());
}

/// Sums may be reduced before or after adding.
pub proof fn lemma_reduce_add(a: int, b: int)
    ensures
        reduce(reduce(a) + reduce(b)) == reduce(a + b),
{
    lemma_group_order_large();
    lemma_add_mod_noop(a, b, group_order() as int);
}

/// Differences may be reduced before or after subtracting.
pub proof fn lemma_reduce_sub(a: int, b: int)
    ensures
        reduce(reduce(a) - reduce(b)) == reduce(a - b),
{
    lemma_group_order_large();
    lemma_sub_mod_noop(a, b, group_order() as int);
}

/// Products may be reduced before or after multiplying.
pub proof fn lemma_reduce_mul(a: int, b: int)
    ensures
        reduce(reduce(a) * reduce(b)) == reduce(a * b),
{
    lemma_group_order_large();
    lemma_mul_mod_noop(a, b, group_order() as int);
}

/// A factor may be reduced before the product is.
pub proof fn lemma_reduce_mul_left(a: int, b: int)
    ensures
        reduce(reduce(a) * b) == reduce(a * b),
        reduce(a * reduce(b)) == reduce(a * b),
{
    lemma_group_order_large();
    lemma_mul_mod_noop_left(a, b, group_order() as int);
    lemma_mul_mod_noop_right(a, b, group_order() as int);
}

/// The multiplicative inverse of `y` modulo the group order, where `y` has
/// one: the scalar `k` with `y·k = 1`.
pub open spec fn inverse_of(y: int) -> int {
    choose|k: int| is_scalar(k) && reduce(y * k) == 1
}

/// A scalar has at most one inverse: whatever multiplies `y` to 1 is
/// `inverse_of(y)`.
pub proof fn lemma_inverse_unique(y: int, k: int)
    requires
        is_scalar(k),
        reduce(y * k) == 1,
    ensures
        inverse_of(y) == k,
        is_scalar(inverse_of(y)),
        reduce(y * inverse_of(y)) == 1,
{
    let j = inverse_of(y);
    assert(is_scalar(j) && reduce(y * j) == 1);
    // j = j·(y·k) = (y·j)·k = k
    lemma_reduce_small(j);
    lemma_reduce_small(k);
    lemma_reduce_mul(j, y * k);
    lemma_reduce_mul(y * j, k);
    assert(j * (y * k) == (y * j) * k) by (nonlinear_arith);
    assert(reduce(j) * reduce(y * k) == j);
    assert(reduce(y * j) * reduce(k) == k);
}

/// An element of the scalar field.
#[derive(Clone, Copy, Debug, PartialEq, Eq)]
pub struct Scalar {
    pub(crate) bytes: [u8; 32],
}

impl View for Scalar {
    type V = int;

    closed spec fn view(&self) -> int {
        le_value(self.bytes@) as int
    }
}

/// Converts a `u64` with `Scalar::from` of curve25519-dalek, which copies the
/// eight little-endian bytes of `x` into an otherwise zero encoding: the
/// scalar whose integer is `x`.
#[verifier::external_body]
fn scalar_of_u64(x: u64) -> (r: Scalar)
    ensures
        r@ == x,
{
    Scalar { bytes: curve25519_dalek::scalar::Scalar::from(x).to_bytes() }
}

/// Reduces a 512-bit integer with `Scalar::from_bytes_mod_order_wide` of
/// curve25519-dalek: the little-endian integer of the 64 bytes, modulo the
/// group order.
#[verifier::external_body]
fn scalar_of_wide(bytes: &[u8; 64]) -> (r: Scalar)
    ensures
        r@ == reduce(le_value(bytes@) as int),
{
    Scalar { bytes: curve25519_dalek::scalar::Scalar::from_bytes_mod_order_wide(bytes).to_bytes() }
}

/// Decodes with `Scalar::from_canonical_bytes` of curve25519-dalek, which
/// accepts exactly the encodings of integers below the group order and keeps
/// the bytes as they are.
#[verifier::external_body]
fn scalar_of_canonical(bytes: [u8; 32]) -> (r: Option<Scalar>)
    ensures
        r.is_some() <==> le_value(bytes@) < group_order(),
        r matches Some(s) ==> s.encoding() == bytes@,
{
    match Option::from(curve25519_dalek::scalar::Scalar::from_canonical_bytes(bytes)) {
        Some::<curve25519_dalek::scalar::Scalar>(s) => Some(Scalar { bytes: s.to_bytes() }),
        None => None,
    }
}

/// Adds with the `Add` of curve25519-dalek's `Scalar`: the sum of the two
/// integers, reduced modulo the group order.
#[verifier::external_body]
fn scalar_sum(a: &Scalar, b: &Scalar) -> (r: Scalar)
    ensures
        r@ == reduce(a@ + b@),
{
    let x = curve25519_dalek::scalar::Scalar::from_bytes_mod_order(a.bytes);
    let y = curve25519_dalek::scalar::Scalar::from_bytes_mod_order(b.bytes);
    Scalar { bytes: (x + y).to_bytes() }
}

/// Subtracts with the `Sub` of curve25519-dalek's `Scalar`: the difference of
/// the two integers, reduced modulo the group order.
#[verifier::external_body]
fn scalar_difference(a: &Scalar, b: &Scalar) -> (r: Scalar)
    ensures
        r@ == reduce(a@ - b@),
{
    let x = curve25519_dalek::scalar::Scalar::from_bytes_mod_order(a.bytes);
    let y = curve25519_dalek::scalar::Scalar::from_bytes_mod_order(b.bytes);
    Scalar { bytes: (x - y).to_bytes() }
}

/// Multiplies with the `Mul` of curve25519-dalek's `Scalar`: the product of
/// the two integers, reduced modulo the group order.
#[verifier::external_body]
fn scalar_product(a: &Scalar, b: &Scalar) -> (r: Scalar)
    ensures
        r@ == reduce(a@ * b@),
{
    let x = curve25519_dalek::scalar::Scalar::from_bytes_mod_order(a.bytes);
    let y = curve25519_dalek::scalar::Scalar::from_bytes_mod_order(b.bytes);
    Scalar { bytes: (x * y).to_bytes() }
}

/// Negates with the `Neg` of curve25519-dalek's `Scalar`: the additive
/// inverse of the integer modulo the group order.
#[verifier::external_body]
fn scalar_negation(a: &Scalar) -> (r: Scalar)
    ensures
        r@ == reduce(-a@),
{
    let x = curve25519_dalek::scalar::Scalar::from_bytes_mod_order(a.bytes);
    Scalar { bytes: (-x).to_bytes() }
}

/// Inverts with `Scalar::invert` of curve25519-dalek, which asks for a
/// scalar other than zero and gives its multiplicative inverse: the product
/// of the two is 1.
#[verifier::external_body]
fn scalar_inverse(a: &Scalar) -> (r: Scalar)
    requires
        a@ != 0,
    ensures
        is_scalar(r@),
        reduce(a@ * r@) == 1,
{
    let x = curve25519_dalek::scalar::Scalar::from_bytes_mod_order(a.bytes);
    Scalar { bytes: x.invert().to_bytes() }
}

impl Scalar {
    #[verifier::type_invariant]
    spec fn canonical(self) -> bool {
        le_value(self.bytes@) < group_order()
    }

    /// The 32 bytes that encode this scalar, least significant first.
    pub closed spec fn encoding(&self) -> Seq<u8> {
        self.bytes@
    }

    /// The encoding is the 32 bytes that spell the scalar's integer.
    pub proof fn lemma_encoding(&self)
        ensures
            self.encoding().len() == 32,
            le_value(self.encoding()) == self@,
            self.encoding() == le_bytes(self@ as nat, 32),
    {
        lemma_le_bytes_of_value(self.bytes@);
    }

    /// Scalars with the same integer are the same scalar.
    pub proof fn lemma_value_determines(&self, other: &Scalar)
        requires
            self@ == other@,
        ensures
            *self == *other,
    {
        self.lemma_encoding();
        other.lemma_encoding();
        self.lemma_encoding_determines(other);
    }

    /// Scalars with the same encoding are the same scalar.
    pub proof fn lemma_encoding_determines(&self, other: &Scalar)
        requires
            self.encoding() == other.encoding(),
        ensures
            *self == *other,
    {
        assert(self.bytes@ =~= other.bytes@);
        assert(self.bytes == other.bytes);
    }

    /// The scalar 0.
    pub fn zero() -> (r: Scalar)
        ensures
            r@ == 0,
    {
        scalar_of_u64(0)
    }

    /// The scalar 1.
    pub fn one() -> (r: Scalar)
        ensures
            r@ == 1,
    {
        scalar_of_u64(1)
    }

    /// The scalar whose integer is `x`.
    pub fn from_u64(x: u64) -> (r: Scalar)
        ensures
            r@ == x,
    {
        scalar_of_u64(x)
    }

    /// The scalar of a 512-bit little-endian integer, reduced modulo the
    /// group order.
    pub fn from_bytes_mod_order_wide(bytes: &[u8; 64]) -> (r: Scalar)
        ensures
            r@ == reduce(le_value(bytes@) as int),
    {
        scalar_of_wide(bytes)
    }

    /// Decodes a canonical encoding: `None` exactly when the bytes spell an
    /// integer that is not below the group order.
    pub fn from_canonical_bytes(bytes: [u8; 32]) -> (r: Option<Scalar>)
        ensures
            r.is_some() <==> le_value(bytes@) < group_order(),
            r matches Some(s) ==> s.encoding() == bytes@ && s@ == le_value(bytes@),
    {
        scalar_of_canonical(bytes)
    }

    /// The canonical encoding.
    pub fn to_bytes(&self) -> (r: [u8; 32])
        ensures
            r@ == self.encoding(),
            le_value(r@) == self@,
    {
        self.bytes
    }

    /// Whether two scalars are the same.
    pub fn equals(&self, other: &Scalar) -> (r: bool)
        ensures
            r == (self@ == other@),
    {
        let mut i: usize = 0;
        while i < 32
            invariant
                i <= 32,
                forall|j: int| 0 <= j < i ==> self.bytes@[j] == other.bytes@[j],
            decreases 32 - i,
        {
            if self.bytes[i] != other.bytes[i] {
                proof {
                    self.lemma_encoding();
                    other.lemma_encoding();
                }
                return false;
            }
            i += 1;
        }
        assert(self.bytes@ =~= other.bytes@);
        true
    }

    /// The sum of two scalars.
    pub fn add(&self, other: &Scalar) -> (r: Scalar)
        ensures
            r@ == reduce(self@ + other@),
    {
        scalar_sum(self, other)
    }

    /// The difference of two scalars.
    pub fn sub(&self, other: &Scalar) -> (r: Scalar)
        ensures
            r@ == reduce(self@ - other@),
    {
        scalar_difference(self, other)
    }

    /// The product of two scalars.
    pub fn mul(&self, other: &Scalar) -> (r: Scalar)
        ensures
            r@ == reduce(self@ * other@),
    {
        scalar_product(self, other)
    }

    /// The additive inverse of a scalar.
    pub fn neg(&self) -> (r: Scalar)
        ensures
            r@ == reduce(-self@),
    {
        scalar_negation(self)
    }

    /// The multiplicative inverse, which every scalar but zero has.
    pub fn invert(&self) -> (r: Option<Scalar>)
        ensures
            r.is_some() <==> self@ != 0,
            r matches Some(k) ==> reduce(self@ * k@) == 1 && k@ == inverse_of(self@),
    {
        let zero = Scalar::zero();
        if self.equals(&zero) {
            None
        } else {
            let k = scalar_inverse(self);
            proof {
                lemma_inverse_unique(self@, k@);
            }
            Some(k)
        }
    }

    /// Every scalar's integer lies in `0 .. group_order()`, so it is its own
    /// representative.
    pub fn bounded(&self)
        ensures
            0 <= self@ < group_order(),
            reduce(self@) == self@,
    {
        proof {
            use_type_invariant(self);
            lemma_reduce_small(self@);
        }
    }
}

} // verus!
