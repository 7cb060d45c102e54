//! The byte encoding of a proof.
//!
//! A proof is encoded as its fields one after the other, each in its
//! canonical 32-byte form: the four commitments, the three scalars, then
//! the scalars of `l` and those of `r`. Every field has a fixed width and
//! the two vectors are equally long, so there are no lengths and no
//! separators: a proof over `n` bits takes `224 + 64·n` bytes.

use vstd::prelude::*;
use crate::error::ProofError;
use crate::field::{group_order, le_value, Scalar};
use crate::group::{is_point_encoding, GroupElement};
use crate::protocol::RangeProof;
use crate::transcript::append_block;

verus! {

/// The length of the fixed part of an encoded proof: four group elements
/// and three scalars of 32 bytes each.
pub const PROOF_BYTES: usize = 224;

/// The blocks of a sequence, one after the other.
pub open spec fn concat_blocks(blocks: Seq<Seq<u8>>) -> Seq<u8>
    decreases blocks.len(),
{
    if blocks.len() == 0 {
        Seq::empty()
    } else {
        concat_blocks(blocks.drop_last()) + blocks.last()
    }
}

/// Block `k` of `bytes`: the 32 bytes that start at `32·k`.
pub open spec fn block(bytes: Seq<u8>, k: int) -> Seq<u8> {
    bytes.subrange(32 * k, 32 * k + 32)
}

/// The encodings of a sequence of scalars.
pub open spec fn scalar_encodings(scalars: Seq<Scalar>) -> Seq<Seq<u8>> {
    Seq::new(scalars.len(), |i: int| scalars[i].encoding())
}

/// Whether `bytes` encode a proof: `224 + 64·n` bytes for some `n`, of
/// which the first four blocks of 32 are canonical encodings of group
/// elements and all the others are canonical encodings of scalars.
pub open spec fn is_proof_encoding(bytes: Seq<u8>) -> bool {
    &&& bytes.len() >= PROOF_BYTES
    &&& (bytes.len() - PROOF_BYTES) % 64 == 0
    &&& forall|k: int| 0 <= k < 4 ==> is_point_encoding(#[trigger] block(bytes, k))
    &&& forall|k: int| 4 <= k < bytes.len() / 32 ==> le_value(#[trigger] block(bytes, k)) < group_order()
}

impl RangeProof {
    /// The 32-byte blocks that encode the proof: `A`, `S`, `T1`, `T2`,
    /// `tau_x`, `mu`, `t`, the scalars of `l`, the scalars of `r`.
    pub open spec fn blocks(&self) -> Seq<Seq<u8>> {
        seq![
            self.a@,
            self.s@,
            self.t1@,
            self.t2@,
            self.tau_x.encoding(),
            self.mu.encoding(),
            self.t.encoding(),
        ] + scalar_encodings(self.l@) + scalar_encodings(self.r@)
    }

    /// The bytes that encode the proof.
    pub open spec fn encoding(&self) -> Seq<u8> {
        concat_blocks(self.blocks())
    }
}

/// Blocks that are cut from `bytes` in order, put together again, are the
/// bytes they were cut from.
pub proof fn lemma_concat_of_blocks(bytes: Seq<u8>, blocks: Seq<Seq<u8>>)
    requires
        bytes.len() >= 32 * blocks.len(),
        forall|k: int| 0 <= k < blocks.len() ==> blocks[k] == block(bytes, k),
    ensures
        concat_blocks(blocks) == bytes.subrange(0, 32 * (blocks.len() as int)),
    decreases blocks.len(),
{
    if blocks.len() > 0 {
        let m = blocks.len() - 1;
        lemma_concat_of_blocks(bytes, blocks.drop_last());
        assert(blocks.last() == block(bytes, m));
        assert(bytes.subrange(0, 32 * m) + block(bytes, m) =~= bytes.subrange(0, 32 * (blocks.len() as int)));
    } else {
        assert(bytes.subrange(0, 0) =~= Seq::<u8>::empty());
    }
}

/// Blocks of 32 bytes, put together, can be cut out again.
pub proof fn lemma_blocks_of_concat(blocks: Seq<Seq<u8>>)
    requires
        forall|k: int| 0 <= k < blocks.len() ==> (#[trigger] blocks[k]).len() == 32,
    ensures
        concat_blocks(blocks).len() == 32 * blocks.len(),
        forall|k: int| 0 <= k < blocks.len() ==> #[trigger] block(concat_blocks(blocks), k) == blocks[k],
    decreases blocks.len(),
{
    if blocks.len() > 0 {
        let m = blocks.len() - 1;
        let shorter = blocks.drop_last();
        lemma_blocks_of_concat(shorter);
        let whole = concat_blocks(blocks);
        assert(whole == concat_blocks(shorter) + blocks.last());
        assert forall|k: int| 0 <= k < blocks.len() implies #[trigger] block(whole, k) == blocks[k] by {
            if k < m {
                assert(block(whole, k) =~= block(concat_blocks(shorter), k));
                assert(shorter[k] == blocks[k]);
            } else {
                assert(block(whole, k) =~= blocks.last());
            }
        }
    }
}

/// The 32 bytes of `bytes` that start at `offset`.
fn block_at(bytes: &[u8], offset: usize) -> (r: [u8; 32])
    requires
        offset + 32 <= bytes.len(),
    ensures
        r@ == bytes@.subrange(offset as int, offset + 32),
{
    let mut block = [0u8; 32];
    let mut i: usize = 0;
    while i < 32
        invariant
            i <= 32,
            offset + 32 <= bytes.len(),
            forall|j: int| 0 <= j < i ==> block@[j] == bytes@[offset + j],
        decreases 32 - i,
    {
        block[i] = bytes[offset + i];
        i += 1;
    }
    assert(block@ =~= bytes@.subrange(offset as int, offset + 32));
    block
}

/// Appends block `m` of a proof's encoding to the `m` blocks before it.
fn append_proof_block(out: &mut Vec<u8>, bytes: &[u8; 32], Ghost(blocks): Ghost<Seq<Seq<u8>>>, Ghost(m): Ghost<int>)
    requires
        0 <= m < blocks.len(),
        old(out)@ == concat_blocks(blocks.subrange(0, m)),
        bytes@ == blocks[m],
    ensures
        final(out)@ == concat_blocks(blocks.subrange(0, m + 1)),
{
    append_block(out, bytes);
    assert(blocks.subrange(0, m + 1).drop_last() =~= blocks.subrange(0, m));
}

/// Decodes the `count` scalars whose blocks start at block `first`, or
/// nothing where one of the blocks is not canonical.
fn scalars_at(bytes: &[u8], first: usize, count: usize) -> (r: Option<Vec<Scalar>>)
    requires
        32 * (first + count) <= bytes.len(),
    ensures
        r.is_some() <==> forall|k: int|
            first <= k < first + count ==> le_value(#[trigger] block(bytes@, k)) < group_order(),
        r matches Some(scalars) ==> scalars.len() == count && forall|j: int|
            0 <= j < count ==> (#[trigger] scalars[j]).encoding() == block(bytes@, first + j),
{
    let mut scalars: Vec<Scalar> = Vec::new();
    let mut i: usize = 0;
    while i < count
        invariant
            i <= count,
            32 * (first + count) <= bytes.len(),
            scalars.len() == i,
            forall|k: int| first <= k < first + i ==> le_value(#[trigger] block(bytes@, k)) < group_order(),
            forall|j: int| 0 <= j < i ==> (#[trigger] scalars[j]).encoding() == block(bytes@, first + j),
        decreases count - i,
    {
        let offset = 32 * (first + i);
        let candidate = block_at(bytes, offset);
        assert(candidate@ == block(bytes@, first + i));
        match Scalar::from_canonical_bytes(candidate) {
            Some(k) => scalars.push(k),
            None => {
                return None;
            },
        }
        i += 1;
    }
    Some(scalars)
}

impl RangeProof {
    /// Encodes the proof: `A`, `S`, `T1`, `T2`, `tau_x`, `mu`, `t`, the
    /// scalars of `l`, the scalars of `r`, with no lengths or separators.
    /// Where `l` and `r` are equally long, as in every proof that was built
    /// or decoded, the bytes decode again.
    pub fn to_bytes(&self) -> (r: Vec<u8>)
        ensures
            r@ == self.encoding(),
            r.len() == PROOF_BYTES + 32 * (self.l.len() + self.r.len()),
            self.l.len() == self.r.len() ==> is_proof_encoding(r@),
    {
        let ghost blocks = self.blocks();
        let mut out: Vec<u8> = Vec::new();
        assert(blocks.subrange(0, 0) =~= Seq::<Seq<u8>>::empty());
        append_proof_block(&mut out, &self.a.to_bytes(), Ghost(blocks), Ghost(0));
        append_proof_block(&mut out, &self.s.to_bytes(), Ghost(blocks), Ghost(1));
        append_proof_block(&mut out, &self.t1.to_bytes(), Ghost(blocks), Ghost(2));
        append_proof_block(&mut out, &self.t2.to_bytes(), Ghost(blocks), Ghost(3));
        append_proof_block(&mut out, &self.tau_x.to_bytes(), Ghost(blocks), Ghost(4));
        append_proof_block(&mut out, &self.mu.to_bytes(), Ghost(blocks), Ghost(5));
        append_proof_block(&mut out, &self.t.to_bytes(), Ghost(blocks), Ghost(6));
        self.a.valid();
        self.s.valid();
        self.t1.valid();
        self.t2.valid();
        self.tau_x.bounded();
        self.mu.bounded();
        self.t.bounded();
        proof {
            self.tau_x.lemma_encoding();
            self.mu.lemma_encoding();
            self.t.lemma_encoding();
        }
        let mut i: usize = 0;
        while i < self.l.len()
            invariant
                i <= self.l.len(),
                blocks == self.blocks(),
                out@ == concat_blocks(blocks.subrange(0, 7 + i)),
                forall|j: int|
                    0 <= j < i ==> (#[trigger] blocks[7 + j]).len() == 32 && le_value(blocks[7 + j]) < group_order(),
            decreases self.l.len() - i,
        {
            self.l[i].bounded();
            proof {
                self.l[i as int].lemma_encoding();
            }
            append_proof_block(&mut out, &self.l[i].to_bytes(), Ghost(blocks), Ghost(7 + i));
            i += 1;
        }
        let ghost first = 7 + self.l.len();
        let mut j: usize = 0;
        while j < self.r.len()
            invariant
                j <= self.r.len(),
                blocks == self.blocks(),
                first == 7 + self.l.len(),
                out@ == concat_blocks(blocks.subrange(0, first + j)),
                forall|k: int|
                    0 <= k < j ==> (#[trigger] blocks[first + k]).len() == 32 && le_value(blocks[first + k])
                        < group_order(),
            decreases self.r.len() - j,
        {
            self.r[j].bounded();
            proof {
                self.r[j as int].lemma_encoding();
            }
            append_proof_block(&mut out, &self.r[j].to_bytes(), Ghost(blocks), Ghost(first + j));
            j += 1;
        }
        proof {
            assert(blocks.subrange(0, blocks.len() as int) =~= blocks);
            assert forall|k: int| 0 <= k < blocks.len() implies (#[trigger] blocks[k]).len() == 32 && (4 <= k
                ==> le_value(blocks[k]) < group_order()) by {
                if 7 <= k < first {
                    assert(blocks[7 + (k - 7)].len() == 32);
                } else if first <= k {
                    assert(blocks[first + (k - first)].len() == 32);
                }
            }
            lemma_blocks_of_concat(blocks);
            if self.l.len() == self.r.len() {
                assert forall|k: int| 0 <= k < 4 implies is_point_encoding(#[trigger] block(out@, k)) by {
                    assert(block(out@, k) == blocks[k]);
                }
                assert forall|k: int| 4 <= k < out@.len() / 32 implies le_value(#[trigger] block(out@, k))
                    < group_order() by {
                    assert(block(out@, k) == blocks[k]);
                }
            }
        }
        out
    }

    /// Decodes a proof. Bytes that are not the encoding of a proof, because
    /// their number does not fit or because a block is not canonical, are
    /// refused with `DecodeError`. The two vectors of a decoded proof are
    /// equally long.
    pub fn from_bytes(bytes: &[u8]) -> (r: Result<RangeProof, ProofError>)
        ensures
            r.is_ok() <==> is_proof_encoding(bytes@),
            r.is_err() <==> r == Err::<RangeProof, ProofError>(ProofError::DecodeError),
            r matches Ok(p) ==> p.encoding() == bytes@ && p.l.len() == p.r.len() && PROOF_BYTES + 64 * p.l.len()
                == bytes.len(),
    {
        if bytes.len() < PROOF_BYTES || (bytes.len() - PROOF_BYTES) % 64 != 0 {
            return Err(ProofError::DecodeError);
        }
        let n = (bytes.len() - PROOF_BYTES) / 64;
        assert(bytes.len() == 224 + 64 * n);
        assert(bytes@.len() / 32 == 7 + 2 * n);
        let a = match GroupElement::from_bytes(block_at(bytes, 0)) {
            Some(p) => p,
            None => {
                assert(!is_point_encoding(block(bytes@, 0)));
                return Err(ProofError::DecodeError);
            },
        };
        let s = match GroupElement::from_bytes(block_at(bytes, 32)) {
            Some(p) => p,
            None => {
                assert(!is_point_encoding(block(bytes@, 1)));
                return Err(ProofError::DecodeError);
            },
        };
        let t1 = match GroupElement::from_bytes(block_at(bytes, 64)) {
            Some(p) => p,
            None => {
                assert(!is_point_encoding(block(bytes@, 2)));
                return Err(ProofError::DecodeError);
            },
        };
        let t2 = match GroupElement::from_bytes(block_at(bytes, 96)) {
            Some(p) => p,
            None => {
                assert(!is_point_encoding(block(bytes@, 3)));
                return Err(ProofError::DecodeError);
            },
        };
        let fixed = match scalars_at(bytes, 4, 3) {
            Some(scalars) => scalars,
            None => {
                return Err(ProofError::DecodeError);
            },
        };
        let l = match scalars_at(bytes, 7, n) {
            Some(scalars) => scalars,
            None => {
                return Err(ProofError::DecodeError);
            },
        };
        let r = match scalars_at(bytes, 7 + n, n) {
            Some(scalars) => scalars,
            None => {
                return Err(ProofError::DecodeError);
            },
        };
        let decoded = RangeProof { a, s, t1, t2, tau_x: fixed[0], mu: fixed[1], t: fixed[2], l, r };
        proof {
            let blocks = decoded.blocks();
            assert(blocks.len() == 7 + 2 * n);
            assert(block(bytes@, 0) == a@ && block(bytes@, 1) == s@);
            assert(block(bytes@, 2) == t1@ && block(bytes@, 3) == t2@);
            assert forall|k: int| 0 <= k < blocks.len() implies blocks[k] == block(bytes@, k) by {
                if 4 <= k < 7 {
                    assert(fixed[k - 4].encoding() == block(bytes@, 4 + (k - 4)));
                } else if 7 <= k < 7 + n {
                    assert(decoded.l[k - 7].encoding() == block(bytes@, 7 + (k - 7)));
                } else if 7 + n <= k {
                    assert(decoded.r[k - 7 - n].encoding() == block(bytes@, 7 + n + (k - 7 - n)));
                }
            }
            lemma_concat_of_blocks(bytes@, blocks);
            assert(bytes@.subrange(0, bytes@.len() as int) =~= bytes@);
            assert forall|k: int| 4 <= k < bytes@.len() / 32 implies le_value(#[trigger] block(bytes@, k))
                < group_order() by {
            }
        }
        Ok(decoded)
    }
}

} // verus!
