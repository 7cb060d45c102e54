//! Generator vectors derived from a base point by repeated hashing.
//!
//! Nobody chooses these elements: each is the hash of the encoding of the
//! one before it, so no relation between them is known to anyone.

use vstd::prelude::*;
use crate::group::{encodings, hashed_point, is_point_encoding, GroupElement};

verus! {

/// The first `n` links of the hash chain that starts at `base`: link 0 is
/// the hash of `base`, and every later link is the hash of the link before.
pub open spec fn generator_chain(base: Seq<u8>, n: nat) -> Seq<Seq<u8>>
    decreases n,
{
    if n == 0 {
        Seq::empty()
    } else {
        let shorter = generator_chain(base, (n - 1) as nat);
        shorter.push(hashed_point(if n == 1 { base } else { shorter[n - 2] }))
    }
}

/// A chain of `n` links has `n` elements and extends every shorter chain
/// from the same base.
pub proof fn lemma_generator_chain(base: Seq<u8>, n: nat)
    ensures
        generator_chain(base, n).len() == n,
        n > 0 ==> generator_chain(base, n)[0] == hashed_point(base),
        forall|i: int|
            1 <= i < n ==> #[trigger] generator_chain(base, n)[i] == hashed_point(generator_chain(base, n)[i - 1]),
        forall|m: nat, i: int|
            0 <= i < m <= n ==> #[trigger] generator_chain(base, m)[i] == generator_chain(base, n)[i],
    decreases n,
{
    if n > 0 {
        lemma_generator_chain(base, (n - 1) as nat);
        let shorter = generator_chain(base, (n - 1) as nat);
        let full = generator_chain(base, n);
        assert(full == shorter.push(hashed_point(if n == 1 { base } else { shorter[n - 2] })));
        assert forall|m: nat, i: int| 0 <= i < m <= n implies #[trigger] generator_chain(base, m)[i] == full[i] by {
            if m < n {
                assert(generator_chain(base, m)[i] == shorter[i]);
            }
        }
        assert forall|i: int| 1 <= i < n implies #[trigger] full[i] == hashed_point(full[i - 1]) by {
            if i < n - 1 {
                assert(shorter[i] == hashed_point(shorter[i - 1]));
            }
        }
    }
}

/// Derivation is deterministic: two vectors derived from the same base
/// point with the same length are the same vector.
pub proof fn lemma_generators_deterministic(first: Seq<GroupElement>, second: Seq<GroupElement>, base: Seq<u8>, n: nat)
    requires
        encodings(first) == generator_chain(base, n),
        encodings(second) == generator_chain(base, n),
    ensures
        first == second,
{
    lemma_generator_chain(base, n);
    assert(first.len() == encodings(first).len());
    assert(second.len() == encodings(second).len());
    assert forall|i: int| 0 <= i < first.len() implies first[i] == second[i] by {
        assert(encodings(first)[i] == first[i]@);
        assert(encodings(second)[i] == second[i]@);
        first[i].lemma_encoding_determines(&second[i]);
    }
    assert(first =~= second);
}

/// Derives `len` generators from `point`: the first is the hash of the
/// encoding of `point`, each later one the hash of the encoding of the one
/// before it. No generators are derived for `len == 0`.
pub fn make_generators(point: &GroupElement, len: usize) -> (r: Vec<GroupElement>)
    ensures
        r.len() == len,
        encodings(r@) == generator_chain(point@, len as nat),
        len > 0 ==> r[0]@ == hashed_point(point@),
        forall|i: int| 1 <= i < len ==> #[trigger] r[i]@ == hashed_point(r[i - 1]@),
        forall|i: int| 0 <= i < len ==> is_point_encoding(#[trigger] generator_chain(point@, len as nat)[i]),
{
    let mut generators: Vec<GroupElement> = Vec::new();
    let mut previous: GroupElement = *point;
    let mut i: usize = 0;
    while i < len
        invariant
            i <= len,
            generators.len() == i,
            encodings(generators@) == generator_chain(point@, i as nat),
            previous@ == (if i == 0 { point@ } else { generators[i - 1]@ }),
            forall|j: int| 0 <= j < i ==> is_point_encoding(#[trigger] generators[j]@),
        decreases len - i,
    {
        let bytes = previous.to_bytes();
        let next = GroupElement::hash_from_bytes(bytes.as_slice());
        next.valid();
        proof {
            let shorter = generator_chain(point@, i as nat);
            assert(i > 0 ==> shorter[i - 1] == encodings(generators@)[i - 1]);
            assert(encodings(generators@.push(next)) =~= encodings(generators@).push(next@));
        }
        generators.push(next);
        previous = next;
        i += 1;
    }
    proof {
        lemma_generator_chain(point@, len as nat);
        assert forall|i: int| 1 <= i < len implies #[trigger] generators[i]@ == hashed_point(generators[i - 1]@) by {
            assert(encodings(generators@)[i] == generators[i]@);
            assert(encodings(generators@)[i - 1] == generators[i - 1]@);
        }
        if len > 0 {
            assert(encodings(generators@)[0] == generators[0]@);
        }
        assert forall|i: int| 0 <= i < len implies is_point_encoding(
            #[trigger] generator_chain(point@, len as nat)[i],
        ) by {
            assert(encodings(generators@)[i] == generators[i]@);
        }
    }
    generators
}

} // verus!
