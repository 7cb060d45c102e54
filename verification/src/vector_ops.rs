//! Products of scalar vectors.

use vstd::prelude::*;
use crate::error::ProofError;
use crate::field::{lemma_reduce_add, lemma_reduce_mul, lemma_reduce_small, reduce, Scalar};
use crate::group::scalar_values;

verus! {

/// The sum `a[0]·b[0] + … + a[k-1]·b[k-1]` over the integers, where `k` is
/// the length of `a`.
pub open spec fn inner_sum(a: Seq<int>, b: Seq<int>) -> int
    decreases a.len(),
{
    if a.len() == 0 || b.len() != a.len() {
        0
    } else {
        inner_sum(a.drop_last(), b.drop_last()) + a.last() * b.last()
    }
}

/// The inner sum of two prefixes grows by one product with each element.
pub proof fn lemma_inner_sum_step(a: Seq<int>, b: Seq<int>, k: int)
    requires
        0 <= k < a.len(),
        a.len() == b.len(),
    ensures
        inner_sum(a.subrange(0, k + 1), b.subrange(0, k + 1)) == inner_sum(a.subrange(0, k), b.subrange(0, k)) + a[k]
            * b[k],
{
    assert(a.subrange(0, k + 1).drop_last() =~= a.subrange(0, k));
    assert(b.subrange(0, k + 1).drop_last() =~= b.subrange(0, k));
}

/// The inner sum, reduced, depends only on the representatives of the
/// entries.
pub proof fn lemma_inner_sum_reduced(a: Seq<int>, b: Seq<int>, c: Seq<int>, d: Seq<int>)
    requires
        a.len() == b.len(),
        a.len() == c.len(),
        a.len() == d.len(),
        forall|i: int| 0 <= i < a.len() ==> reduce(a[i]) == reduce(c[i]),
        forall|i: int| 0 <= i < a.len() ==> reduce(b[i]) == reduce(d[i]),
    ensures
        reduce(inner_sum(a, b)) == reduce(inner_sum(c, d)),
    decreases a.len(),
{
    if a.len() > 0 {
        lemma_inner_sum_reduced(a.drop_last(), b.drop_last(), c.drop_last(), d.drop_last());
        lemma_reduce_mul(a.last(), b.last());
        lemma_reduce_mul(c.last(), d.last());
        lemma_reduce_add(inner_sum(a.drop_last(), b.drop_last()), a.last() * b.last());
        lemma_reduce_add(inner_sum(c.drop_last(), d.drop_last()), c.last() * d.last());
    }
}

/// The elementwise product of two vectors of the same length; vectors of
/// different lengths are refused.
pub fn hadamard_product(a: Vec<Scalar>, b: Vec<Scalar>) -> (r: Result<Vec<Scalar>, ProofError>)
    ensures
        a.len() != b.len() <==> r == Err::<Vec<Scalar>, ProofError>(ProofError::LengthMismatch),
        a.len() == b.len() <==> r.is_ok(),
        r matches Ok(c) ==> c.len() == a.len() && forall|i: int|
            0 <= i < c.len() ==> #[trigger] c[i]@ == reduce(a[i]@ * b[i]@),
{
    if a.len() != b.len() {
        return Err(ProofError::LengthMismatch);
    }
    let mut result: Vec<Scalar> = Vec::new();
    let mut i: usize = 0;
    while i < a.len()
        invariant
            i <= a.len(),
            a.len() == b.len(),
            result.len() == i,
            forall|j: int| 0 <= j < i ==> #[trigger] result[j]@ == reduce(a[j]@ * b[j]@),
        decreases a.len() - i,
    {
        result.push(a[i].mul(&b[i]));
        i += 1;
    }
    Ok(result)
}

/// The inner product of two vectors of the same length, which is 0 for empty
/// vectors; vectors of different lengths are refused.
pub fn inner_product(a: Vec<Scalar>, b: Vec<Scalar>) -> (r: Result<Scalar, ProofError>)
    ensures
        a.len() != b.len() <==> r == Err::<Scalar, ProofError>(ProofError::LengthMismatch),
        a.len() == b.len() <==> r.is_ok(),
        r matches Ok(s) ==> s@ == reduce(inner_sum(scalar_values(a@), scalar_values(b@))),
        r matches Ok(s) ==> (a.len() == 0 ==> s@ == 0),
{
    inner_product_of(&a, &b)
}

/// The inner product of two borrowed vectors: as [`inner_product`], for
/// callers that keep their vectors.
pub fn inner_product_of(a: &Vec<Scalar>, b: &Vec<Scalar>) -> (r: Result<Scalar, ProofError>)
    ensures
        a.len() != b.len() <==> r == Err::<Scalar, ProofError>(ProofError::LengthMismatch),
        a.len() == b.len() <==> r.is_ok(),
        r matches Ok(s) ==> s@ == reduce(inner_sum(scalar_values(a@), scalar_values(b@))),
        r matches Ok(s) ==> (a.len() == 0 ==> s@ == 0),
{
    if a.len() != b.len() {
        return Err(ProofError::LengthMismatch);
    }
    let ghost av = scalar_values(a@);
    let ghost bv = scalar_values(b@);
    let mut result = Scalar::zero();
    let mut i: usize = 0;
    proof {
        lemma_reduce_small(0);
    }
    while i < a.len()
        invariant
            i <= a.len(),
            a.len() == b.len(),
            av == scalar_values(a@),
            bv == scalar_values(b@),
            result@ == reduce(inner_sum(av.subrange(0, i as int), bv.subrange(0, i as int))),
        decreases a.len() - i,
    {
        let term = a[i].mul(&b[i]);
        let next = result.add(&term);
        proof {
            lemma_inner_sum_step(av, bv, i as int);
            lemma_reduce_add(
                inner_sum(av.subrange(0, i as int), bv.subrange(0, i as int)),
                a[i as int]@ * b[i as int]@,
            );
        }
        result = next;
        i += 1;
    }
    assert(av.subrange(0, a.len() as int) =~= av);
    assert(bv.subrange(0, a.len() as int) =~= bv);
    Ok(result)
}

} // verus!
