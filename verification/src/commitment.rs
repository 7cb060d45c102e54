//! The two vector commitments of the first round.
//!
//! `A` commits to the bits of the value, `S` to the blinding vectors. Both
//! are hidden by a random multiple of a base point.

use vstd::prelude::*;
use vstd::arithmetic::div_mod::lemma_div_denominator;
use vstd::arithmetic::mul::lemma_mul_is_commutative;
use crate::algebra::{bit, lemma_power_of_two, power};
use crate::error::ProofError;
use crate::field::Scalar;
use crate::group::{
    encodings, linear_combination, multiscalar_mul, point_add, point_neg, point_scale, scalar_values, GroupElement,
};

verus! {

/// The commitment to the low `n` bits of `v`:
/// `alpha·base + Σ (bit i of v is set ? g_vec[i] : −h_vec[i])`, summed
/// from bit 0 upwards.
pub open spec fn bit_commitment(
    v: int,
    n: nat,
    alpha: int,
    base: Seq<u8>,
    g_vec: Seq<Seq<u8>>,
    h_vec: Seq<Seq<u8>>,
) -> Seq<u8>
    decreases n,
{
    if n == 0 {
        point_scale(alpha, base)
    } else {
        let i = (n - 1) as nat;
        point_add(
            bit_commitment(v, i, alpha, base, g_vec, h_vec),
            if bit(v, i) == 1 {
                g_vec[i as int]
            } else {
                point_neg(h_vec[i as int])
            },
        )
    }
}

/// The commitment to the blinding vectors: the combination of
/// `[base, g_vec…, h_vec…]` with the scalars `[rho, s_l…, s_r…]`.
pub open spec fn blinding_commitment(
    rho: int,
    s_l: Seq<int>,
    s_r: Seq<int>,
    base: Seq<u8>,
    g_vec: Seq<Seq<u8>>,
    h_vec: Seq<Seq<u8>>,
) -> Seq<u8> {
    linear_combination(seq![rho] + s_l + s_r, seq![base] + g_vec + h_vec)
}

/// Commits to the low `n` bits of `v` under the blinding scalar `alpha`.
/// Each generator vector must hold `n` elements. Whichever way a bit
/// falls, the same group operations are carried out.
pub fn commit_bits(
    v: u64,
    n: usize,
    alpha: &Scalar,
    base: &GroupElement,
    g_vec: &Vec<GroupElement>,
    h_vec: &Vec<GroupElement>,
) -> (r: Result<GroupElement, ProofError>)
    ensures
        (g_vec.len() != n || h_vec.len() != n) <==> r == Err::<GroupElement, ProofError>(ProofError::LengthMismatch),
        (g_vec.len() == n && h_vec.len() == n) <==> r.is_ok(),
        r matches Ok(a) ==> a@ == bit_commitment(
            v as int,
            n as nat,
            alpha@,
            base@,
            encodings(g_vec@),
            encodings(h_vec@),
        ),
{
    if g_vec.len() != n || h_vec.len() != n {
        return Err(ProofError::LengthMismatch);
    }
    let ghost vi = v as int;
    let mut total = base.scale(alpha);
    let mut rest: u64 = v;
    let mut i: usize = 0;
    while i < n
        invariant
            i <= n,
            g_vec.len() == n,
            h_vec.len() == n,
            vi == v,
            rest == vi / power(2, i as nat),
            total@ == bit_commitment(vi, i as nat, alpha@, base@, encodings(g_vec@), encodings(h_vec@)),
        decreases n - i,
    {
        proof {
            lemma_power_of_two(i as nat);
            lemma_div_denominator(vi, power(2, i as nat), 2);
            lemma_mul_is_commutative(2, power(2, i as nat));
        }
        let set = rest % 2 == 1;
        let negated = h_vec[i].neg();
        let term = GroupElement::select(set, &g_vec[i], &negated);
        total = total.add(&term);
        rest = rest / 2;
        i += 1;
    }
    Ok(total)
}

/// Commits to the blinding vectors `s_l` and `s_r` under the blinding
/// scalar `rho`, in one multiscalar multiplication. `s_l` must be as long
/// as `g_vec`, and `s_r` as long as `h_vec`.
pub fn commit_blinding(
    rho: &Scalar,
    s_l: &Vec<Scalar>,
    s_r: &Vec<Scalar>,
    base: &GroupElement,
    g_vec: &Vec<GroupElement>,
    h_vec: &Vec<GroupElement>,
) -> (r: Result<GroupElement, ProofError>)
    ensures
        (s_l.len() != g_vec.len() || s_r.len() != h_vec.len()) <==> r == Err::<GroupElement, ProofError>(
            ProofError::LengthMismatch,
        ),
        (s_l.len() == g_vec.len() && s_r.len() == h_vec.len()) <==> r.is_ok(),
        r matches Ok(s) ==> s@ == blinding_commitment(
            rho@,
            scalar_values(s_l@),
            scalar_values(s_r@),
            base@,
            encodings(g_vec@),
            encodings(h_vec@),
        ),
{
    if s_l.len() != g_vec.len() || s_r.len() != h_vec.len() {
        return Err(ProofError::LengthMismatch);
    }
    let mut scalars: Vec<Scalar> = Vec::new();
    let mut points: Vec<GroupElement> = Vec::new();
    scalars.push(*rho);
    points.push(*base);
    let mut i: usize = 0;
    while i < s_l.len()
        invariant
            i <= s_l.len(),
            s_l.len() == g_vec.len(),
            scalars@ == seq![*rho] + s_l@.subrange(0, i as int),
            points@ == seq![*base] + g_vec@.subrange(0, i as int),
        decreases s_l.len() - i,
    {
        scalars.push(s_l[i]);
        points.push(g_vec[i]);
        i += 1;
        assert(s_l@.subrange(0, i as int) =~= s_l@.subrange(0, i - 1).push(s_l@[i - 1]));
        assert(g_vec@.subrange(0, i as int) =~= g_vec@.subrange(0, i - 1).push(g_vec@[i - 1]));
        assert(scalars@ =~= seq![*rho] + s_l@.subrange(0, i as int));
        assert(points@ =~= seq![*base] + g_vec@.subrange(0, i as int));
    }
    assert(s_l@.subrange(0, s_l@.len() as int) =~= s_l@);
    assert(g_vec@.subrange(0, g_vec@.len() as int) =~= g_vec@);
    let mut j: usize = 0;
    while j < s_r.len()
        invariant
            j <= s_r.len(),
            s_r.len() == h_vec.len(),
            scalars@ == seq![*rho] + s_l@ + s_r@.subrange(0, j as int),
            points@ == seq![*base] + g_vec@ + h_vec@.subrange(0, j as int),
        decreases s_r.len() - j,
    {
        scalars.push(s_r[j]);
        points.push(h_vec[j]);
        j += 1;
        assert(s_r@.subrange(0, j as int) =~= s_r@.subrange(0, j - 1).push(s_r@[j - 1]));
        assert(h_vec@.subrange(0, j as int) =~= h_vec@.subrange(0, j - 1).push(h_vec@[j - 1]));
        assert(scalars@ =~= seq![*rho] + s_l@ + s_r@.subrange(0, j as int));
        assert(points@ =~= seq![*base] + g_vec@ + h_vec@.subrange(0, j as int));
    }
    assert(s_r@.subrange(0, s_r@.len() as int) =~= s_r@);
    assert(h_vec@.subrange(0, h_vec@.len() as int) =~= h_vec@);
    assert(scalar_values(scalars@) =~= seq![rho@] + scalar_values(s_l@) + scalar_values(s_r@));
    assert(encodings(points@) =~= seq![base@] + encodings(g_vec@) + encodings(h_vec@));
    match multiscalar_mul(&scalars, &points) {
        Some(s) => Ok(s),
        None => Err(ProofError::LengthMismatch),
    }
}

} // verus!
