//! What an honest proof is known to satisfy.
//!
//! The scalars of a proof are related by identities of the scalar field,
//! which are proved here outright: `t` is the inner product of the two
//! vectors, and the scalars on either side of each equation of the verifier
//! agree. The equations themselves relate group elements; they are proved
//! for an honest proof from the laws of a module over the scalar field,
//! taken as a hypothesis about the group.

use vstd::prelude::*;
use vstd::arithmetic::mul::lemma_mul_is_commutative;
use crate::algebra::{
    bit, coefficient0, coefficient1, coefficient2, delta, left_entry, lemma_bit_is_binary, lemma_value_side, power,
    right_entry,
};
use crate::commitment::{bit_commitment, blinding_commitment};
use crate::generators::{generator_chain, lemma_generator_chain};
use crate::field::{
    all_scalars, inverse_of, is_scalar, le_value, lemma_group_order_large, lemma_reduce_add, lemma_reduce_mul,
    lemma_reduce_mul_left, lemma_reduce_range, lemma_reduce_small, lemma_reduce_sub, reduce,
};
use crate::group::{identity_encoding, is_point_encoding, pedersen, point_add, point_scale, scalar_values};
use crate::module_laws::{
    all_points, combination_from, lemma_combination_from_neutral, lemma_combination_is_encoding,
    lemma_combination_scales, lemma_combination_splits, lemma_combination_start_shifts, lemma_combinations_add,
    lemma_multiple_is_encoding, lemma_multiples_add, lemma_multiples_nest, lemma_neutral_element,
    lemma_pedersen_absorbs, lemma_pedersen_adds, lemma_pedersen_scales, lemma_sum_rearranges, lemma_unit_multiples,
    module_laws, scaled, summed,
};
use crate::polynomial::{lemma_evaluate_reduced, lemma_evaluation_is_inner_product};
use crate::protocol::{left_weights, right_weights, BlindingValues, RangeProof};
use crate::transcript::{challenge_x, challenge_y, challenge_z, polynomial_commitment_label, sha512_digest};

verus! {

/// A proof is determined by what it is built from: two proofs of the same
/// value over the same bit length and base points, for the same blinding
/// factor and from the same random scalars, agree in every field.
pub proof fn lemma_proof_is_determined(
    p: RangeProof,
    q: RangeProof,
    v: int,
    n: nat,
    g: Seq<u8>,
    h: Seq<u8>,
    gamma: int,
    w: BlindingValues,
)
    requires
        p.is_proof_of(v, n, g, h, gamma, w),
        q.is_proof_of(v, n, g, h, gamma, w),
    ensures
        p.a == q.a,
        p.s == q.s,
        p.t1 == q.t1,
        p.t2 == q.t2,
        p.tau_x == q.tau_x,
        p.mu == q.mu,
        p.t == q.t,
        p.l@ == q.l@,
        p.r@ == q.r@,
        p.encoding() == q.encoding(),
{
    p.a.lemma_encoding_determines(&q.a);
    p.s.lemma_encoding_determines(&q.s);
    p.t1.lemma_encoding_determines(&q.t1);
    p.t2.lemma_encoding_determines(&q.t2);
    p.tau_x.lemma_value_determines(&q.tau_x);
    p.mu.lemma_value_determines(&q.mu);
    p.t.lemma_value_determines(&q.t);
    assert forall|i: int| 0 <= i < n implies p.l[i] == q.l[i] by {
        p.l[i].lemma_value_determines(&q.l[i]);
    }
    assert forall|i: int| 0 <= i < n implies p.r[i] == q.r[i] by {
        p.r[i].lemma_value_determines(&q.r[i]);
    }
    assert(p.l@ =~= q.l@);
    assert(p.r@ =~= q.r@);
}

/// The vectors of an honest proof open `t`: `t` is the inner product of
/// `l` and `r`, for whatever value and random scalars the proof was built
/// from.
pub proof fn lemma_honest_inner_product(
    p: RangeProof,
    v: int,
    n: nat,
    g: Seq<u8>,
    h: Seq<u8>,
    gamma: int,
    w: BlindingValues,
)
    requires
        p.is_proof_of(v, n, g, h, gamma, w),
        w.s_l.len() == n,
        w.s_r.len() == n,
    ensures
        p.satisfies_inner_product(),
{
    let y = challenge_y(p.a@, p.s@);
    let z = challenge_z(p.a@, p.s@);
    let x = challenge_x(p.t1@, p.t2@);
    let l = scalar_values(p.l@);
    let r = scalar_values(p.r@);
    assert forall|i: int| 0 <= i < n implies l[i] == reduce(left_entry(v, z, w.s_l[i], i as nat, x)) by {
        assert(l[i] == p.l[i]@);
    }
    assert forall|i: int| 0 <= i < n implies r[i] == reduce(right_entry(v, y, z, w.s_r[i], i as nat, x)) by {
        assert(r[i] == p.r[i]@);
    }
    lemma_evaluation_is_inner_product(v, n, y, z, w.s_l, w.s_r, x, l, r);
    lemma_evaluate_reduced(
        coefficient0(v, n, y, z),
        coefficient1(v, n, y, z, w.s_l, w.s_r),
        coefficient2(n, y, w.s_l, w.s_r),
        x,
    );
}

/// The scalars of an honest proof balance the verification equation on
/// each base point: for a value that fits in `n` bits, `t` is
/// `delta + z²·v + x·t1 + x²·t2` and `tau_x` is
/// `z²·gamma + x·tau1 + x²·tau2`, each side computed in the scalar field
/// as the verifier computes it.
pub proof fn lemma_honest_scalars_balance(
    p: RangeProof,
    v: int,
    n: nat,
    g: Seq<u8>,
    h: Seq<u8>,
    gamma: int,
    w: BlindingValues,
)
    requires
        0 <= v < power(2, n),
        p.is_proof_of(v, n, g, h, gamma, w),
    ensures
        ({
            let y = challenge_y(p.a@, p.s@);
            let z = challenge_z(p.a@, p.s@);
            let x = challenge_x(p.t1@, p.t2@);
            let t1 = reduce(coefficient1(v, n, y, z, w.s_l, w.s_r));
            let t2 = reduce(coefficient2(n, y, w.s_l, w.s_r));
            &&& p.t@ == reduce(
                reduce(reduce(reduce(delta(n, y, z)) + reduce(reduce(z * z) * v)) + reduce(x * t1)) + reduce(
                    reduce(x * x) * t2,
                ),
            )
            &&& p.tau_x@ == reduce(
                reduce(reduce(reduce(z * z) * gamma) + reduce(x * w.tau1)) + reduce(reduce(x * x) * w.tau2),
            )
        }),
{
    let y = challenge_y(p.a@, p.s@);
    let z = challenge_z(p.a@, p.s@);
    let x = challenge_x(p.t1@, p.t2@);
    let c1 = coefficient1(v, n, y, z, w.s_l, w.s_r);
    let c2 = coefficient2(n, y, w.s_l, w.s_r);
    let d = delta(n, y, z);
    let zz = z * z;
    let xx = x * x;
    lemma_value_side(v, n, y, z, w.s_l, w.s_r, x);
    // the value base
    lemma_reduce_mul_left(zz, v);
    lemma_reduce_mul_left(x, c1);
    lemma_reduce_mul_left(xx, c2);
    lemma_reduce_mul_left(xx, reduce(c2));
    lemma_reduce_add(d, zz * v);
    lemma_reduce_add(d + zz * v, x * c1);
    lemma_reduce_add(d + zz * v + x * c1, xx * c2);
    // the blinding base
    lemma_reduce_mul_left(zz, gamma);
    lemma_reduce_mul_left(xx, w.tau2);
    lemma_reduce_add(zz * gamma, x * w.tau1);
    lemma_reduce_add(zz * gamma + x * w.tau1, xx * w.tau2);
    lemma_mul_is_commutative(x, w.tau1);
    lemma_mul_is_commutative(xx, w.tau2);
}

/// The aggregate equation holds of an honest proof, as far as the group
/// allows it to be proved here: if the group operations satisfy the laws of
/// a module over the scalar field, then the proof that an honest prover
/// builds for a value that fits in `n` bits satisfies the aggregate equation
/// for the commitment `V = v·H + gamma·G`.
pub proof fn lemma_honest_proof_satisfies_aggregate(
    p: RangeProof,
    v: int,
    n: nat,
    g: Seq<u8>,
    h: Seq<u8>,
    gamma: int,
    w: BlindingValues,
)
    requires
        module_laws(),
        is_point_encoding(g),
        is_point_encoding(h),
        0 <= v < power(2, n),
        v <= u64::MAX,
        is_scalar(gamma),
        is_scalar(w.tau1),
        is_scalar(w.tau2),
        p.is_proof_of(v, n, g, h, gamma, w),
    ensures
        p.satisfies_aggregate(pedersen(v, gamma, h, g), n, g, h),
{
    let y = challenge_y(p.a@, p.s@);
    let z = challenge_z(p.a@, p.s@);
    let x = challenge_x(p.t1@, p.t2@);
    let t1 = reduce(coefficient1(v, n, y, z, w.s_l, w.s_r));
    let t2 = reduce(coefficient2(n, y, w.s_l, w.s_r));
    let d = reduce(delta(n, y, z));
    let zz = reduce(z * z);
    let xx = reduce(x * x);
    let a1 = reduce(zz * v);
    let b1 = reduce(zz * gamma);
    let a2 = reduce(x * t1);
    let b2 = reduce(x * w.tau1);
    let a3 = reduce(xx * t2);
    let b3 = reduce(xx * w.tau2);
    lemma_group_order_large();
    lemma_reduce_range(le_value(sha512_digest(polynomial_commitment_label() + p.t1@ + p.t2@)) as int);
    assert(is_scalar(x));
    lemma_reduce_range(coefficient1(v, n, y, z, w.s_l, w.s_r));
    lemma_reduce_range(coefficient2(n, y, w.s_l, w.s_r));
    lemma_reduce_range(delta(n, y, z));
    lemma_reduce_range(z * z);
    lemma_reduce_range(x * x);
    lemma_reduce_range(zz * v);
    lemma_reduce_range(zz * gamma);
    lemma_reduce_range(x * t1);
    lemma_reduce_range(x * w.tau1);
    lemma_reduce_range(xx * t2);
    lemma_reduce_range(xx * w.tau2);
    lemma_reduce_range(d + a1);
    lemma_reduce_range(reduce(d + a1) + a2);
    lemma_reduce_range(b1 + b2);
    // each commitment, scaled by its challenge
    lemma_pedersen_scales(zz, v, gamma, h, g);
    lemma_pedersen_scales(x, t1, w.tau1, h, g);
    lemma_pedersen_scales(xx, t2, w.tau2, h, g);
    // the right-hand side, summed from the left
    lemma_pedersen_absorbs(d, a1, b1, h, g);
    lemma_pedersen_adds(reduce(d + a1), b1, a2, b2, h, g);
    lemma_pedersen_adds(reduce(reduce(d + a1) + a2), reduce(b1 + b2), a3, b3, h, g);
    lemma_honest_scalars_balance(p, v, n, g, h, gamma, w);
}

/// Powers of a scalar and of its inverse cancel: `k^i·y^i = 1` where
/// `k·y = 1`.
pub proof fn lemma_inverse_powers_cancel(y: int, k: int, i: nat)
    requires
        reduce(y * k) == 1,
    ensures
        reduce(power(k, i) * power(y, i)) == 1,
    decreases i,
{
    lemma_group_order_large();
    if i == 0 {
        lemma_reduce_small(1);
    } else {
        let j = (i - 1) as nat;
        lemma_inverse_powers_cancel(y, k, j);
        let a = power(k, j);
        let b = power(y, j);
        assert((a * k) * (b * y) == (a * b) * (y * k)) by (nonlinear_arith);
        lemma_reduce_mul(a * b, y * k);
        lemma_reduce_small(1);
    }
}

/// The scalars that the vectors of an honest proof put on the generators
/// are those that `A + x·S` carries: `aL[i] + sL[i]·x` on `Gvec[i]` and
/// `aR[i] + sR[i]·x` on `Hvec[i]`, where the challenge `y` has an inverse.
pub proof fn lemma_honest_weights(p: RangeProof, v: int, n: nat, g: Seq<u8>, h: Seq<u8>, gamma: int, w: BlindingValues)
    requires
        p.is_proof_of(v, n, g, h, gamma, w),
        reduce(challenge_y(p.a@, p.s@) * inverse_of(challenge_y(p.a@, p.s@))) == 1,
    ensures
        forall|i: int|
            0 <= i < n ==> #[trigger] left_weights(scalar_values(p.l@), challenge_z(p.a@, p.s@))[i] == reduce(
                bit(v, i as nat) + w.s_l[i] * challenge_x(p.t1@, p.t2@),
            ),
        forall|i: int|
            0 <= i < n ==> #[trigger] right_weights(
                scalar_values(p.r@),
                inverse_of(challenge_y(p.a@, p.s@)),
                challenge_z(p.a@, p.s@),
            )[i] == reduce(bit(v, i as nat) - 1 + w.s_r[i] * challenge_x(p.t1@, p.t2@)),
{
    let y = challenge_y(p.a@, p.s@);
    let z = challenge_z(p.a@, p.s@);
    let x = challenge_x(p.t1@, p.t2@);
    let k = inverse_of(y);
    let l = scalar_values(p.l@);
    let r = scalar_values(p.r@);
    assert forall|i: int| 0 <= i < n implies #[trigger] left_weights(l, z)[i] == reduce(
        bit(v, i as nat) + w.s_l[i] * x,
    ) by {
        let e = left_entry(v, z, w.s_l[i], i as nat, x);
        assert(l[i] == p.l[i]@);
        lemma_reduce_range(z);
        lemma_reduce_add(e, z);
        lemma_reduce_add(reduce(e), z);
        lemma_reduce_range(e);
    }
    assert forall|i: int| 0 <= i < n implies #[trigger] right_weights(r, k, z)[i] == reduce(
        bit(v, i as nat) - 1 + w.s_r[i] * x,
    ) by {
        let m = i as nat;
        let c = bit(v, m) - 1 + z + w.s_r[i] * x;
        let shift = z * z * power(2, m);
        let pk = power(k, m);
        let py = power(y, m);
        assert(r[i] == p.r[i]@);
        assert(r[i] == reduce(py * c + shift));
        // r[i] − z²·2^i = y^i·c
        lemma_reduce_sub(py * c + shift, shift);
        lemma_reduce_sub(r[i], shift);
        lemma_reduce_range(py * c + shift);
        assert(reduce(r[i] - shift) == reduce(py * c));
        // k^i·(y^i·c) = c
        lemma_reduce_mul_left(pk, r[i] - shift);
        lemma_reduce_mul_left(pk, py * c);
        assert(pk * (py * c) == (pk * py) * c) by (nonlinear_arith);
        lemma_reduce_mul_left(pk * py, c);
        lemma_inverse_powers_cancel(y, k, m);
        assert(reduce(pk * (r[i] - shift)) == reduce(c)) by {
            assert(1 * c == c);
        }
        // c − z = aR[i] + sR[i]·x
        lemma_reduce_sub(pk * (r[i] - shift), z);
        lemma_reduce_sub(c, z);
    }
}

/// The bits of `v` as scalars on the generators `Gvec`: entry `i` is
/// `aL[i]`.
pub open spec fn left_bits(v: int, n: nat) -> Seq<int> {
    Seq::new(n, |i: int| bit(v, i as nat))
}

/// The bits of `v`, less one, as scalars on the generators `Hvec`: entry
/// `i` is `aR[i] = aL[i] − 1`.
pub open spec fn right_bits(v: int, n: nat) -> Seq<int> {
    Seq::new(n, |i: int| reduce(bit(v, i as nat) - 1))
}

/// Under the module laws, the commitment to the bits of `v` is the
/// combination `alpha·G + Σ aL[i]·Gvec[i] + Σ aR[i]·Hvec[i]`.
pub proof fn lemma_bit_commitment_is_combination(
    v: int,
    n: nat,
    alpha: int,
    base: Seq<u8>,
    g_vec: Seq<Seq<u8>>,
    h_vec: Seq<Seq<u8>>,
)
    requires
        module_laws(),
        0 <= v,
        is_scalar(alpha),
        is_point_encoding(base),
        g_vec.len() >= n,
        h_vec.len() >= n,
        all_points(g_vec),
        all_points(h_vec),
    ensures
        bit_commitment(v, n, alpha, base, g_vec, h_vec) == combination_from(
            combination_from(point_scale(alpha, base), left_bits(v, n), g_vec.take(n as int)),
            right_bits(v, n),
            h_vec.take(n as int),
        ),
    decreases n,
{
    lemma_group_order_large();
    let start = point_scale(alpha, base);
    lemma_multiple_is_encoding(alpha, base);
    if n > 0 {
        let m = (n - 1) as nat;
        let b = bit(v, m);
        lemma_bit_commitment_is_combination(v, m, alpha, base, g_vec, h_vec);
        lemma_bit_is_binary(v, m);
        lemma_reduce_range(b - 1);
        let gm = g_vec.take(m as int);
        let hm = h_vec.take(m as int);
        let lm = left_bits(v, m);
        let rm = right_bits(v, m);
        assert(g_vec.take(n as int).drop_last() =~= gm);
        assert(h_vec.take(n as int).drop_last() =~= hm);
        assert(left_bits(v, n).drop_last() =~= lm);
        assert(right_bits(v, n).drop_last() =~= rm);
        assert(all_scalars(lm)) by {
            assert forall|i: int| 0 <= i < lm.len() implies is_scalar(#[trigger] lm[i]) by {
                lemma_bit_is_binary(v, i as nat);
            }
        }
        assert(all_scalars(rm)) by {
            assert forall|i: int| 0 <= i < rm.len() implies is_scalar(#[trigger] rm[i]) by {
                lemma_reduce_range(bit(v, i as nat) - 1);
            }
        }
        assert(all_points(gm) && all_points(hm)) by {
            assert forall|i: int| 0 <= i < gm.len() implies is_point_encoding(#[trigger] gm[i]) by {
                assert(gm[i] == g_vec[i]);
            }
            assert forall|i: int| 0 <= i < hm.len() implies is_point_encoding(#[trigger] hm[i]) by {
                assert(hm[i] == h_vec[i]);
            }
        }
        let on_g = point_scale(b, g_vec[m as int]);
        let on_h = point_scale(reduce(b - 1), h_vec[m as int]);
        let inner = combination_from(start, lm, gm);
        let before = combination_from(inner, rm, hm);
        lemma_multiple_is_encoding(b, g_vec[m as int]);
        lemma_multiple_is_encoding(reduce(b - 1), h_vec[m as int]);
        lemma_combination_is_encoding(start, lm, gm);
        lemma_combination_is_encoding(inner, rm, hm);
        // the inner combination grows by the term on Gvec, which moves to the end of the outer one
        assert(combination_from(start, left_bits(v, n), g_vec.take(n as int)) == point_add(inner, on_g));
        lemma_combination_start_shifts(inner, on_g, rm, hm);
        lemma_sum_rearranges(before, on_g, on_h);
        // the two terms together are the one that the bit selects
        lemma_unit_multiples(g_vec[m as int]);
        lemma_unit_multiples(h_vec[m as int]);
        if b == 1 {
            lemma_reduce_small(0);
            lemma_neutral_element(g_vec[m as int]);
        } else {
            lemma_neutral_element(on_h);
        }
    } else {
        assert(g_vec.take(0) =~= Seq::<Seq<u8>>::empty());
        assert(h_vec.take(0) =~= Seq::<Seq<u8>>::empty());
    }
}

/// Under the module laws, the combination of `[base, g_vec…, h_vec…]` with
/// `[c, cs…, ds…]` is `c·base + Σ cs[i]·g_vec[i] + Σ ds[i]·h_vec[i]`, summed
/// in that order.
pub proof fn lemma_blinding_commitment_is_combination(
    c: int,
    cs: Seq<int>,
    ds: Seq<int>,
    base: Seq<u8>,
    g_vec: Seq<Seq<u8>>,
    h_vec: Seq<Seq<u8>>,
)
    requires
        module_laws(),
        is_scalar(c),
        is_point_encoding(base),
        cs.len() == g_vec.len(),
        ds.len() == h_vec.len(),
    ensures
        blinding_commitment(c, cs, ds, base, g_vec, h_vec) == combination_from(
            combination_from(point_scale(c, base), cs, g_vec),
            ds,
            h_vec,
        ),
{
    let scalars = seq![c] + cs + ds;
    let points = seq![base] + g_vec + h_vec;
    lemma_combination_from_neutral(scalars, points);
    lemma_combination_splits(identity_encoding(), seq![c] + cs, seq![base] + g_vec, ds, h_vec);
    lemma_combination_splits(identity_encoding(), seq![c], seq![base], cs, g_vec);
    let one_scalar = seq![c];
    let one_point = seq![base];
    assert(one_scalar.len() == 1 && one_point.len() == 1);
    assert(one_scalar.last() == c && one_point.last() == base);
    assert(one_scalar.drop_last().len() == 0);
    assert(combination_from(identity_encoding(), one_scalar.drop_last(), one_point.drop_last()) == identity_encoding());
    assert(combination_from(identity_encoding(), one_scalar, one_point) == point_add(
        identity_encoding(),
        point_scale(c, base),
    ));
    lemma_multiple_is_encoding(c, base);
    lemma_neutral_element(point_scale(c, base));
}

/// The opening equation holds of an honest proof, as far as the group
/// allows it to be proved here: if the group operations satisfy the laws of
/// a module over the scalar field, the generators are canonical encodings
/// and the challenge `y` has an inverse, then `mu` and the vectors of the
/// proof that an honest prover builds open `A + x·S`.
pub proof fn lemma_honest_proof_satisfies_opening(
    p: RangeProof,
    v: int,
    n: nat,
    g: Seq<u8>,
    h: Seq<u8>,
    gamma: int,
    w: BlindingValues,
)
    requires
        module_laws(),
        is_point_encoding(g),
        is_point_encoding(h),
        all_points(generator_chain(h, n)),
        all_points(generator_chain(g, n)),
        0 <= v,
        is_scalar(w.alpha),
        is_scalar(w.rho),
        all_scalars(w.s_l),
        all_scalars(w.s_r),
        w.s_l.len() == n,
        w.s_r.len() == n,
        reduce(challenge_y(p.a@, p.s@) * inverse_of(challenge_y(p.a@, p.s@))) == 1,
        p.is_proof_of(v, n, g, h, gamma, w),
    ensures
        p.satisfies_opening(n, g, h),
{
    let y = challenge_y(p.a@, p.s@);
    let z = challenge_z(p.a@, p.s@);
    let x = challenge_x(p.t1@, p.t2@);
    let g_vec = generator_chain(h, n);
    let h_vec = generator_chain(g, n);
    let on_g = left_weights(scalar_values(p.l@), z);
    let on_h = right_weights(scalar_values(p.r@), inverse_of(y), z);
    lemma_group_order_large();
    lemma_generator_chain(h, n);
    lemma_generator_chain(g, n);
    lemma_reduce_range(le_value(sha512_digest(polynomial_commitment_label() + p.t1@ + p.t2@)) as int);
    assert(is_scalar(x));
    assert(g_vec.take(n as int) =~= g_vec);
    assert(h_vec.take(n as int) =~= h_vec);
    let bl = left_bits(v, n);
    let br = right_bits(v, n);
    assert(all_scalars(bl)) by {
        assert forall|i: int| 0 <= i < bl.len() implies is_scalar(#[trigger] bl[i]) by {
            lemma_bit_is_binary(v, i as nat);
        }
    }
    assert(all_scalars(br)) by {
        assert forall|i: int| 0 <= i < br.len() implies is_scalar(#[trigger] br[i]) by {
            lemma_reduce_range(bit(v, i as nat) - 1);
        }
    }
    let xl = scaled(x, w.s_l);
    let xr = scaled(x, w.s_r);
    assert(all_scalars(xl)) by {
        assert forall|i: int| 0 <= i < xl.len() implies is_scalar(#[trigger] xl[i]) by {
            lemma_reduce_range(x * w.s_l[i]);
        }
    }
    assert(all_scalars(xr)) by {
        assert forall|i: int| 0 <= i < xr.len() implies is_scalar(#[trigger] xr[i]) by {
            lemma_reduce_range(x * w.s_r[i]);
        }
    }
    // A and S as combinations
    let a0 = point_scale(w.alpha, g);
    let s0 = point_scale(w.rho, g);
    lemma_multiple_is_encoding(w.alpha, g);
    lemma_multiple_is_encoding(w.rho, g);
    lemma_bit_commitment_is_combination(v, n, w.alpha, g, g_vec, h_vec);
    lemma_blinding_commitment_is_combination(w.rho, w.s_l, w.s_r, g, g_vec, h_vec);
    let a_inner = combination_from(a0, bl, g_vec);
    let s_inner = combination_from(s0, w.s_l, g_vec);
    lemma_combination_is_encoding(a0, bl, g_vec);
    lemma_combination_is_encoding(s0, w.s_l, g_vec);
    // x·S
    lemma_combination_scales(x, s_inner, w.s_r, h_vec);
    lemma_combination_scales(x, s0, w.s_l, g_vec);
    lemma_multiples_nest(x, w.rho, g);
    lemma_reduce_range(x * w.rho);
    let xs0 = point_scale(reduce(x * w.rho), g);
    lemma_multiple_is_encoding(reduce(x * w.rho), g);
    let xs_inner = combination_from(xs0, xl, g_vec);
    lemma_combination_is_encoding(xs0, xl, g_vec);
    // A + x·S
    lemma_combinations_add(a_inner, br, xs_inner, xr, h_vec);
    lemma_combinations_add(a0, bl, xs0, xl, g_vec);
    lemma_multiples_add(w.alpha, reduce(x * w.rho), g);
    // the scalars are those of the opening
    lemma_honest_weights(p, v, n, g, h, gamma, w);
    assert(reduce(w.alpha + reduce(x * w.rho)) == p.mu@) by {
        lemma_reduce_add(w.alpha, x * w.rho);
        lemma_reduce_small(w.alpha);
        lemma_mul_is_commutative(x, w.rho);
    }
    assert(summed(bl, xl) =~= on_g) by {
        assert forall|i: int| 0 <= i < n implies summed(bl, xl)[i] == on_g[i] by {
            lemma_reduce_add(bit(v, i as nat), x * w.s_l[i]);
            lemma_bit_is_binary(v, i as nat);
            lemma_reduce_small(bit(v, i as nat));
            lemma_mul_is_commutative(x, w.s_l[i]);
        }
    }
    assert(summed(br, xr) =~= on_h) by {
        assert forall|i: int| 0 <= i < n implies summed(br, xr)[i] == on_h[i] by {
            lemma_reduce_add(bit(v, i as nat) - 1, x * w.s_r[i]);
            lemma_mul_is_commutative(x, w.s_r[i]);
        }
    }
    lemma_reduce_range(w.alpha + w.rho * x);
    lemma_blinding_commitment_is_combination(p.mu@, on_g, on_h, g, g_vec, h_vec);
}

/// Completeness, as far as the group allows it to be proved here: if the
/// group operations satisfy the laws of a module over the scalar field, the
/// generators are canonical encodings and the challenge `y` has an inverse,
/// then the proof that an honest prover builds for a value that fits in `n`
/// bits is valid for the commitment `V = v·H + gamma·G`.
pub proof fn lemma_honest_proof_is_valid(
    p: RangeProof,
    v: int,
    n: nat,
    g: Seq<u8>,
    h: Seq<u8>,
    gamma: int,
    w: BlindingValues,
)
    requires
        module_laws(),
        is_point_encoding(g),
        is_point_encoding(h),
        all_points(generator_chain(h, n)),
        all_points(generator_chain(g, n)),
        0 <= v < power(2, n),
        v <= u64::MAX,
        is_scalar(gamma),
        w.in_range(),
        w.s_l.len() == n,
        w.s_r.len() == n,
        reduce(challenge_y(p.a@, p.s@) * inverse_of(challenge_y(p.a@, p.s@))) == 1,
        p.is_proof_of(v, n, g, h, gamma, w),
    ensures
        p.satisfies(pedersen(v, gamma, h, g), n, g, h),
{
    lemma_group_order_large();
    lemma_reduce_small(0);
    assert(challenge_y(p.a@, p.s@) != 0) by {
        assert(0 * inverse_of(0) == 0);
    }
    lemma_honest_inner_product(p, v, n, g, h, gamma, w);
    lemma_honest_proof_satisfies_aggregate(p, v, n, g, h, gamma, w);
    lemma_honest_proof_satisfies_opening(p, v, n, g, h, gamma, w);
}

} // verus!
