//! What the verification equation needs of the group.
//!
//! The group operations are computed outside this library, and nothing is
//! proved of them here. What can be proved is what follows once they behave
//! as the operations of a module over the scalar field: this module states
//! those laws as a hypothesis, for canonical encodings and for scalars below
//! the group order, and derives from it how two-base combinations
//! `a·H + b·G` and combinations over generator vectors add up and scale.

use vstd::prelude::*;
use crate::field::{all_scalars, is_scalar, reduce};
use crate::group::{
    identity_encoding, is_point_encoding, linear_combination, pedersen, point_add, point_neg, point_scale,
};

verus! {

/// The hypothesis that addition and scalar multiplication of group
/// elements, as functions on canonical encodings, satisfy the laws of a
/// module over the scalar field: sums and multiples are again canonical
/// encodings, addition is commutative and associative, multiples by two
/// scalars of one element add up to the multiple by the sum, a multiple of
/// a multiple is the multiple by the product, a multiple of a sum is the
/// sum of the multiples, the neutral element added changes nothing, the
/// multiples by 0 and by 1 are the neutral element and the element itself,
/// and the inverse is the multiple by −1.
#[verifier::opaque]
pub open spec fn module_laws() -> bool {
    &&& forall|a: Seq<u8>, b: Seq<u8>|
        is_point_encoding(a) && is_point_encoding(b) ==> is_point_encoding(#[trigger] point_add(a, b))
    &&& forall|k: int, p: Seq<u8>|
        is_scalar(k) && is_point_encoding(p) ==> is_point_encoding(#[trigger] point_scale(k, p))
    &&& forall|a: Seq<u8>, b: Seq<u8>|
        is_point_encoding(a) && is_point_encoding(b) ==> #[trigger] point_add(a, b) == point_add(b, a)
    &&& forall|a: Seq<u8>, b: Seq<u8>, c: Seq<u8>|
        is_point_encoding(a) && is_point_encoding(b) && is_point_encoding(c) ==> #[trigger] point_add(
            point_add(a, b),
            c,
        ) == point_add(a, point_add(b, c))
    &&& forall|j: int, k: int, p: Seq<u8>|
        is_scalar(j) && is_scalar(k) && is_point_encoding(p) ==> #[trigger] point_add(
            point_scale(j, p),
            point_scale(k, p),
        ) == point_scale(reduce(j + k), p)
    &&& forall|j: int, k: int, p: Seq<u8>|
        is_scalar(j) && is_scalar(k) && is_point_encoding(p) ==> #[trigger] point_scale(j, point_scale(k, p))
            == point_scale(reduce(j * k), p)
    &&& forall|k: int, p: Seq<u8>, q: Seq<u8>|
        is_scalar(k) && is_point_encoding(p) && is_point_encoding(q) ==> #[trigger] point_scale(k, point_add(p, q))
            == point_add(point_scale(k, p), point_scale(k, q))
    &&& is_point_encoding(identity_encoding())
    &&& forall|p: Seq<u8>| is_point_encoding(p) ==> #[trigger] point_add(identity_encoding(), p) == p
    &&& forall|p: Seq<u8>| is_point_encoding(p) ==> #[trigger] point_scale(0, p) == identity_encoding()
    &&& forall|p: Seq<u8>| is_point_encoding(p) ==> #[trigger] point_scale(1, p) == p
    &&& forall|p: Seq<u8>| is_point_encoding(p) ==> #[trigger] point_neg(p) == point_scale(reduce(-1), p)
}

/// Under the module laws, a sum of canonical encodings is one.
pub proof fn lemma_sum_is_encoding(a: Seq<u8>, b: Seq<u8>)
    requires
        module_laws(),
        is_point_encoding(a),
        is_point_encoding(b),
    ensures
        is_point_encoding(point_add(a, b)),
{
    reveal(module_laws);
}

/// Under the module laws, a multiple of a canonical encoding is one.
pub proof fn lemma_multiple_is_encoding(k: int, p: Seq<u8>)
    requires
        module_laws(),
        is_scalar(k),
        is_point_encoding(p),
    ensures
        is_point_encoding(point_scale(k, p)),
{
    reveal(module_laws);
}

/// Under the module laws, `(a + b) + c = a + (b + c)` and `a + b = b + a`.
pub proof fn lemma_sum_rearranges(a: Seq<u8>, b: Seq<u8>, c: Seq<u8>)
    requires
        module_laws(),
        is_point_encoding(a),
        is_point_encoding(b),
        is_point_encoding(c),
    ensures
        point_add(point_add(a, b), c) == point_add(a, point_add(b, c)),
        point_add(a, b) == point_add(b, a),
{
    reveal(module_laws);
}

/// Under the module laws, `j·p + k·p = (j + k)·p`.
pub proof fn lemma_multiples_add(j: int, k: int, p: Seq<u8>)
    requires
        module_laws(),
        is_scalar(j),
        is_scalar(k),
        is_point_encoding(p),
    ensures
        point_add(point_scale(j, p), point_scale(k, p)) == point_scale(reduce(j + k), p),
{
    reveal(module_laws);
}

/// Under the module laws, `j·(k·p) = (j·k)·p`.
pub proof fn lemma_multiples_nest(j: int, k: int, p: Seq<u8>)
    requires
        module_laws(),
        is_scalar(j),
        is_scalar(k),
        is_point_encoding(p),
    ensures
        point_scale(j, point_scale(k, p)) == point_scale(reduce(j * k), p),
{
    reveal(module_laws);
}

/// Under the module laws, `k·(p + q) = k·p + k·q`.
pub proof fn lemma_multiple_distributes(k: int, p: Seq<u8>, q: Seq<u8>)
    requires
        module_laws(),
        is_scalar(k),
        is_point_encoding(p),
        is_point_encoding(q),
    ensures
        point_scale(k, point_add(p, q)) == point_add(point_scale(k, p), point_scale(k, q)),
{
    reveal(module_laws);
}

/// Under the module laws, two-base combinations add base by base:
/// `(a·H + b·G) + (c·H + d·G) = (a + c)·H + (b + d)·G`.
pub proof fn lemma_pedersen_adds(a: int, b: int, c: int, d: int, h: Seq<u8>, g: Seq<u8>)
    requires
        module_laws(),
        is_scalar(a),
        is_scalar(b),
        is_scalar(c),
        is_scalar(d),
        is_point_encoding(h),
        is_point_encoding(g),
    ensures
        point_add(pedersen(a, b, h, g), pedersen(c, d, h, g)) == pedersen(reduce(a + c), reduce(b + d), h, g),
{
    let ha = point_scale(a, h);
    let gb = point_scale(b, g);
    let hc = point_scale(c, h);
    let gd = point_scale(d, g);
    lemma_multiple_is_encoding(a, h);
    lemma_multiple_is_encoding(b, g);
    lemma_multiple_is_encoding(c, h);
    lemma_multiple_is_encoding(d, g);
    lemma_sum_is_encoding(hc, gd);
    lemma_sum_is_encoding(gb, hc);
    lemma_sum_is_encoding(gb, gd);
    // (ha + gb) + (hc + gd) = ha + (gb + (hc + gd))
    lemma_sum_rearranges(ha, gb, point_add(hc, gd));
    // gb + (hc + gd) = (gb + hc) + gd = (hc + gb) + gd = hc + (gb + gd)
    lemma_sum_rearranges(gb, hc, gd);
    lemma_sum_rearranges(hc, gb, gd);
    // ha + (hc + (gb + gd)) = (ha + hc) + (gb + gd)
    lemma_sum_rearranges(ha, hc, point_add(gb, gd));
    lemma_multiples_add(a, c, h);
    lemma_multiples_add(b, d, g);
}

/// Under the module laws, a two-base combination scales base by base:
/// `k·(a·H + b·G) = (k·a)·H + (k·b)·G`.
pub proof fn lemma_pedersen_scales(k: int, a: int, b: int, h: Seq<u8>, g: Seq<u8>)
    requires
        module_laws(),
        is_scalar(k),
        is_scalar(a),
        is_scalar(b),
        is_point_encoding(h),
        is_point_encoding(g),
    ensures
        point_scale(k, pedersen(a, b, h, g)) == pedersen(reduce(k * a), reduce(k * b), h, g),
{
    lemma_multiple_is_encoding(a, h);
    lemma_multiple_is_encoding(b, g);
    lemma_multiple_distributes(k, point_scale(a, h), point_scale(b, g));
    lemma_multiples_nest(k, a, h);
    lemma_multiples_nest(k, b, g);
}

/// Under the module laws, a multiple of the first base adds into a
/// two-base combination: `d·H + (a·H + b·G) = (d + a)·H + b·G`.
pub proof fn lemma_pedersen_absorbs(d: int, a: int, b: int, h: Seq<u8>, g: Seq<u8>)
    requires
        module_laws(),
        is_scalar(d),
        is_scalar(a),
        is_scalar(b),
        is_point_encoding(h),
        is_point_encoding(g),
    ensures
        point_add(point_scale(d, h), pedersen(a, b, h, g)) == pedersen(reduce(d + a), b, h, g),
{
    lemma_multiple_is_encoding(d, h);
    lemma_multiple_is_encoding(a, h);
    lemma_multiple_is_encoding(b, g);
    lemma_sum_rearranges(point_scale(d, h), point_scale(a, h), point_scale(b, g));
    lemma_multiples_add(d, a, h);
}

/// Under the module laws, the neutral element is a canonical encoding and
/// changes nothing when added, on either side.
pub proof fn lemma_neutral_element(p: Seq<u8>)
    requires
        module_laws(),
        is_point_encoding(p),
    ensures
        is_point_encoding(identity_encoding()),
        point_add(identity_encoding(), p) == p,
        point_add(p, identity_encoding()) == p,
{
    reveal(module_laws);
}

/// Under the module laws, `0·p` is the neutral element, `1·p` is `p`, and
/// `−p` is `(−1)·p`.
pub proof fn lemma_unit_multiples(p: Seq<u8>)
    requires
        module_laws(),
        is_point_encoding(p),
    ensures
        point_scale(0, p) == identity_encoding(),
        point_scale(1, p) == p,
        point_neg(p) == point_scale(reduce(-1), p),
{
    reveal(module_laws);
}

/// Under the module laws, `(a + b) + (c + d) = (a + c) + (b + d)`.
pub proof fn lemma_sum_of_sums(a: Seq<u8>, b: Seq<u8>, c: Seq<u8>, d: Seq<u8>)
    requires
        module_laws(),
        is_point_encoding(a),
        is_point_encoding(b),
        is_point_encoding(c),
        is_point_encoding(d),
    ensures
        point_add(point_add(a, b), point_add(c, d)) == point_add(point_add(a, c), point_add(b, d)),
{
    lemma_sum_is_encoding(c, d);
    lemma_sum_is_encoding(b, c);
    lemma_sum_is_encoding(b, d);
    lemma_sum_rearranges(a, b, point_add(c, d));
    lemma_sum_rearranges(b, c, d);
    lemma_sum_rearranges(c, b, d);
    lemma_sum_rearranges(a, c, point_add(b, d));
}

/// Whether every entry of a sequence is a canonical encoding.
pub open spec fn all_points(ps: Seq<Seq<u8>>) -> bool {
    forall|i: int| 0 <= i < ps.len() ==> is_point_encoding(#[trigger] ps[i])
}

/// The combination `start + cs[0]·ps[0] + … + cs[k-1]·ps[k-1]`, summed from
/// the left.
pub open spec fn combination_from(start: Seq<u8>, cs: Seq<int>, ps: Seq<Seq<u8>>) -> Seq<u8>
    decreases cs.len(),
{
    if cs.len() == 0 || ps.len() != cs.len() {
        start
    } else {
        point_add(combination_from(start, cs.drop_last(), ps.drop_last()), point_scale(cs.last(), ps.last()))
    }
}

/// Each scalar of a sequence multiplied by `x`.
pub open spec fn scaled(x: int, cs: Seq<int>) -> Seq<int> {
    Seq::new(cs.len(), |i: int| reduce(x * cs[i]))
}

/// Two sequences of scalars added entry by entry.
pub open spec fn summed(cs: Seq<int>, ds: Seq<int>) -> Seq<int> {
    Seq::new(cs.len(), |i: int| reduce(cs[i] + ds[i]))
}

/// A linear combination is the combination that starts from the neutral
/// element.
pub proof fn lemma_combination_from_neutral(cs: Seq<int>, ps: Seq<Seq<u8>>)
    ensures
        linear_combination(cs, ps) == combination_from(identity_encoding(), cs, ps),
    decreases cs.len(),
{
    if cs.len() > 0 && ps.len() == cs.len() {
        lemma_combination_from_neutral(cs.drop_last(), ps.drop_last());
    }
}

/// A combination over two sequences, one after the other, is the
/// combination over the second that starts from the combination over the
/// first.
pub proof fn lemma_combination_splits(start: Seq<u8>, cs: Seq<int>, ps: Seq<Seq<u8>>, ds: Seq<int>, qs: Seq<Seq<u8>>)
    requires
        cs.len() == ps.len(),
        ds.len() == qs.len(),
    ensures
        combination_from(start, cs + ds, ps + qs) == combination_from(combination_from(start, cs, ps), ds, qs),
    decreases ds.len(),
{
    if ds.len() == 0 {
        assert(cs + ds =~= cs);
        assert(ps + qs =~= ps);
    } else {
        lemma_combination_splits(start, cs, ps, ds.drop_last(), qs.drop_last());
        assert((cs + ds).drop_last() =~= cs + ds.drop_last());
        assert((ps + qs).drop_last() =~= ps + qs.drop_last());
        assert((cs + ds).last() == ds.last());
        assert((ps + qs).last() == qs.last());
    }
}

/// Under the module laws, a combination of canonical encodings that starts
/// from one is one.
pub proof fn lemma_combination_is_encoding(start: Seq<u8>, cs: Seq<int>, ps: Seq<Seq<u8>>)
    requires
        module_laws(),
        is_point_encoding(start),
        all_scalars(cs),
        all_points(ps),
        cs.len() == ps.len(),
    ensures
        is_point_encoding(combination_from(start, cs, ps)),
    decreases cs.len(),
{
    if cs.len() > 0 {
        lemma_combination_is_encoding(start, cs.drop_last(), ps.drop_last());
        lemma_multiple_is_encoding(cs.last(), ps.last());
        lemma_sum_is_encoding(
            combination_from(start, cs.drop_last(), ps.drop_last()),
            point_scale(cs.last(), ps.last()),
        );
    }
}

/// Under the module laws, a multiple of a combination is the combination
/// of the multiples.
pub proof fn lemma_combination_scales(x: int, start: Seq<u8>, cs: Seq<int>, ps: Seq<Seq<u8>>)
    requires
        module_laws(),
        is_scalar(x),
        is_point_encoding(start),
        all_scalars(cs),
        all_points(ps),
        cs.len() == ps.len(),
    ensures
        point_scale(x, combination_from(start, cs, ps)) == combination_from(point_scale(x, start), scaled(x, cs), ps),
    decreases cs.len(),
{
    if cs.len() > 0 {
        let shorter = combination_from(start, cs.drop_last(), ps.drop_last());
        let term = point_scale(cs.last(), ps.last());
        lemma_combination_scales(x, start, cs.drop_last(), ps.drop_last());
        lemma_combination_is_encoding(start, cs.drop_last(), ps.drop_last());
        lemma_multiple_is_encoding(cs.last(), ps.last());
        lemma_multiple_distributes(x, shorter, term);
        lemma_multiples_nest(x, cs.last(), ps.last());
        assert(scaled(x, cs).drop_last() =~= scaled(x, cs.drop_last()));
        assert(scaled(x, cs).last() == reduce(x * cs.last()));
    }
}

/// Under the module laws, two combinations of the same elements add scalar
/// by scalar.
pub proof fn lemma_combinations_add(s1: Seq<u8>, cs: Seq<int>, s2: Seq<u8>, ds: Seq<int>, ps: Seq<Seq<u8>>)
    requires
        module_laws(),
        is_point_encoding(s1),
        is_point_encoding(s2),
        all_scalars(cs),
        all_scalars(ds),
        all_points(ps),
        cs.len() == ps.len(),
        ds.len() == ps.len(),
    ensures
        point_add(combination_from(s1, cs, ps), combination_from(s2, ds, ps)) == combination_from(
            point_add(s1, s2),
            summed(cs, ds),
            ps,
        ),
    decreases cs.len(),
{
    if cs.len() > 0 {
        let f1 = combination_from(s1, cs.drop_last(), ps.drop_last());
        let f2 = combination_from(s2, ds.drop_last(), ps.drop_last());
        lemma_combinations_add(s1, cs.drop_last(), s2, ds.drop_last(), ps.drop_last());
        lemma_combination_is_encoding(s1, cs.drop_last(), ps.drop_last());
        lemma_combination_is_encoding(s2, ds.drop_last(), ps.drop_last());
        lemma_multiple_is_encoding(cs.last(), ps.last());
        lemma_multiple_is_encoding(ds.last(), ps.last());
        lemma_sum_of_sums(f1, point_scale(cs.last(), ps.last()), f2, point_scale(ds.last(), ps.last()));
        lemma_multiples_add(cs.last(), ds.last(), ps.last());
        assert(summed(cs, ds).drop_last() =~= summed(cs.drop_last(), ds.drop_last()));
        assert(summed(cs, ds).last() == reduce(cs.last() + ds.last()));
    }
}

/// Under the module laws, what is added to the start of a combination may
/// be added at its end.
pub proof fn lemma_combination_start_shifts(start: Seq<u8>, q: Seq<u8>, cs: Seq<int>, ps: Seq<Seq<u8>>)
    requires
        module_laws(),
        is_point_encoding(start),
        is_point_encoding(q),
        all_scalars(cs),
        all_points(ps),
        cs.len() == ps.len(),
    ensures
        combination_from(point_add(start, q), cs, ps) == point_add(combination_from(start, cs, ps), q),
    decreases cs.len(),
{
    if cs.len() > 0 {
        let shorter = combination_from(start, cs.drop_last(), ps.drop_last());
        let term = point_scale(cs.last(), ps.last());
        lemma_combination_start_shifts(start, q, cs.drop_last(), ps.drop_last());
        lemma_combination_is_encoding(start, cs.drop_last(), ps.drop_last());
        lemma_multiple_is_encoding(cs.last(), ps.last());
        // (shorter + q) + term = shorter + (q + term) = shorter + (term + q) = (shorter + term) + q
        lemma_sum_rearranges(shorter, q, term);
        lemma_sum_rearranges(q, term, q);
        lemma_sum_rearranges(shorter, term, q);
    }
}

} // verus!
