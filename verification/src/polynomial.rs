//! The polynomial `t(X) = ⟨l(X), r(X)⟩` of the range proof.
//!
//! Its three coefficients are accumulated bit by bit, with running powers of
//! the challenge `y` and of two, without building the vectors `l` and `r`.
//! No step branches on a bit of the secret value: a bit enters only as the
//! scalar 0 or 1 that a term is multiplied by.

use vstd::prelude::*;
use vstd::arithmetic::div_mod::lemma_div_denominator;
use vstd::arithmetic::mul::{lemma_mul_is_associative, lemma_mul_is_commutative};
use crate::algebra::{
    bit, coefficient0, coefficient1, coefficient2, constant_step, evaluate, lemma_bit_is_binary, lemma_constant_step,
    left_entry, left_vector, lemma_linear_step, lemma_polynomial_identity, lemma_power_of_two, linear_step, power,
    right_entry, right_vector,
};
use crate::error::ProofError;
use crate::field::{lemma_reduce_add, lemma_reduce_mul, lemma_reduce_range, reduce, Scalar};
use crate::group::scalar_values;
use crate::residue::Residue;
use crate::vector_ops::{inner_sum, lemma_inner_sum_reduced};

verus! {

/// The coefficients `(t0, t1, t2)` of `t(X) = t0 + t1·X + t2·X²`.
#[derive(Clone, Copy, Debug, PartialEq, Eq)]
pub struct Degree3Poly(pub Scalar, pub Scalar, pub Scalar);

/// A term that is added where a bit is set and another that is taken away
/// where it is clear, written as one expression in the bit.
proof fn lemma_bit_select(b: int, on: int, off: int)
    requires
        b == 0 || b == 1,
    ensures
        b * on - (1 - b) * off == (if b == 1 { on } else { -off }),
        b * on == (if b == 1 { on } else { 0 }),
{
    if b == 1 {
        assert(b * on == on);
        assert((1 - b) * off == 0);
    } else {
        assert(b * on == 0);
        assert((1 - b) * off == off);
    }
}

/// Halving the rest of the value moves on to the next bit.
proof fn lemma_next_bit(v: int, i: nat)
    requires
        0 <= v,
    ensures
        (v / power(2, i)) / 2 == v / power(2, i + 1),
        (v / power(2, i)) % 2 == bit(v, i),
{
    lemma_power_of_two(i);
    lemma_div_denominator(v, power(2, i), 2);
    lemma_mul_is_commutative(2, power(2, i));
}

/// Reducing the coefficients before evaluating does not change the reduced
/// value.
pub proof fn lemma_evaluate_reduced(t0: int, t1: int, t2: int, x: int)
    ensures
        reduce(evaluate(reduce(t0), reduce(t1), reduce(t2), x)) == reduce(evaluate(t0, t1, t2, x)),
{
    let xx = x * x;
    // each product, with its left factor reduced
    lemma_reduce_mul(t1, x);
    lemma_reduce_mul(reduce(t1), x);
    lemma_reduce_range(t1);
    lemma_reduce_mul(t2, xx);
    lemma_reduce_mul(reduce(t2), xx);
    lemma_reduce_range(t2);
    assert(reduce(reduce(t1) * x) == reduce(t1 * x));
    assert(reduce(reduce(t2) * xx) == reduce(t2 * xx));
    // the sum of the three
    lemma_reduce_add(t0, t1 * x);
    lemma_reduce_add(reduce(t0), reduce(t1) * x);
    lemma_reduce_range(t0);
    assert(reduce(reduce(t0) + reduce(t1) * x) == reduce(t0 + t1 * x));
    lemma_reduce_add(t0 + t1 * x, t2 * xx);
    lemma_reduce_add(reduce(t0) + reduce(t1) * x, reduce(t2) * xx);
}

/// The polynomial identity for scalars: the value `t0 + t1·x + t2·x²` that
/// the three reduced coefficients give at any `x` is the inner product of
/// `l(x)` and `r(x)`, taken entry by entry in the scalar field.
pub proof fn lemma_evaluation_is_inner_product(
    v: int,
    n: nat,
    y: int,
    z: int,
    sl: Seq<int>,
    sr: Seq<int>,
    x: int,
    l: Seq<int>,
    r: Seq<int>,
)
    requires
        sl.len() == n,
        sr.len() == n,
        l.len() == n,
        r.len() == n,
        forall|i: int| 0 <= i < n ==> l[i] == reduce(left_entry(v, z, sl[i], i as nat, x)),
        forall|i: int| 0 <= i < n ==> r[i] == reduce(right_entry(v, y, z, sr[i], i as nat, x)),
    ensures
        reduce(inner_sum(l, r)) == reduce(
            evaluate(
                reduce(coefficient0(v, n, y, z)),
                reduce(coefficient1(v, n, y, z, sl, sr)),
                reduce(coefficient2(n, y, sl, sr)),
                x,
            ),
        ),
{
    let lv = left_vector(v, n, z, sl, x);
    let rv = right_vector(v, n, y, z, sr, x);
    assert forall|i: int| 0 <= i < n implies reduce(l[i]) == reduce(lv[i]) by {
        lemma_reduce_range(lv[i]);
    }
    assert forall|i: int| 0 <= i < n implies reduce(r[i]) == reduce(rv[i]) by {
        lemma_reduce_range(rv[i]);
    }
    lemma_inner_sum_reduced(l, r, lv, rv);
    lemma_polynomial_identity(v, n, y, z, sl, sr, x);
    lemma_evaluate_reduced(coefficient0(v, n, y, z), coefficient1(v, n, y, z, sl, sr), coefficient2(n, y, sl, sr), x);
}

impl Degree3Poly {
    /// The zero polynomial.
    pub fn new() -> (r: Degree3Poly)
        ensures
            r.0@ == 0,
            r.1@ == 0,
            r.2@ == 0,
    {
        Degree3Poly(Scalar::zero(), Scalar::zero(), Scalar::zero())
    }

    /// The coefficients of `t(X) = ⟨l(X), r(X)⟩` for the low `n` bits of `v`,
    /// the challenges `y` and `z`, and the blinding vectors `s_l` and `s_r`,
    /// which must hold `n` scalars each.
    pub fn from_bits(v: u64, n: usize, y: &Scalar, z: &Scalar, s_l: &Vec<Scalar>, s_r: &Vec<Scalar>) -> (r: Result<
        Degree3Poly,
        ProofError,
    >)
        ensures
            (s_l.len() != n || s_r.len() != n) <==> r == Err::<Degree3Poly, ProofError>(ProofError::LengthMismatch),
            (s_l.len() == n && s_r.len() == n) <==> r.is_ok(),
            r matches Ok(t) ==> {
                &&& t.0@ == reduce(coefficient0(v as int, n as nat, y@, z@))
                &&& t.1@ == reduce(coefficient1(v as int, n as nat, y@, z@, scalar_values(s_l@), scalar_values(s_r@)))
                &&& t.2@ == reduce(coefficient2(n as nat, y@, scalar_values(s_l@), scalar_values(s_r@)))
            },
    {
        if s_l.len() != n || s_r.len() != n {
            return Err(ProofError::LengthMismatch);
        }
        let ghost vi = v as int;
        let ghost yi = y@;
        let ghost zi = z@;
        let ghost sl = scalar_values(s_l@);
        let ghost sr = scalar_values(s_r@);
        let y_r = Residue::of(y);
        let z_r = Residue::of(z);
        let one = Residue::of_u64(1);
        let z2 = z_r.mul(&z_r);
        let z3 = z2.mul(&z_r);
        let z_less_z2 = z_r.sub(&z2);
        let minus_z = z_r.neg();
        let mut t0 = Residue::of_u64(0);
        let mut t1 = Residue::of_u64(0);
        let mut t2 = Residue::of_u64(0);
        let mut exp_y = Residue::of_u64(1);
        let mut exp_2 = Residue::of_u64(1);
        let mut rest: u64 = v;
        let mut i: usize = 0;
        while i < n
            invariant
                i <= n,
                s_l.len() == n,
                s_r.len() == n,
                sl == scalar_values(s_l@),
                sr == scalar_values(s_r@),
                vi == v,
                yi == y@,
                zi == z@,
                y_r.wf() && y_r.meaning() == yi,
                z_r.wf() && z_r.meaning() == zi,
                one.wf() && one.meaning() == 1,
                z2.wf() && z2.meaning() == zi * zi,
                z3.wf() && z3.meaning() == zi * zi * zi,
                z_less_z2.wf() && z_less_z2.meaning() == zi - zi * zi,
                minus_z.wf() && minus_z.meaning() == -zi,
                t0.wf() && t0.meaning() == coefficient0(vi, i as nat, yi, zi),
                t1.wf() && t1.meaning() == coefficient1(vi, i as nat, yi, zi, sl, sr),
                t2.wf() && t2.meaning() == coefficient2(i as nat, yi, sl, sr),
                exp_y.wf() && exp_y.meaning() == power(yi, i as nat),
                exp_2.wf() && exp_2.meaning() == power(2, i as nat),
                rest == vi / power(2, i as nat),
            decreases n - i,
        {
            let ghost k = i as nat;
            let ghost p = power(yi, k);
            let ghost q = power(2, k);
            let ghost b = bit(vi, k);
            let ghost a = sl[i as int];
            let ghost c = sr[i as int];
            proof {
                lemma_next_bit(vi, k);
                lemma_bit_is_binary(vi, k);
            }
            let bit_i = Residue::of_u64(rest % 2);
            let not_bit_i = one.sub(&bit_i);
            let sl_i = Residue::of(&s_l[i]);
            let sr_i = Residue::of(&s_r[i]);
            let z2_exp_2 = z2.mul(&exp_2);
            let sl_exp_y = sl_i.mul(&exp_y);
            let sr_exp_y = sr_i.mul(&exp_y);
            // t0 += y^i·(z − z²) − z³·2^i, and z²·2^i more where the bit is set
            let step0 = exp_y.mul(&z_less_z2).sub(&z3.mul(&exp_2)).add(&bit_i.mul(&z2_exp_2));
            // t1 += sL·y^i·z + sL·z²·2^i + sR·y^i·(−z),
            // plus sR·y^i where the bit is set, less sL·y^i where it is clear
            let step1 = sl_exp_y.mul(&z_r).add(&sl_i.mul(&z2).mul(&exp_2)).add(&sr_exp_y.mul(&minus_z)).add(
                &bit_i.mul(&sr_exp_y).sub(&not_bit_i.mul(&sl_exp_y)),
            );
            // t2 += sL·y^i·sR
            let step2 = sl_exp_y.mul(&sr_i);
            proof {
                lemma_bit_select(b, zi * zi * q, 0);
                assert(step0.meaning() == constant_step(vi, yi, zi, k));
                lemma_constant_step(vi, yi, zi, k);
                lemma_bit_select(b, c * p, a * p);
                assert(step1.meaning() == linear_step(vi, yi, zi, a, c, k));
                lemma_linear_step(vi, yi, zi, a, c, k);
                assert(step2.meaning() == a * (p * c)) by {
                    lemma_mul_is_associative(a, p, c);
                }
                assert(p * yi == power(yi, k + 1));
                assert(q + q == power(2, k + 1));
            }
            t0 = t0.add(&step0);
            t1 = t1.add(&step1);
            t2 = t2.add(&step2);
            exp_y = exp_y.mul(&y_r);
            exp_2 = exp_2.add(&exp_2);
            rest = rest / 2;
            i += 1;
        }
        Ok(Degree3Poly(t0.scalar, t1.scalar, t2.scalar))
    }

    /// The value of the polynomial at `x`: `t0 + t1·x + t2·x²`.
    pub fn eval(&self, x: &Scalar) -> (r: Scalar)
        ensures
            r@ == reduce(evaluate(self.0@, self.1@, self.2@, x@)),
    {
        let t0 = Residue::of(&self.0);
        let t1 = Residue::of(&self.1);
        let t2 = Residue::of(&self.2);
        let x_r = Residue::of(x);
        let total = t0.add(&t1.mul(&x_r)).add(&t2.mul(&x_r).mul(&x_r));
        proof {
            lemma_mul_is_associative(self.2@, x@, x@);
        }
        total.scalar
    }
}

/// The vector `l(x)`: entry `i` is `aL[i] − z + sL[i]·x`, where `aL[i]` is
/// bit `i` of `v`. The blinding vector must hold `n` scalars.
pub fn left_polynomial_at(v: u64, n: usize, z: &Scalar, s_l: &Vec<Scalar>, x: &Scalar) -> (r: Result<
    Vec<Scalar>,
    ProofError,
>)
    ensures
        s_l.len() != n <==> r == Err::<Vec<Scalar>, ProofError>(ProofError::LengthMismatch),
        s_l.len() == n <==> r.is_ok(),
        r matches Ok(l) ==> l.len() == n && forall|i: int|
            0 <= i < n ==> #[trigger] l[i]@ == reduce(left_entry(v as int, z@, s_l[i]@, i as nat, x@)),
{
    if s_l.len() != n {
        return Err(ProofError::LengthMismatch);
    }
    let ghost vi = v as int;
    let z_r = Residue::of(z);
    let x_r = Residue::of(x);
    let mut result: Vec<Scalar> = Vec::new();
    let mut rest: u64 = v;
    let mut i: usize = 0;
    while i < n
        invariant
            i <= n,
            s_l.len() == n,
            vi == v,
            z_r.wf() && z_r.meaning() == z@,
            x_r.wf() && x_r.meaning() == x@,
            rest == vi / power(2, i as nat),
            result.len() == i,
            forall|j: int| 0 <= j < i ==> #[trigger] result[j]@ == reduce(left_entry(vi, z@, s_l[j]@, j as nat, x@)),
        decreases n - i,
    {
        proof {
            lemma_next_bit(vi, i as nat);
        }
        let bit_i = Residue::of_u64(rest % 2);
        let sl_i = Residue::of(&s_l[i]);
        let entry = bit_i.sub(&z_r).add(&sl_i.mul(&x_r));
        result.push(entry.scalar);
        rest = rest / 2;
        i += 1;
    }
    Ok(result)
}

/// The vector `r(x)`: entry `i` is `y^i·(aR[i] + z + sR[i]·x) + z²·2^i`,
/// where `aR[i]` is bit `i` of `v` less one. The blinding vector must hold
/// `n` scalars.
pub fn right_polynomial_at(v: u64, n: usize, y: &Scalar, z: &Scalar, s_r: &Vec<Scalar>, x: &Scalar) -> (r: Result<
    Vec<Scalar>,
    ProofError,
>)
    ensures
        s_r.len() != n <==> r == Err::<Vec<Scalar>, ProofError>(ProofError::LengthMismatch),
        s_r.len() == n <==> r.is_ok(),
        r matches Ok(l) ==> l.len() == n && forall|i: int|
            0 <= i < n ==> #[trigger] l[i]@ == reduce(right_entry(v as int, y@, z@, s_r[i]@, i as nat, x@)),
{
    if s_r.len() != n {
        return Err(ProofError::LengthMismatch);
    }
    let ghost vi = v as int;
    let y_r = Residue::of(y);
    let z_r = Residue::of(z);
    let x_r = Residue::of(x);
    let one = Residue::of_u64(1);
    let z2 = z_r.mul(&z_r);
    let mut exp_y = Residue::of_u64(1);
    let mut exp_2 = Residue::of_u64(1);
    let mut result: Vec<Scalar> = Vec::new();
    let mut rest: u64 = v;
    let mut i: usize = 0;
    while i < n
        invariant
            i <= n,
            s_r.len() == n,
            vi == v,
            y_r.wf() && y_r.meaning() == y@,
            z_r.wf() && z_r.meaning() == z@,
            x_r.wf() && x_r.meaning() == x@,
            one.wf() && one.meaning() == 1,
            z2.wf() && z2.meaning() == z@ * z@,
            exp_y.wf() && exp_y.meaning() == power(y@, i as nat),
            exp_2.wf() && exp_2.meaning() == power(2, i as nat),
            rest == vi / power(2, i as nat),
            result.len() == i,
            forall|j: int|
                0 <= j < i ==> #[trigger] result[j]@ == reduce(right_entry(vi, y@, z@, s_r[j]@, j as nat, x@)),
        decreases n - i,
    {
        proof {
            lemma_next_bit(vi, i as nat);
            assert(power(y@, i as nat) * y@ == power(y@, (i + 1) as nat));
            assert(power(2, i as nat) + power(2, i as nat) == power(2, (i + 1) as nat));
        }
        let bit_i = Residue::of_u64(rest % 2);
        let sr_i = Residue::of(&s_r[i]);
        let inner = bit_i.sub(&one).add(&z_r).add(&sr_i.mul(&x_r));
        let entry = exp_y.mul(&inner).add(&z2.mul(&exp_2));
        result.push(entry.scalar);
        exp_y = exp_y.mul(&y_r);
        exp_2 = exp_2.add(&exp_2);
        rest = rest / 2;
        i += 1;
    }
    Ok(result)
}

} // verus!
