//! The algebra of the proof, over the integers.
//!
//! Everything that the prover and the verifier compute in the scalar field
//! is the reduction of an integer expression. This module states those
//! expressions and proves the identities between them; the modules that
//! compute with scalars state their results as reductions of what is
//! defined here.

use vstd::prelude::*;
use vstd::arithmetic::div_mod::*;
use vstd::arithmetic::mul::*;
use crate::vector_ops::inner_sum;

verus! {

/// `b` to the power `e`.
pub open spec fn power(b: int, e: nat) -> int
    decreases e,
{
    if e == 0 {
        1
    } else {
        power(b, (e - 1) as nat) * b
    }
}

/// Bit `i` of the non-negative integer `v`.
pub open spec fn bit(v: int, i: nat) -> int {
    (v / power(2, i)) % 2
}

/// The sum `b^0 + b^1 + … + b^(n-1)`.
pub open spec fn power_sum(b: int, n: nat) -> int
    decreases n,
{
    if n == 0 {
        0
    } else {
        power_sum(b, (n - 1) as nat) + power(b, (n - 1) as nat)
    }
}

/// Entry `i` of the left vector polynomial at `x`: `aL[i] − z + sL[i]·x`,
/// where `aL[i]` is bit `i` of `v`.
pub open spec fn left_entry(v: int, z: int, sl: int, i: nat, x: int) -> int {
    bit(v, i) - z + sl * x
}

/// Entry `i` of the right vector polynomial at `x`:
/// `y^i·(aR[i] + z + sR[i]·x) + z²·2^i`, where `aR[i] = aL[i] − 1`.
pub open spec fn right_entry(v: int, y: int, z: int, sr: int, i: nat, x: int) -> int {
    power(y, i) * (bit(v, i) - 1 + z + sr * x) + z * z * power(2, i)
}

/// The left vector polynomial at `x`, over `n` bits.
pub open spec fn left_vector(v: int, n: nat, z: int, sl: Seq<int>, x: int) -> Seq<int> {
    Seq::new(n, |i: int| left_entry(v, z, sl[i], i as nat, x))
}

/// The right vector polynomial at `x`, over `n` bits.
pub open spec fn right_vector(v: int, n: nat, y: int, z: int, sr: Seq<int>, x: int) -> Seq<int> {
    Seq::new(n, |i: int| right_entry(v, y, z, sr[i], i as nat, x))
}

/// The constant coefficient of `t(X) = ⟨l(X), r(X)⟩` over the first `n`
/// bits: the inner product of the constant parts of the two vectors.
pub open spec fn coefficient0(v: int, n: nat, y: int, z: int) -> int
    decreases n,
{
    if n == 0 {
        0
    } else {
        let i = (n - 1) as nat;
        coefficient0(v, i, y, z) + left_entry(v, z, 0, i, 0) * right_entry(v, y, z, 0, i, 0)
    }
}

/// The linear coefficient of `t(X)` over the first `n` bits: the constant
/// part of each vector against the linear part of the other.
pub open spec fn coefficient1(v: int, n: nat, y: int, z: int, sl: Seq<int>, sr: Seq<int>) -> int
    decreases n,
{
    if n == 0 {
        0
    } else {
        let i = (n - 1) as nat;
        coefficient1(v, i, y, z, sl, sr) + left_entry(v, z, 0, i, 0) * (power(y, i) * sr[i as int]) + sl[i as int]
            * right_entry(v, y, z, 0, i, 0)
    }
}

/// The quadratic coefficient of `t(X)` over the first `n` bits: the inner
/// product of the linear parts of the two vectors.
pub open spec fn coefficient2(n: nat, y: int, sl: Seq<int>, sr: Seq<int>) -> int
    decreases n,
{
    if n == 0 {
        0
    } else {
        let i = (n - 1) as nat;
        coefficient2(i, y, sl, sr) + sl[i as int] * (power(y, i) * sr[i as int])
    }
}

/// What bit `i` adds to the constant coefficient, in closed form:
/// `y^i·(z − z²) − z³·2^i`, and `z²·2^i` more where the bit is set.
pub open spec fn constant_step(v: int, y: int, z: int, i: nat) -> int {
    power(y, i) * (z - z * z) - z * z * z * power(2, i) + (if bit(v, i) == 1 {
        z * z * power(2, i)
    } else {
        0
    })
}

/// What bit `i` adds to the linear coefficient, in closed form:
/// `sL·y^i·z + sL·z²·2^i − sR·y^i·z`, less `sL·y^i` where the bit is clear,
/// plus `sR·y^i` where it is set.
pub open spec fn linear_step(v: int, y: int, z: int, sl: int, sr: int, i: nat) -> int {
    sl * power(y, i) * z + sl * (z * z) * power(2, i) + sr * power(y, i) * (-z) + (if bit(v, i) == 1 {
        sr * power(y, i)
    } else {
        -(sl * power(y, i))
    })
}

/// The value of `t` at `x`, from its three coefficients.
pub open spec fn evaluate(t0: int, t1: int, t2: int, x: int) -> int {
    t0 + t1 * x + t2 * (x * x)
}

/// The term of the verification equation that depends on the challenges
/// alone: `(z − z²)·(y^0 + … + y^(n-1)) − z³·(2^0 + … + 2^(n-1))`.
pub open spec fn delta(n: nat, y: int, z: int) -> int {
    (z - z * z) * power_sum(y, n) - z * z * z * power_sum(2, n)
}

/// Powers of two are positive, and each is twice the one before.
pub proof fn lemma_power_of_two(e: nat)
    ensures
        power(2, e) > 0,
        power(2, e + 1) == 2 * power(2, e),
    decreases e,
{
    if e > 0 {
        lemma_power_of_two((e - 1) as nat);
    }
    assert(power(2, e + 1) == power(2, e) * 2);
}

/// Powers of two do not decrease with the exponent.
pub proof fn lemma_power_of_two_monotone(a: nat, b: nat)
    requires
        a <= b,
    ensures
        0 < power(2, a) <= power(2, b),
    decreases b,
{
    lemma_power_of_two(a);
    if a < b {
        lemma_power_of_two_monotone(a, (b - 1) as nat);
        lemma_power_of_two((b - 1) as nat);
    }
}

/// A bit of a non-negative integer is 0 or 1.
pub proof fn lemma_bit_is_binary(v: int, i: nat)
    requires
        0 <= v,
    ensures
        bit(v, i) == 0 || bit(v, i) == 1,
{
    lemma_power_of_two(i);
}

/// The low `n` bits of `v`, weighted by their powers of two, add up to
/// `v mod 2^n`.
pub open spec fn low_bits(v: int, n: nat) -> int
    decreases n,
{
    if n == 0 {
        0
    } else {
        low_bits(v, (n - 1) as nat) + bit(v, (n - 1) as nat) * power(2, (n - 1) as nat)
    }
}

/// The weighted low bits of a non-negative `v` spell `v mod 2^n`; they spell
/// `v` itself where `v < 2^n`.
pub proof fn lemma_low_bits(v: int, n: nat)
    requires
        0 <= v,
    ensures
        low_bits(v, n) == v % power(2, n),
        v < power(2, n) ==> low_bits(v, n) == v,
    decreases n,
{
    lemma_power_of_two(n);
    if n == 0 {
        assert(power(2, 0) == 1);
        assert(v % 1 == 0);
    } else {
        let m = (n - 1) as nat;
        let q = power(2, m);
        lemma_low_bits(v, m);
        lemma_power_of_two(m);
        lemma_mod_breakdown(v, q, 2);
        assert(power(2, n) == q * 2);
        assert(v % (q * 2) == q * ((v / q) % 2) + v % q);
        lemma_mul_is_commutative(q, (v / q) % 2);
        assert(low_bits(v, n) == low_bits(v, m) + bit(v, m) * q);
    }
    if v < power(2, n) {
        lemma_fundamental_div_mod_converse_mod(v, power(2, n), 0, v);
    }
}

/// `(a + s·x)·(c + r·x)` written out as a quadratic in `x`.
pub proof fn lemma_binomial_product(a: int, s: int, c: int, r: int, x: int)
    ensures
        (a + s * x) * (c + r * x) == evaluate(a * c, a * r + s * c, s * r, x),
{
    let u = s * x;
    let w = r * x;
    let ar = a * r;
    let sc = s * c;
    assert((a + u) * (c + w) == a * c + a * w + u * c + u * w) by (nonlinear_arith);
    assert(a * w == ar * x) by {
        lemma_mul_is_associative(a, r, x);
    }
    assert(u * c == sc * x) by {
        lemma_mul_is_associative(s, x, c);
        lemma_mul_is_commutative(x, c);
        lemma_mul_is_associative(s, c, x);
    }
    assert(u * w == (s * r) * (x * x)) by {
        lemma_mul_is_associative(s, x, w);
        lemma_mul_is_associative(x, r, x);
        lemma_mul_is_commutative(x, r);
        lemma_mul_is_associative(r, x, x);
        lemma_mul_is_associative(s, r, x * x);
    }
    assert((ar + sc) * x == ar * x + sc * x) by (nonlinear_arith);
}

/// The product of the constant parts of the two vectors at bit `i` is the
/// closed form that the prover accumulates.
pub proof fn lemma_constant_step(v: int, y: int, z: int, i: nat)
    requires
        0 <= v,
    ensures
        left_entry(v, z, 0, i, 0) * right_entry(v, y, z, 0, i, 0) == constant_step(v, y, z, i),
{
    lemma_bit_is_binary(v, i);
    let b = bit(v, i);
    let p = power(y, i);
    let zz = z * z;
    let w = zz * power(2, i);
    let pz = p * z;
    assert(z * w == z * zz * power(2, i)) by {
        lemma_mul_is_associative(z, zz, power(2, i));
    }
    assert(z * zz == z * z * z) by {
        lemma_mul_is_associative(z, z, z);
    }
    assert(p * (z - zz) == pz - p * zz) by (nonlinear_arith)
        requires
            pz == p * z,
    ;
    assert(z * pz == p * zz) by {
        lemma_mul_is_associative(z, p, z);
        lemma_mul_is_commutative(z, p);
        lemma_mul_is_associative(p, z, z);
    }
    if b == 0 {
        assert(p * (0 - 1 + z) == pz - p) by (nonlinear_arith)
            requires
                pz == p * z,
        ;
        assert((0 - z) * ((pz - p) + w) == pz - z * pz - z * w) by (nonlinear_arith)
            requires
                pz == p * z,
        ;
    } else {
        assert(p * (1 - 1 + z) == pz);
        assert((1 - z) * (pz + w) == pz - z * pz + w - z * w) by (nonlinear_arith);
    }
}

/// The cross products of the two vectors at bit `i` are the closed form that
/// the prover accumulates.
pub proof fn lemma_linear_step(v: int, y: int, z: int, sl: int, sr: int, i: nat)
    requires
        0 <= v,
    ensures
        left_entry(v, z, 0, i, 0) * (power(y, i) * sr) + sl * right_entry(v, y, z, 0, i, 0) == linear_step(
            v,
            y,
            z,
            sl,
            sr,
            i,
        ),
{
    lemma_bit_is_binary(v, i);
    let b = bit(v, i);
    let p = power(y, i);
    let q = power(2, i);
    let zz = z * z;
    let ps = p * sr;
    let lp = sl * p;
    // the three products that the closed form shares
    assert(sl * p * z == lp * z);
    assert(sl * zz * q == sl * (zz * q)) by {
        lemma_mul_is_associative(sl, zz, q);
    }
    assert(sr * p == ps) by {
        lemma_mul_is_commutative(sr, p);
    }
    assert(sr * p * (-z) == -(z * ps)) by (nonlinear_arith)
        requires
            sr * p == ps,
    ;
    if b == 0 {
        assert((0 - z) * ps == -(z * ps)) by (nonlinear_arith);
        assert(sl * (p * (0 - 1 + z) + zz * q) == lp * z - lp + sl * (zz * q)) by {
            assert(p * (0 - 1 + z) == p * z - p) by (nonlinear_arith);
            assert(sl * ((p * z - p) + zz * q) == sl * (p * z) - sl * p + sl * (zz * q)) by (nonlinear_arith);
            lemma_mul_is_associative(sl, p, z);
        }
    } else {
        assert((1 - z) * ps == ps - z * ps) by (nonlinear_arith);
        assert(sl * (p * (1 - 1 + z) + zz * q) == lp * z + sl * (zz * q)) by {
            assert(p * (1 - 1 + z) == p * z);
            assert(sl * (p * z + zz * q) == sl * (p * z) + sl * (zz * q)) by (nonlinear_arith);
            lemma_mul_is_associative(sl, p, z);
        }
    }
}

/// One entry of each vector at `x`, multiplied, is a quadratic in `x` whose
/// coefficients are the three per-bit terms.
pub proof fn lemma_entry_product(v: int, y: int, z: int, sl: int, sr: int, i: nat, x: int)
    ensures
        left_entry(v, z, sl, i, x) * right_entry(v, y, z, sr, i, x) == evaluate(
            left_entry(v, z, 0, i, 0) * right_entry(v, y, z, 0, i, 0),
            left_entry(v, z, 0, i, 0) * (power(y, i) * sr) + sl * right_entry(v, y, z, 0, i, 0),
            sl * (power(y, i) * sr),
            x,
        ),
{
    let b = bit(v, i);
    let p = power(y, i);
    let q = power(2, i);
    let a = b - z;
    let c = p * (b - 1 + z) + z * z * q;
    let r = p * sr;
    assert(p * (b - 1 + z + sr * x) == p * (b - 1 + z) + r * x) by {
        lemma_mul_is_distributive_add(p, b - 1 + z, sr * x);
        lemma_mul_is_associative(p, sr, x);
    }
    lemma_binomial_product(a, sl, c, r, x);
}

/// Evaluation is additive in the coefficients.
pub proof fn lemma_evaluate_adds(a0: int, a1: int, a2: int, b0: int, b1: int, b2: int, x: int)
    ensures
        evaluate(a0 + b0, a1 + b1, a2 + b2, x) == evaluate(a0, a1, a2, x) + evaluate(b0, b1, b2, x),
{
    lemma_mul_is_distributive_add_other_way(x, a1, b1);
    lemma_mul_is_distributive_add_other_way(x * x, a2, b2);
}

/// The polynomial identity: for every `x`, the three coefficients evaluate
/// to the inner product of the two vector polynomials taken at `x`.
pub proof fn lemma_polynomial_identity(v: int, n: nat, y: int, z: int, sl: Seq<int>, sr: Seq<int>, x: int)
    requires
        sl.len() >= n,
        sr.len() >= n,
    ensures
        evaluate(coefficient0(v, n, y, z), coefficient1(v, n, y, z, sl, sr), coefficient2(n, y, sl, sr), x)
            == inner_sum(left_vector(v, n, z, sl, x), right_vector(v, n, y, z, sr, x)),
    decreases n,
{
    if n > 0 {
        let m = (n - 1) as nat;
        lemma_polynomial_identity(v, m, y, z, sl, sr, x);
        let lv = left_vector(v, n, z, sl, x);
        let rv = right_vector(v, n, y, z, sr, x);
        assert(lv.drop_last() =~= left_vector(v, m, z, sl, x));
        assert(rv.drop_last() =~= right_vector(v, m, y, z, sr, x));
        lemma_entry_product(v, y, z, sl[m as int], sr[m as int], m, x);
        lemma_evaluate_adds(
            coefficient0(v, m, y, z),
            coefficient1(v, m, y, z, sl, sr),
            coefficient2(m, y, sl, sr),
            left_entry(v, z, 0, m, 0) * right_entry(v, y, z, 0, m, 0),
            left_entry(v, z, 0, m, 0) * (power(y, m) * sr[m as int]) + sl[m as int] * right_entry(v, y, z, 0, m, 0),
            sl[m as int] * (power(y, m) * sr[m as int]),
            x,
        );
    }
}

/// The constant coefficient splits into the part that carries the value and
/// the part that the verifier can compute: `z²·(v mod 2^n) + delta`.
pub proof fn lemma_constant_coefficient(v: int, n: nat, y: int, z: int)
    requires
        0 <= v,
    ensures
        coefficient0(v, n, y, z) == z * z * low_bits(v, n) + delta(n, y, z),
        v < power(2, n) ==> coefficient0(v, n, y, z) == z * z * v + delta(n, y, z),
    decreases n,
{
    let zz = z * z;
    let zzz = z * z * z;
    if n > 0 {
        let m = (n - 1) as nat;
        let p = power(y, m);
        let q = power(2, m);
        let b = bit(v, m);
        lemma_constant_coefficient(v, m, y, z);
        lemma_constant_step(v, y, z, m);
        lemma_bit_is_binary(v, m);
        assert(zz * (low_bits(v, m) + b * q) == zz * low_bits(v, m) + zz * (b * q)) by {
            lemma_mul_is_distributive_add(zz, low_bits(v, m), b * q);
        }
        assert(zz * (b * q) == (if b == 1 { zz * q } else { 0 })) by {
            if b == 1 {
                assert(b * q == q);
            } else {
                assert(b * q == 0);
            }
        }
        assert((z - zz) * (power_sum(y, m) + p) == (z - zz) * power_sum(y, m) + p * (z - zz)) by {
            lemma_mul_is_distributive_add(z - zz, power_sum(y, m), p);
            lemma_mul_is_commutative(z - zz, p);
        }
        assert(zzz * (power_sum(2, m) + q) == zzz * power_sum(2, m) + zzz * q) by {
            lemma_mul_is_distributive_add(zzz, power_sum(2, m), q);
        }
    } else {
        assert(zz * 0 == 0);
        assert((z - zz) * 0 == 0);
        assert(zzz * 0 == 0);
    }
    lemma_low_bits(v, n);
}

/// What stands on the value base on both sides of the verification
/// equation: for a value that fits in `n` bits, `t(x)` is
/// `delta + z²·v + x·t1 + x²·t2`.
pub proof fn lemma_value_side(v: int, n: nat, y: int, z: int, sl: Seq<int>, sr: Seq<int>, x: int)
    requires
        0 <= v < power(2, n),
    ensures
        evaluate(coefficient0(v, n, y, z), coefficient1(v, n, y, z, sl, sr), coefficient2(n, y, sl, sr), x)
            == delta(n, y, z) + z * z * v + x * coefficient1(v, n, y, z, sl, sr) + (x * x) * coefficient2(
            n,
            y,
            sl,
            sr,
        ),
{
    lemma_constant_coefficient(v, n, y, z);
    lemma_mul_is_commutative(x, coefficient1(v, n, y, z, sl, sr));
    lemma_mul_is_commutative(x * x, coefficient2(n, y, sl, sr));
}

} // verus!
