//! The range proof: how it is built and checked.
//!
//! A proof holds the commitments `A`, `S`, `T1`, `T2`, the scalars `tau_x`,
//! `mu` and `t`, and the vectors `l(x)` and `r(x)` in full: no inner-product
//! argument compresses them, so a proof grows with the bit length. It is
//! valid for one triple of base points and bit length, and is checked
//! against the Pedersen commitment `V = v·H + gamma·G` to the value.
//!
//! Both first-round commitments are hidden by multiples of the base point
//! `G`, `A` by `alpha·G` and `S` by `rho·G`, so that `mu = alpha + rho·x`
//! opens `A + x·S`.

use vstd::prelude::*;
use vstd::arithmetic::div_mod::lemma_fundamental_div_mod;
use vstd::arithmetic::mul::{lemma_mul_inequality, lemma_mul_is_commutative};
use crate::algebra::{
    coefficient0, coefficient1, coefficient2, delta, evaluate, left_entry, lemma_power_of_two,
    lemma_power_of_two_monotone, power, power_sum, right_entry,
};
use crate::commitment::{bit_commitment, blinding_commitment, commit_bits, commit_blinding};
use crate::error::ProofError;
use crate::field::{all_scalars, inverse_of, is_scalar, reduce, Scalar};
use crate::generators::{generator_chain, make_generators};
use crate::group::{pedersen, pedersen_commit, point_add, point_scale, scalar_values, GroupElement};
use crate::polynomial::{left_polynomial_at, lemma_evaluate_reduced, right_polynomial_at, Degree3Poly};
use crate::randomness::{random_scalar, random_scalars};
use crate::residue::Residue;
use crate::transcript::{bit_challenges, challenge_x, challenge_y, challenge_z, polynomial_challenge};
use crate::vector_ops::{inner_product_of, inner_sum};

verus! {

/// A proof that a committed value lies in `0 .. 2^n`.
///
/// Besides the four commitments and the three scalars it holds the vectors
/// `l(x)` and `r(x)` themselves, one scalar for each bit: they are what the
/// verifier checks `t` and `mu` against.
#[derive(Clone, Debug, PartialEq, Eq)]
pub struct RangeProof {
    /// The commitment to the bits of the value.
    pub a: GroupElement,
    /// The commitment to the blinding vectors.
    pub s: GroupElement,
    /// The commitment to the linear coefficient of `t(X)`.
    pub t1: GroupElement,
    /// The commitment to the quadratic coefficient of `t(X)`.
    pub t2: GroupElement,
    /// The blinding factor that opens the commitments to `t(x)`.
    pub tau_x: Scalar,
    /// The blinding factor that opens `A + x·S`.
    pub mu: Scalar,
    /// The value of `t(X)` at the challenge `x`.
    pub t: Scalar,
    /// The left vector polynomial at the challenge `x`.
    pub l: Vec<Scalar>,
    /// The right vector polynomial at the challenge `x`.
    pub r: Vec<Scalar>,
}

/// The random scalars that go into one proof.
#[derive(Clone, Debug, PartialEq, Eq)]
pub struct Blinding {
    /// Hides the commitment `A`.
    pub alpha: Scalar,
    /// Hides the commitment `S`.
    pub rho: Scalar,
    /// Blinds the left vector, one scalar for each bit.
    pub s_l: Vec<Scalar>,
    /// Blinds the right vector, one scalar for each bit.
    pub s_r: Vec<Scalar>,
    /// Hides the commitment `T1`.
    pub tau1: Scalar,
    /// Hides the commitment `T2`.
    pub tau2: Scalar,
}

/// The integers of the random scalars that go into one proof.
pub ghost struct BlindingValues {
    pub alpha: int,
    pub rho: int,
    pub s_l: Seq<int>,
    pub s_r: Seq<int>,
    pub tau1: int,
    pub tau2: int,
}

impl BlindingValues {
    /// Whether every integer is the integer of a scalar.
    pub open spec fn in_range(&self) -> bool {
        &&& is_scalar(self.alpha)
        &&& is_scalar(self.rho)
        &&& is_scalar(self.tau1)
        &&& is_scalar(self.tau2)
        &&& all_scalars(self.s_l)
        &&& all_scalars(self.s_r)
    }
}

impl View for Blinding {
    type V = BlindingValues;

    open spec fn view(&self) -> BlindingValues {
        BlindingValues {
            alpha: self.alpha@,
            rho: self.rho@,
            s_l: scalar_values(self.s_l@),
            s_r: scalar_values(self.s_r@),
            tau1: self.tau1@,
            tau2: self.tau2@,
        }
    }
}

/// The right-hand side of the verification equation:
/// `delta·H + z²·V + x·T1 + x²·T2`, summed from the left.
pub open spec fn verification_target(
    delta: int,
    z2: int,
    x: int,
    x2: int,
    h: Seq<u8>,
    commitment: Seq<u8>,
    t1: Seq<u8>,
    t2: Seq<u8>,
) -> Seq<u8> {
    point_add(
        point_add(point_add(point_scale(delta, h), point_scale(z2, commitment)), point_scale(x, t1)),
        point_scale(x2, t2),
    )
}

/// The scalars that the disclosed left vector puts on the generators
/// `Gvec`: entry `i` is `l[i] + z`, which for an honest proof is
/// `aL[i] + sL[i]·x`.
pub open spec fn left_weights(l: Seq<int>, z: int) -> Seq<int> {
    Seq::new(l.len(), |i: int| reduce(l[i] + z))
}

/// The scalars that the disclosed right vector puts on the generators
/// `Hvec`: entry `i` is `y^(-i)·(r[i] − z²·2^i) − z`, which for an honest
/// proof is `aR[i] + sR[i]·x`. `y_inv` stands for the inverse of `y`.
pub open spec fn right_weights(r: Seq<int>, y_inv: int, z: int) -> Seq<int> {
    Seq::new(r.len(), |i: int| reduce(power(y_inv, i as nat) * (r[i] - z * z * power(2, i as nat)) - z))
}

impl RangeProof {
    /// Whether this is the proof that `v` lies in `0 .. 2^n`, built over the
    /// base points `g` and `h` for the commitment with blinding factor
    /// `gamma`, from the random scalars `w`.
    pub open spec fn is_proof_of(&self, v: int, n: nat, g: Seq<u8>, h: Seq<u8>, gamma: int, w: BlindingValues) -> bool {
        let g_vec = generator_chain(h, n);
        let h_vec = generator_chain(g, n);
        let y = challenge_y(self.a@, self.s@);
        let z = challenge_z(self.a@, self.s@);
        let x = challenge_x(self.t1@, self.t2@);
        let t0 = coefficient0(v, n, y, z);
        let t1 = coefficient1(v, n, y, z, w.s_l, w.s_r);
        let t2 = coefficient2(n, y, w.s_l, w.s_r);
        &&& self.a@ == bit_commitment(v, n, w.alpha, g, g_vec, h_vec)
        &&& self.s@ == blinding_commitment(w.rho, w.s_l, w.s_r, g, g_vec, h_vec)
        &&& self.t1@ == pedersen(reduce(t1), w.tau1, h, g)
        &&& self.t2@ == pedersen(reduce(t2), w.tau2, h, g)
        &&& self.tau_x@ == reduce(w.tau1 * x + w.tau2 * (x * x) + z * z * gamma)
        &&& self.mu@ == reduce(w.alpha + w.rho * x)
        &&& self.t@ == reduce(evaluate(t0, t1, t2, x))
        &&& self.l.len() == n
        &&& self.r.len() == n
        &&& forall|i: int| 0 <= i < n ==> #[trigger] self.l[i]@ == reduce(left_entry(v, z, w.s_l[i], i as nat, x))
        &&& forall|i: int|
            0 <= i < n ==> #[trigger] self.r[i]@ == reduce(right_entry(v, y, z, w.s_r[i], i as nat, x))
    }

    /// Whether the proof satisfies the aggregate equation
    /// `t·H + tau_x·G == delta(y, z)·H + z²·V + x·T1 + x²·T2` for the value
    /// commitment `V`, the bit length `n` and the base points `g` and `h`.
    pub open spec fn satisfies_aggregate(&self, commitment: Seq<u8>, n: nat, g: Seq<u8>, h: Seq<u8>) -> bool {
        let y = challenge_y(self.a@, self.s@);
        let z = challenge_z(self.a@, self.s@);
        let x = challenge_x(self.t1@, self.t2@);
        pedersen(self.t@, self.tau_x@, h, g) == verification_target(
            reduce(delta(n, y, z)),
            reduce(z * z),
            x,
            reduce(x * x),
            h,
            commitment,
            self.t1@,
            self.t2@,
        )
    }

    /// Whether `t` is the inner product of the disclosed vectors.
    pub open spec fn satisfies_inner_product(&self) -> bool {
        self.t@ == reduce(inner_sum(scalar_values(self.l@), scalar_values(self.r@)))
    }

    /// Whether `mu` and the disclosed vectors open the first-round
    /// commitments: whether
    /// `A + x·S == mu·G + Σ (l[i] + z)·Gvec[i] + Σ (y^(-i)·(r[i] − z²·2^i) − z)·Hvec[i]`,
    /// the right-hand side being one combination of `[G, Gvec…, Hvec…]`.
    /// With `Hvec'[i] = y^(-i)·Hvec[i]` this is
    /// `A + x·S − z·ΣGvec[i] + Σ (z·y^i + z²·2^i)·Hvec'[i] == mu·G + Σ l[i]·Gvec[i] + Σ r[i]·Hvec'[i]`.
    pub open spec fn satisfies_opening(&self, n: nat, g: Seq<u8>, h: Seq<u8>) -> bool {
        let y = challenge_y(self.a@, self.s@);
        let z = challenge_z(self.a@, self.s@);
        let x = challenge_x(self.t1@, self.t2@);
        point_add(self.a@, point_scale(x, self.s@)) == blinding_commitment(
            self.mu@,
            left_weights(scalar_values(self.l@), z),
            right_weights(scalar_values(self.r@), inverse_of(y), z),
            g,
            generator_chain(h, n),
            generator_chain(g, n),
        )
    }

    /// Whether the proof is valid for the value commitment `V`, the bit
    /// length `n` and the base points `g` and `h`: the disclosed vectors
    /// hold `n` scalars each, the challenge `y` is not zero, `t` is their
    /// inner product, the aggregate equation holds, and `mu` and the
    /// vectors open `A + x·S`.
    pub open spec fn satisfies(&self, commitment: Seq<u8>, n: nat, g: Seq<u8>, h: Seq<u8>) -> bool {
        &&& self.l.len() == n
        &&& self.r.len() == n
        &&& challenge_y(self.a@, self.s@) != 0
        &&& self.satisfies_inner_product()
        &&& self.satisfies_aggregate(commitment, n, g, h)
        &&& self.satisfies_opening(n, g, h)
    }
}


/// Powers of two as this library writes them are those of `vstd`.
proof fn lemma_power_is_pow2(n: nat)
    ensures
        power(2, n) == vstd::arithmetic::power2::pow2(n),
    decreases n,
{
    if n == 0 {
        vstd::arithmetic::power2::lemma2_to64();
    } else {
        lemma_power_is_pow2((n - 1) as nat);
        vstd::arithmetic::power2::lemma_pow2_unfold(n);
    }
}

/// Whether `v` fits in `n` bits, that is, whether `v < 2^n`. The time taken
/// does not depend on `v`.
pub fn fits_in_bits(v: u64, n: usize) -> (r: bool)
    ensures
        r == (v < power(2, n as nat)),
{
    if n >= 64 {
        proof {
            lemma_power_is_pow2(64);
            vstd::arithmetic::power2::lemma2_to64_rest();
            lemma_power_of_two_monotone(64, n as nat);
        }
        true
    } else {
        let shifted = v >> n;
        proof {
            let q = power(2, n as nat);
            lemma_power_is_pow2(n as nat);
            lemma_power_of_two(n as nat);
            vstd::bits::lemma_u64_shr_is_div(v, n as u64);
            lemma_fundamental_div_mod(v as int, q);
            if shifted != 0 {
                lemma_mul_inequality(1, shifted as int, q);
                lemma_mul_is_commutative(q, shifted as int);
            }
        }
        shifted == 0
    }
}

/// The Pedersen commitment `V = v·H + gamma·G` to the value `v` under the
/// blinding factor `gamma`.
pub fn value_commitment(v: u64, gamma: &Scalar, g: &GroupElement, h: &GroupElement) -> (r: GroupElement)
    ensures
        r@ == pedersen(v as int, gamma@, h@, g@),
{
    let value = Scalar::from_u64(v);
    pedersen_commit(&value, gamma, h, g)
}

/// The term `delta(y, z) = (z − z²)·(y^0 + … + y^(n-1)) − z³·(2^0 + … + 2^(n-1))`
/// of the verification equation.
pub fn delta_term(n: usize, y: &Scalar, z: &Scalar) -> (r: Scalar)
    ensures
        r@ == reduce(delta(n as nat, y@, z@)),
{
    let y_r = Residue::of(y);
    let z_r = Residue::of(z);
    let z2 = z_r.mul(&z_r);
    let z3 = z2.mul(&z_r);
    let mut sum_y = Residue::of_u64(0);
    let mut sum_2 = Residue::of_u64(0);
    let mut exp_y = Residue::of_u64(1);
    let mut exp_2 = Residue::of_u64(1);
    let mut i: usize = 0;
    while i < n
        invariant
            i <= n,
            y_r.wf() && y_r.meaning() == y@,
            sum_y.wf() && sum_y.meaning() == power_sum(y@, i as nat),
            sum_2.wf() && sum_2.meaning() == power_sum(2, i as nat),
            exp_y.wf() && exp_y.meaning() == power(y@, i as nat),
            exp_2.wf() && exp_2.meaning() == power(2, i as nat),
        decreases n - i,
    {
        proof {
            assert(power(y@, i as nat) * y@ == power(y@, (i + 1) as nat));
            assert(power(2, i as nat) + power(2, i as nat) == power(2, (i + 1) as nat));
        }
        sum_y = sum_y.add(&exp_y);
        sum_2 = sum_2.add(&exp_2);
        exp_y = exp_y.mul(&y_r);
        exp_2 = exp_2.add(&exp_2);
        i += 1;
    }
    let result = z_r.sub(&z2).mul(&sum_y).sub(&z3.mul(&sum_2));
    result.scalar
}

impl Blinding {
    /// Draws the random scalars for a proof over `n` bits, in this order:
    /// `alpha`, `rho`, the `n` scalars of `s_l`, the `n` scalars of `s_r`,
    /// `tau1`, `tau2`. A failure of the generator is reported as
    /// `RandomnessUnavailable`.
    pub fn random(n: usize, rng: &mut rand::rngs::StdRng) -> (r: Result<Blinding, ProofError>)
        ensures
            r matches Ok(b) ==> b.s_l.len() == n && b.s_r.len() == n && b@.in_range(),
            r is Err ==> r == Err::<Blinding, ProofError>(ProofError::RandomnessUnavailable),
    {
        let alpha = match random_scalar(rng) {
            Ok(s) => s,
            Err(_) => {
                return Err(ProofError::RandomnessUnavailable);
            },
        };
        let rho = match random_scalar(rng) {
            Ok(s) => s,
            Err(_) => {
                return Err(ProofError::RandomnessUnavailable);
            },
        };
        let s_l = match random_scalars(n, rng) {
            Ok(s) => s,
            Err(_) => {
                return Err(ProofError::RandomnessUnavailable);
            },
        };
        let s_r = match random_scalars(n, rng) {
            Ok(s) => s,
            Err(_) => {
                return Err(ProofError::RandomnessUnavailable);
            },
        };
        let tau1 = match random_scalar(rng) {
            Ok(s) => s,
            Err(_) => {
                return Err(ProofError::RandomnessUnavailable);
            },
        };
        let tau2 = match random_scalar(rng) {
            Ok(s) => s,
            Err(_) => {
                return Err(ProofError::RandomnessUnavailable);
            },
        };
        alpha.bounded();
        rho.bounded();
        tau1.bounded();
        tau2.bounded();
        Ok(Blinding { alpha, rho, s_l, s_r, tau1, tau2 })
    }
}


impl RangeProof {
    /// Builds the proof that `v` lies in `0 .. 2^n` from given random
    /// scalars. `g` is the base point that carries blinding factors, `h`
    /// the one that carries values, and `gamma` the blinding factor of the
    /// value commitment `V = v·H + gamma·G` that the proof will be checked
    /// against.
    ///
    /// A value that does not fit in `n` bits is refused before anything is
    /// computed, and so are blinding vectors that do not hold `n` scalars
    /// each.
    pub fn prove(v: u64, n: usize, g: &GroupElement, h: &GroupElement, gamma: &Scalar, blinding: &Blinding) -> (r:
        Result<RangeProof, ProofError>)
        ensures
            v >= power(2, n as nat) <==> r == Err::<RangeProof, ProofError>(ProofError::ValueOutOfRange),
            (v < power(2, n as nat) && (blinding.s_l.len() != n || blinding.s_r.len() != n)) <==> r == Err::<
                RangeProof,
                ProofError,
            >(ProofError::LengthMismatch),
            (v < power(2, n as nat) && blinding.s_l.len() == n && blinding.s_r.len() == n) <==> r.is_ok(),
            r matches Ok(p) ==> p.is_proof_of(v as int, n as nat, g@, h@, gamma@, blinding@),
    {
        if !fits_in_bits(v, n) {
            return Err(ProofError::ValueOutOfRange);
        }
        if blinding.s_l.len() != n || blinding.s_r.len() != n {
            return Err(ProofError::LengthMismatch);
        }
        let g_vec = make_generators(h, n);
        let h_vec = make_generators(g, n);
        let a = match commit_bits(v, n, &blinding.alpha, g, &g_vec, &h_vec) {
            Ok(a) => a,
            Err(e) => {
                return Err(e);
            },
        };
        let s = match commit_blinding(&blinding.rho, &blinding.s_l, &blinding.s_r, g, &g_vec, &h_vec) {
            Ok(s) => s,
            Err(e) => {
                return Err(e);
            },
        };
        let (y, z) = bit_challenges(&a, &s);
        let poly = match Degree3Poly::from_bits(v, n, &y, &z, &blinding.s_l, &blinding.s_r) {
            Ok(poly) => poly,
            Err(e) => {
                return Err(e);
            },
        };
        let t1 = pedersen_commit(&poly.1, &blinding.tau1, h, g);
        let t2 = pedersen_commit(&poly.2, &blinding.tau2, h, g);
        let x = polynomial_challenge(&t1, &t2);

        let x_r = Residue::of(&x);
        let z_r = Residue::of(&z);
        let x2 = x_r.mul(&x_r);
        let z2 = z_r.mul(&z_r);
        let tau_x = Residue::of(&blinding.tau1).mul(&x_r).add(&Residue::of(&blinding.tau2).mul(&x2)).add(
            &z2.mul(&Residue::of(gamma)),
        );
        let mu = Residue::of(&blinding.alpha).add(&Residue::of(&blinding.rho).mul(&x_r));
        let t = poly.eval(&x);
        let l = match left_polynomial_at(v, n, &z, &blinding.s_l, &x) {
            Ok(l) => l,
            Err(e) => {
                return Err(e);
            },
        };
        let r = match right_polynomial_at(v, n, &y, &z, &blinding.s_r, &x) {
            Ok(r) => r,
            Err(e) => {
                return Err(e);
            },
        };
        proof {
            lemma_evaluate_reduced(
                coefficient0(v as int, n as nat, y@, z@),
                coefficient1(v as int, n as nat, y@, z@, blinding@.s_l, blinding@.s_r),
                coefficient2(n as nat, y@, blinding@.s_l, blinding@.s_r),
                x@,
            );
        }
        Ok(RangeProof { a, s, t1, t2, tau_x: tau_x.scalar, mu: mu.scalar, t, l, r })
    }

    /// Builds the proof that `v` lies in `0 .. 2^n` with fresh random
    /// scalars from `rng`. `g` is the base point that carries blinding
    /// factors, `h` the one that carries values, and `gamma` the blinding
    /// factor of the value commitment `V = v·H + gamma·G`.
    ///
    /// A value that does not fit in `n` bits is refused before any
    /// randomness is drawn: the generator is then left as it was. A failure
    /// of the generator ends the attempt.
    pub fn generate_proof(
        v: u64,
        n: usize,
        g: &GroupElement,
        h: &GroupElement,
        gamma: &Scalar,
        rng: &mut rand::rngs::StdRng,
    ) -> (r: Result<RangeProof, ProofError>)
        ensures
            v >= power(2, n as nat) <==> r == Err::<RangeProof, ProofError>(ProofError::ValueOutOfRange),
            v >= power(2, n as nat) ==> *final(rng) == *old(rng),
            r is Err && v < power(2, n as nat) ==> r == Err::<RangeProof, ProofError>(
                ProofError::RandomnessUnavailable,
            ),
            r matches Ok(p) ==> exists|w: BlindingValues|
                {
                    &&& w.s_l.len() == n
                    &&& w.s_r.len() == n
                    &&& w.in_range()
                    &&& #[trigger] p.is_proof_of(v as int, n as nat, g@, h@, gamma@, w)
                },
    {
        if !fits_in_bits(v, n) {
            return Err(ProofError::ValueOutOfRange);
        }
        let blinding = match Blinding::random(n, rng) {
            Ok(b) => b,
            Err(_) => {
                return Err(ProofError::RandomnessUnavailable);
            },
        };
        let r = RangeProof::prove(v, n, g, h, gamma, &blinding);
        proof {
            if r.is_ok() {
                assert(blinding@.s_l.len() == n && blinding@.s_r.len() == n);
                assert(r.unwrap().is_proof_of(v as int, n as nat, g@, h@, gamma@, blinding@));
            }
        }
        r
    }

    /// The scalars that the disclosed vectors put on the generators, for
    /// the challenge `z` and the inverse `y_inv` of the challenge `y`.
    fn opening_weights(&self, y_inv: &Scalar, z: &Scalar) -> (w: (Vec<Scalar>, Vec<Scalar>))
        requires
            self.l.len() == self.r.len(),
        ensures
            scalar_values(w.0@) == left_weights(scalar_values(self.l@), z@),
            scalar_values(w.1@) == right_weights(scalar_values(self.r@), y_inv@, z@),
    {
        let n = self.l.len();
        let inv = Residue::of(y_inv);
        let z_r = Residue::of(z);
        let z2 = z_r.mul(&z_r);
        let mut exp_inv = Residue::of_u64(1);
        let mut exp_2 = Residue::of_u64(1);
        let mut on_g: Vec<Scalar> = Vec::new();
        let mut on_h: Vec<Scalar> = Vec::new();
        let mut i: usize = 0;
        while i < n
            invariant
                i <= n,
                n == self.l.len(),
                n == self.r.len(),
                inv.wf() && inv.meaning() == y_inv@,
                z_r.wf() && z_r.meaning() == z@,
                z2.wf() && z2.meaning() == z@ * z@,
                exp_inv.wf() && exp_inv.meaning() == power(y_inv@, i as nat),
                exp_2.wf() && exp_2.meaning() == power(2, i as nat),
                on_g.len() == i,
                on_h.len() == i,
                forall|j: int| 0 <= j < i ==> #[trigger] on_g[j]@ == reduce(self.l[j]@ + z@),
                forall|j: int|
                    0 <= j < i ==> #[trigger] on_h[j]@ == reduce(
                        power(y_inv@, j as nat) * (self.r[j]@ - z@ * z@ * power(2, j as nat)) - z@,
                    ),
            decreases n - i,
        {
            proof {
                assert(power(y_inv@, i as nat) * y_inv@ == power(y_inv@, (i + 1) as nat));
                assert(power(2, i as nat) + power(2, i as nat) == power(2, (i + 1) as nat));
            }
            let l_i = Residue::of(&self.l[i]);
            let r_i = Residue::of(&self.r[i]);
            on_g.push(l_i.add(&z_r).scalar);
            on_h.push(exp_inv.mul(&r_i.sub(&z2.mul(&exp_2))).sub(&z_r).scalar);
            exp_inv = exp_inv.mul(&inv);
            exp_2 = exp_2.add(&exp_2);
            i += 1;
        }
        assert(scalar_values(on_g@) =~= left_weights(scalar_values(self.l@), z@));
        assert(scalar_values(on_h@) =~= right_weights(scalar_values(self.r@), y_inv@, z@));
        (on_g, on_h)
    }

    /// Checks the proof against the value commitment `V`, for the bit length
    /// `n` and the base points `g` and `h` that prover and verifier agreed
    /// on. The challenges are recomputed from the commitments in the proof.
    /// The proof is valid where all of these hold, and is refused with
    /// `InvalidProof` where one does not:
    ///
    /// - the vectors `l` and `r` hold `n` scalars each, and `y` is not zero;
    /// - `t == ⟨l, r⟩`;
    /// - `t·H + tau_x·G == delta(y, z)·H + z²·V + x·T1 + x²·T2`;
    /// - `A + x·S == mu·G + Σ (l[i] + z)·Gvec[i] + Σ (y^(-i)·(r[i] − z²·2^i) − z)·Hvec[i]`,
    ///   where `Gvec` is derived from `h` and `Hvec` from `g`.
    pub fn verify_proof(&self, value_commitment: &GroupElement, n: usize, g: &GroupElement, h: &GroupElement) -> (r:
        Result<(), ProofError>)
        ensures
            r.is_ok() <==> self.satisfies(value_commitment@, n as nat, g@, h@),
            r.is_err() <==> r == Err::<(), ProofError>(ProofError::InvalidProof),
    {
        if self.l.len() != n || self.r.len() != n {
            return Err(ProofError::InvalidProof);
        }
        let (y, z) = bit_challenges(&self.a, &self.s);
        let x = polynomial_challenge(&self.t1, &self.t2);
        let y_inv = match y.invert() {
            Some(k) => k,
            None => {
                return Err(ProofError::InvalidProof);
            },
        };
        // t == <l, r>
        match inner_product_of(&self.l, &self.r) {
            Ok(product) => {
                if !self.t.equals(&product) {
                    return Err(ProofError::InvalidProof);
                }
            },
            Err(_) => {
                return Err(ProofError::InvalidProof);
            },
        }
        // t·H + tau_x·G == delta·H + z²·V + x·T1 + x²·T2
        let d = delta_term(n, &y, &z);
        let z2 = z.mul(&z);
        let x2 = x.mul(&x);
        let left = pedersen_commit(&self.t, &self.tau_x, h, g);
        let right = h.scale(&d).add(&value_commitment.scale(&z2)).add(&self.t1.scale(&x)).add(&self.t2.scale(&x2));
        if !left.equals(&right) {
            return Err(ProofError::InvalidProof);
        }
        // A + x·S == mu·G + Σ (l[i] + z)·Gvec[i] + Σ (y^(-i)·(r[i] − z²·2^i) − z)·Hvec[i]
        let g_vec = make_generators(h, n);
        let h_vec = make_generators(g, n);
        let (on_g, on_h) = self.opening_weights(&y_inv, &z);
        let committed = self.a.add(&self.s.scale(&x));
        let opened = match commit_blinding(&self.mu, &on_g, &on_h, g, &g_vec, &h_vec) {
            Ok(p) => p,
            Err(_) => {
                return Err(ProofError::InvalidProof);
            },
        };
        if committed.equals(&opened) {
            Ok(())
        } else {
            Err(ProofError::InvalidProof)
        }
    }
}

} // verus!
