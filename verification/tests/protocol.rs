use rand::rngs::StdRng;
use rand::SeedableRng;
use range_proof::commitment::{commit_bits, commit_blinding};
use range_proof::group::pedersen_commit;
use range_proof::polynomial::{left_polynomial_at, right_polynomial_at};
use range_proof::encoding::PROOF_BYTES;
use range_proof::protocol::{delta_term, fits_in_bits, value_commitment};
use range_proof::randomness::{random_scalar, random_scalars, scalar_from_draw};
use range_proof::transcript::{bit_challenges, polynomial_challenge};
use range_proof::{inner_product, make_generators, Blinding, Degree3Poly, GroupElement, ProofError, RangeProof, Scalar};

fn bases() -> (GroupElement, GroupElement) {
    (GroupElement::hash_from_bytes(b"blinding base"), GroupElement::hash_from_bytes(b"value base"))
}

fn blinding(n: usize, seed: u64) -> Blinding {
    Blinding::random(n, &mut StdRng::seed_from_u64(seed)).unwrap()
}

#[test]
fn test_t() {
    let b = GroupElement::hash_from_bytes("hello".as_bytes());
    let a = GroupElement::hash_from_bytes("hello".as_bytes());
    let mut rng = StdRng::seed_from_u64(0);
    let gamma = random_scalar(&mut rng).unwrap();

    let rp = RangeProof::generate_proof(153, 5, &b, &a, &gamma, &mut rng);
    assert_eq!(rp, Err(ProofError::ValueOutOfRange));
}

#[test]
fn fits_in_bits_compares_with_the_power_of_two() {
    assert!(fits_in_bits(0, 0));
    assert!(!fits_in_bits(1, 0));
    assert!(fits_in_bits(1, 1));
    assert!(!fits_in_bits(2, 1));
    assert!(fits_in_bits(31, 5));
    assert!(!fits_in_bits(32, 5));
    assert!(!fits_in_bits(153, 5));
    assert!(fits_in_bits(153, 8));
    assert!(fits_in_bits(u64::MAX >> 1, 63));
    assert!(!fits_in_bits(1 << 63, 63));
    assert!(fits_in_bits(u64::MAX, 64));
    assert!(fits_in_bits(u64::MAX, 65));
    assert!(fits_in_bits(u64::MAX, 1000));
}

#[test]
fn generated_proofs_verify() {
    let (g, h) = bases();
    let mut rng = StdRng::seed_from_u64(7);
    for &n in &[1usize, 8, 32, 64] {
        let top = if n == 64 { u64::MAX } else { (1u64 << n) - 1 };
        for v in [0, 1 % (top + (top == 0) as u64), top / 3, top / 2 + 1, top - (top > 0) as u64, top] {
            let v = v.min(top);
            let gamma = random_scalar(&mut rng).unwrap();
            let proof = RangeProof::generate_proof(v, n, &g, &h, &gamma, &mut rng).unwrap();
            let commitment = value_commitment(v, &gamma, &g, &h);
            assert_eq!(proof.verify_proof(&commitment, n, &g, &h), Ok(()));
        }
    }
}

#[test]
fn proof_over_no_bits_verifies_for_zero() {
    let (g, h) = bases();
    let mut rng = StdRng::seed_from_u64(8);
    let gamma = random_scalar(&mut rng).unwrap();
    let proof = RangeProof::generate_proof(0, 0, &g, &h, &gamma, &mut rng).unwrap();
    assert_eq!(proof.verify_proof(&value_commitment(0, &gamma, &g, &h), 0, &g, &h), Ok(()));
    assert_eq!(RangeProof::generate_proof(1, 0, &g, &h, &gamma, &mut rng), Err(ProofError::ValueOutOfRange));
}

#[test]
fn values_that_do_not_fit_are_refused() {
    let (g, h) = bases();
    let mut rng = StdRng::seed_from_u64(9);
    let gamma = Scalar::from_u64(1);
    assert_eq!(RangeProof::generate_proof(153, 5, &g, &h, &gamma, &mut rng), Err(ProofError::ValueOutOfRange));
    assert_eq!(RangeProof::generate_proof(32, 5, &g, &h, &gamma, &mut rng), Err(ProofError::ValueOutOfRange));
    assert_eq!(RangeProof::generate_proof(2, 1, &g, &h, &gamma, &mut rng), Err(ProofError::ValueOutOfRange));
    assert_eq!(RangeProof::generate_proof(1 << 63, 63, &g, &h, &gamma, &mut rng), Err(ProofError::ValueOutOfRange));
    assert!(RangeProof::generate_proof(31, 5, &g, &h, &gamma, &mut rng).is_ok());
    assert_eq!(RangeProof::prove(153, 5, &g, &h, &gamma, &blinding(5, 1)), Err(ProofError::ValueOutOfRange));
}

#[test]
fn refusing_a_value_draws_no_randomness() {
    let (g, h) = bases();
    let gamma = Scalar::from_u64(1);
    let mut used = StdRng::seed_from_u64(10);
    let mut fresh = StdRng::seed_from_u64(10);
    assert!(RangeProof::generate_proof(153, 5, &g, &h, &gamma, &mut used).is_err());
    assert_eq!(random_scalar(&mut used), random_scalar(&mut fresh));
}

#[test]
fn the_range_check_comes_before_the_length_check() {
    let (g, h) = bases();
    let gamma = Scalar::from_u64(1);
    assert_eq!(RangeProof::prove(153, 5, &g, &h, &gamma, &blinding(4, 1)), Err(ProofError::ValueOutOfRange));
}

#[test]
fn blinding_of_the_wrong_length_is_refused() {
    let (g, h) = bases();
    let gamma = Scalar::from_u64(1);
    assert_eq!(RangeProof::prove(5, 3, &g, &h, &gamma, &blinding(2, 1)), Err(ProofError::LengthMismatch));
    assert_eq!(RangeProof::prove(5, 3, &g, &h, &gamma, &blinding(4, 1)), Err(ProofError::LengthMismatch));
    let mut uneven = blinding(3, 1);
    uneven.s_r.pop();
    assert_eq!(RangeProof::prove(5, 3, &g, &h, &gamma, &uneven), Err(ProofError::LengthMismatch));
    assert!(RangeProof::prove(5, 3, &g, &h, &gamma, &blinding(3, 1)).is_ok());
}

#[test]
fn a_failed_draw_is_reported() {
    assert_eq!(scalar_from_draw(Err(rand::Error::new("no entropy"))), Err(ProofError::RandomnessUnavailable));
    let mut wide = [0u8; 64];
    wide[0] = 3;
    assert_eq!(scalar_from_draw(Ok(wide)), Ok(Scalar::from_u64(3)));
}

#[test]
fn random_scalars_differ_and_follow_the_seed() {
    let mut rng = StdRng::seed_from_u64(11);
    let scalars = random_scalars(6, &mut rng).unwrap();
    assert_eq!(scalars.len(), 6);
    for i in 0..6 {
        for j in 0..i {
            assert_ne!(scalars[i], scalars[j]);
        }
    }
    assert_eq!(random_scalars(6, &mut StdRng::seed_from_u64(11)).unwrap(), scalars);
    assert_eq!(random_scalars(0, &mut rng), Ok(Vec::new()));
}

#[test]
fn blinding_is_drawn_in_a_fixed_order() {
    let drawn = blinding(3, 12);
    let mut rng = StdRng::seed_from_u64(12);
    assert_eq!(drawn.alpha, random_scalar(&mut rng).unwrap());
    assert_eq!(drawn.rho, random_scalar(&mut rng).unwrap());
    assert_eq!(drawn.s_l, random_scalars(3, &mut rng).unwrap());
    assert_eq!(drawn.s_r, random_scalars(3, &mut rng).unwrap());
    assert_eq!(drawn.tau1, random_scalar(&mut rng).unwrap());
    assert_eq!(drawn.tau2, random_scalar(&mut rng).unwrap());
}

#[test]
fn same_seed_gives_the_same_proof_bytes() {
    let (g, h) = bases();
    let gamma = Scalar::from_u64(99);
    let first = RangeProof::generate_proof(5, 3, &g, &h, &gamma, &mut StdRng::seed_from_u64(2024)).unwrap();
    let second = RangeProof::generate_proof(5, 3, &g, &h, &gamma, &mut StdRng::seed_from_u64(2024)).unwrap();
    assert_eq!(first.to_bytes(), second.to_bytes());
    assert_eq!(first.verify_proof(&value_commitment(5, &gamma, &g, &h), 3, &g, &h), Ok(()));
    let other = RangeProof::generate_proof(5, 3, &g, &h, &gamma, &mut StdRng::seed_from_u64(2025)).unwrap();
    assert_ne!(first.to_bytes(), other.to_bytes());
}

#[test]
fn generate_proof_is_prove_with_drawn_blinding() {
    let (g, h) = bases();
    let gamma = Scalar::from_u64(99);
    let generated = RangeProof::generate_proof(5, 3, &g, &h, &gamma, &mut StdRng::seed_from_u64(13)).unwrap();
    let proved = RangeProof::prove(5, 3, &g, &h, &gamma, &blinding(3, 13)).unwrap();
    assert_eq!(generated, proved);
}

#[test]
fn proof_fields_follow_their_formulas() {
    let (g, h) = bases();
    let gamma = Scalar::from_u64(4242);
    let w = blinding(3, 14);
    let proof = RangeProof::prove(5, 3, &g, &h, &gamma, &w).unwrap();

    let g_vec = make_generators(&h, 3);
    let h_vec = make_generators(&g, 3);
    // A = alpha·G + Gvec[0] - Hvec[1] + Gvec[2] for v = 0b101
    let a = g.scale(&w.alpha).add(&g_vec[0]).add(&h_vec[1].neg()).add(&g_vec[2]);
    assert_eq!(proof.a, a);
    assert_eq!(commit_bits(5, 3, &w.alpha, &g, &g_vec, &h_vec), Ok(a));
    // S = rho·G + Σ sL[i]·Gvec[i] + Σ sR[i]·Hvec[i]
    let mut s = g.scale(&w.rho);
    for i in 0..3 {
        s = s.add(&g_vec[i].scale(&w.s_l[i]));
    }
    for i in 0..3 {
        s = s.add(&h_vec[i].scale(&w.s_r[i]));
    }
    assert_eq!(proof.s, s);
    assert_eq!(commit_blinding(&w.rho, &w.s_l, &w.s_r, &g, &g_vec, &h_vec), Ok(s));

    let (y, z) = bit_challenges(&proof.a, &proof.s);
    let t = Degree3Poly::from_bits(5, 3, &y, &z, &w.s_l, &w.s_r).unwrap();
    assert_eq!(proof.t1, pedersen_commit(&t.1, &w.tau1, &h, &g));
    assert_eq!(proof.t2, pedersen_commit(&t.2, &w.tau2, &h, &g));
    let x = polynomial_challenge(&proof.t1, &proof.t2);
    assert_eq!(proof.tau_x, w.tau1.mul(&x).add(&w.tau2.mul(&x).mul(&x)).add(&z.mul(&z).mul(&gamma)));
    assert_eq!(proof.mu, w.alpha.add(&w.rho.mul(&x)));
    assert_eq!(proof.t, t.eval(&x));
    assert_eq!(proof.l, left_polynomial_at(5, 3, &z, &w.s_l, &x).unwrap());
    assert_eq!(proof.r, right_polynomial_at(5, 3, &y, &z, &w.s_r, &x).unwrap());
}

#[test]
fn commitments_refuse_vectors_of_the_wrong_length() {
    let (g, h) = bases();
    let w = blinding(3, 15);
    let three = make_generators(&h, 3);
    let two = make_generators(&g, 2);
    assert_eq!(commit_bits(5, 3, &w.alpha, &g, &three, &two), Err(ProofError::LengthMismatch));
    assert_eq!(commit_bits(5, 3, &w.alpha, &g, &two, &three), Err(ProofError::LengthMismatch));
    assert_eq!(commit_bits(5, 2, &w.alpha, &g, &three, &three), Err(ProofError::LengthMismatch));
    assert_eq!(commit_blinding(&w.rho, &w.s_l, &w.s_r, &h, &three, &two), Err(ProofError::LengthMismatch));
    assert_eq!(commit_blinding(&w.rho, &w.s_l, &w.s_r, &h, &two, &three), Err(ProofError::LengthMismatch));
}

#[test]
fn a_proof_does_not_verify_for_another_statement() {
    let (g, h) = bases();
    let gamma = Scalar::from_u64(77);
    let proof = RangeProof::generate_proof(5, 3, &g, &h, &gamma, &mut StdRng::seed_from_u64(16)).unwrap();
    let commitment = value_commitment(5, &gamma, &g, &h);
    assert_eq!(proof.verify_proof(&commitment, 3, &g, &h), Ok(()));
    // another value, another blinding factor
    assert_eq!(proof.verify_proof(&value_commitment(6, &gamma, &g, &h), 3, &g, &h), Err(ProofError::InvalidProof));
    assert_eq!(
        proof.verify_proof(&value_commitment(5, &Scalar::from_u64(78), &g, &h), 3, &g, &h),
        Err(ProofError::InvalidProof)
    );
    // another bit length, other base points
    assert_eq!(proof.verify_proof(&commitment, 4, &g, &h), Err(ProofError::InvalidProof));
    assert_eq!(proof.verify_proof(&commitment, 3, &h, &g), Err(ProofError::InvalidProof));
    let other = GroupElement::hash_from_bytes(b"other base");
    assert_eq!(proof.verify_proof(&commitment, 3, &other, &h), Err(ProofError::InvalidProof));
    assert_eq!(proof.verify_proof(&commitment, 3, &g, &other), Err(ProofError::InvalidProof));
}

#[test]
fn a_changed_field_invalidates_the_proof() {
    let (g, h) = bases();
    let gamma = Scalar::from_u64(77);
    let proof = RangeProof::generate_proof(5, 3, &g, &h, &gamma, &mut StdRng::seed_from_u64(17)).unwrap();
    let commitment = value_commitment(5, &gamma, &g, &h);
    assert_eq!(proof.verify_proof(&commitment, 3, &g, &h), Ok(()));
    let mut changed = proof.clone();
    changed.t = proof.t.add(&Scalar::one());
    assert_eq!(changed.verify_proof(&commitment, 3, &g, &h), Err(ProofError::InvalidProof));
    let mut changed = proof.clone();
    changed.tau_x = proof.tau_x.add(&Scalar::one());
    assert_eq!(changed.verify_proof(&commitment, 3, &g, &h), Err(ProofError::InvalidProof));
    let mut changed = proof.clone();
    changed.mu = proof.mu.add(&Scalar::one());
    assert_eq!(changed.verify_proof(&commitment, 3, &g, &h), Err(ProofError::InvalidProof));
    let mut changed = proof.clone();
    changed.a = proof.a.add(&g);
    assert_eq!(changed.verify_proof(&commitment, 3, &g, &h), Err(ProofError::InvalidProof));
    let mut changed = proof.clone();
    changed.s = proof.s.neg();
    assert_eq!(changed.verify_proof(&commitment, 3, &g, &h), Err(ProofError::InvalidProof));
    let mut changed = proof.clone();
    changed.t1 = proof.t2;
    assert_eq!(changed.verify_proof(&commitment, 3, &g, &h), Err(ProofError::InvalidProof));
    let mut changed = proof.clone();
    changed.t2 = proof.t2.add(&h);
    assert_eq!(changed.verify_proof(&commitment, 3, &g, &h), Err(ProofError::InvalidProof));
}

#[test]
fn changed_vectors_invalidate_the_proof() {
    let (g, h) = bases();
    let gamma = Scalar::from_u64(77);
    let proof = RangeProof::generate_proof(5, 3, &g, &h, &gamma, &mut StdRng::seed_from_u64(26)).unwrap();
    let commitment = value_commitment(5, &gamma, &g, &h);
    for i in 0..3 {
        let mut changed = proof.clone();
        changed.l[i] = proof.l[i].add(&Scalar::one());
        assert_eq!(changed.verify_proof(&commitment, 3, &g, &h), Err(ProofError::InvalidProof));
        let mut changed = proof.clone();
        changed.r[i] = proof.r[i].add(&Scalar::one());
        assert_eq!(changed.verify_proof(&commitment, 3, &g, &h), Err(ProofError::InvalidProof));
    }
    // vectors with the same inner product, which do not open A + x·S
    let mut changed = proof.clone();
    changed.l.swap(0, 1);
    changed.r.swap(0, 1);
    assert_eq!(inner_product(changed.l.clone(), changed.r.clone()), Ok(proof.t));
    assert_eq!(changed.verify_proof(&commitment, 3, &g, &h), Err(ProofError::InvalidProof));
    // vectors of another length
    let mut changed = proof.clone();
    changed.l.pop();
    changed.r.pop();
    assert_eq!(changed.verify_proof(&commitment, 3, &g, &h), Err(ProofError::InvalidProof));
    assert_eq!(changed.verify_proof(&commitment, 2, &g, &h), Err(ProofError::InvalidProof));
    let mut changed = proof.clone();
    changed.l.push(Scalar::zero());
    assert_eq!(changed.verify_proof(&commitment, 3, &g, &h), Err(ProofError::InvalidProof));
}

#[test]
fn a_proof_for_a_value_that_does_not_fit_is_rejected() {
    // the prover's equations, carried out for v = 5 with two bits only
    let (g, h) = bases();
    let gamma = Scalar::from_u64(77);
    let w = blinding(2, 27);
    let honest = RangeProof::prove(1, 2, &g, &h, &gamma, &w).unwrap();
    assert_eq!(honest.verify_proof(&value_commitment(1, &gamma, &g, &h), 2, &g, &h), Ok(()));
    assert_eq!(honest.verify_proof(&value_commitment(5, &gamma, &g, &h), 2, &g, &h), Err(ProofError::InvalidProof));
}

#[test]
fn every_flipped_bit_is_rejected() {
    let (g, h) = bases();
    let gamma = Scalar::from_u64(77);
    let proof = RangeProof::generate_proof(5, 3, &g, &h, &gamma, &mut StdRng::seed_from_u64(18)).unwrap();
    let commitment = value_commitment(5, &gamma, &g, &h);
    let bytes = proof.to_bytes();
    assert_eq!(bytes.len(), PROOF_BYTES + 64 * 3);
    for index in 0..bytes.len() {
        let mut flipped = bytes.clone();
        flipped[index] ^= 1 << (index % 8);
        match RangeProof::from_bytes(&flipped) {
            Ok(decoded) => {
                assert_ne!(decoded, proof);
                assert_eq!(decoded.verify_proof(&commitment, 3, &g, &h), Err(ProofError::InvalidProof));
            }
            Err(e) => assert_eq!(e, ProofError::DecodeError),
        }
    }
}

#[test]
fn flipped_bits_of_mu_are_rejected() {
    let (g, h) = bases();
    let gamma = Scalar::from_u64(77);
    let proof = RangeProof::generate_proof(1, 2, &g, &h, &gamma, &mut StdRng::seed_from_u64(19)).unwrap();
    let commitment = value_commitment(1, &gamma, &g, &h);
    assert_eq!(proof.verify_proof(&commitment, 2, &g, &h), Ok(()));
    let bytes = proof.to_bytes();
    for bit in [0usize, 1, 7, 8, 63, 128, 250, 255] {
        let mut flipped = bytes.clone();
        flipped[160 + bit / 8] ^= 1 << (bit % 8);
        match RangeProof::from_bytes(&flipped) {
            Ok(decoded) => {
                assert_eq!(decoded.mu.to_bytes()[bit / 8], proof.mu.to_bytes()[bit / 8] ^ (1 << (bit % 8)));
                assert_eq!(decoded.verify_proof(&commitment, 2, &g, &h), Err(ProofError::InvalidProof))
            }
            Err(e) => assert_eq!(e, ProofError::DecodeError),
        }
    }
}

#[test]
fn encoding_is_the_fields_in_order() {
    let (g, h) = bases();
    let proof = RangeProof::generate_proof(5, 3, &g, &h, &Scalar::from_u64(1), &mut StdRng::seed_from_u64(20)).unwrap();
    let bytes = proof.to_bytes();
    assert_eq!(PROOF_BYTES, 224);
    assert_eq!(bytes.len(), 224 + 64 * 3);
    for i in 0..3 {
        assert_eq!(bytes[224 + 32 * i..256 + 32 * i], proof.l[i].to_bytes());
        assert_eq!(bytes[320 + 32 * i..352 + 32 * i], proof.r[i].to_bytes());
    }
    assert_eq!(bytes[0..32], proof.a.to_bytes());
    assert_eq!(bytes[32..64], proof.s.to_bytes());
    assert_eq!(bytes[64..96], proof.t1.to_bytes());
    assert_eq!(bytes[96..128], proof.t2.to_bytes());
    assert_eq!(bytes[128..160], proof.tau_x.to_bytes());
    assert_eq!(bytes[160..192], proof.mu.to_bytes());
    assert_eq!(bytes[192..224], proof.t.to_bytes());
}

#[test]
fn decoding_inverts_encoding() {
    let (g, h) = bases();
    let gamma = Scalar::from_u64(1);
    let proof = RangeProof::generate_proof(200, 8, &g, &h, &gamma, &mut StdRng::seed_from_u64(21)).unwrap();
    assert_eq!(RangeProof::from_bytes(&proof.to_bytes()), Ok(proof.clone()));
    assert_eq!(RangeProof::from_bytes(&proof.to_bytes()).unwrap().to_bytes(), proof.to_bytes());
}

#[test]
fn malformed_encodings_are_refused() {
    let (g, h) = bases();
    let proof = RangeProof::generate_proof(5, 3, &g, &h, &Scalar::from_u64(1), &mut StdRng::seed_from_u64(22)).unwrap();
    let bytes = proof.to_bytes();
    // truncated, empty, too long
    assert_eq!(RangeProof::from_bytes(&bytes[..bytes.len() - 1]), Err(ProofError::DecodeError));
    assert_eq!(RangeProof::from_bytes(&bytes[..bytes.len() - 32]), Err(ProofError::DecodeError));
    assert_eq!(RangeProof::from_bytes(&bytes[..223]), Err(ProofError::DecodeError));
    assert_eq!(RangeProof::from_bytes(&bytes[..32]), Err(ProofError::DecodeError));
    assert_eq!(RangeProof::from_bytes(&[]), Err(ProofError::DecodeError));
    let mut long = bytes.clone();
    long.push(0);
    assert_eq!(RangeProof::from_bytes(&long), Err(ProofError::DecodeError));
    // a block that is no group element
    for start in [0usize, 32, 64, 96] {
        let mut bad = bytes.clone();
        bad[start..start + 32].copy_from_slice(&[0xff; 32]);
        assert_eq!(RangeProof::from_bytes(&bad), Err(ProofError::DecodeError));
    }
    // a block that is no canonical scalar
    for start in [128usize, 160, 192, 224, 256, 384] {
        let mut bad = bytes.clone();
        bad[start..start + 32].copy_from_slice(&[0xff; 32]);
        assert_eq!(RangeProof::from_bytes(&bad), Err(ProofError::DecodeError));
    }
}

#[test]
fn value_commitment_is_v_times_h_plus_gamma_times_g() {
    let (g, h) = bases();
    let gamma = Scalar::from_u64(1234);
    let expected = h.scale(&Scalar::from_u64(5)).add(&g.scale(&gamma));
    assert_eq!(value_commitment(5, &gamma, &g, &h), expected);
    assert_ne!(value_commitment(5, &gamma, &g, &h), value_commitment(5, &gamma, &h, &g));
}

#[test]
fn the_vectors_of_an_honest_proof_have_t_as_their_inner_product() {
    let (g, h) = bases();
    let gamma = Scalar::from_u64(5);
    for &(v, n) in &[(0u64, 0usize), (1, 1), (5, 3), (153, 8), (0xdead_beef, 32), (u64::MAX, 64)] {
        let w = blinding(n, 23 + n as u64);
        let proof = RangeProof::prove(v, n, &g, &h, &gamma, &w).unwrap();
        assert_eq!(proof.l.len(), n);
        assert_eq!(proof.r.len(), n);
        assert_eq!(inner_product(proof.l.clone(), proof.r.clone()), Ok(proof.t));
    }
}

#[test]
fn vector_entries_follow_their_formulas() {
    let (g, h) = bases();
    let gamma = Scalar::from_u64(5);
    let w = blinding(2, 25);
    // v = 0b10: aL = [0, 1], aR = [-1, 0]
    let proof = RangeProof::prove(2, 2, &g, &h, &gamma, &w).unwrap();
    let (y, z) = bit_challenges(&proof.a, &proof.s);
    let x = polynomial_challenge(&proof.t1, &proof.t2);
    let z2 = z.mul(&z);
    let two = Scalar::from_u64(2);
    assert_eq!(proof.l[0], z.neg().add(&w.s_l[0].mul(&x)));
    assert_eq!(proof.l[1], Scalar::one().sub(&z).add(&w.s_l[1].mul(&x)));
    assert_eq!(proof.r[0], z.sub(&Scalar::one()).add(&w.s_r[0].mul(&x)).add(&z2));
    assert_eq!(proof.r[1], y.mul(&z.add(&w.s_r[1].mul(&x))).add(&z2.mul(&two)));
}

#[test]
fn decoded_proofs_verify() {
    let (g, h) = bases();
    let gamma = Scalar::from_u64(5);
    for &(v, n) in &[(0u64, 0usize), (1, 1), (200, 8)] {
        let proof = RangeProof::generate_proof(v, n, &g, &h, &gamma, &mut StdRng::seed_from_u64(28)).unwrap();
        let bytes = proof.to_bytes();
        assert_eq!(bytes.len(), PROOF_BYTES + 64 * n);
        let decoded = RangeProof::from_bytes(&bytes).unwrap();
        assert_eq!(decoded, proof);
        assert_eq!(decoded.verify_proof(&value_commitment(v, &gamma, &g, &h), n, &g, &h), Ok(()));
    }
}

#[test]
fn a_forged_proof_for_a_value_out_of_range_is_rejected() {
    // Whoever can open V can balance the aggregate equation for any value:
    // with T1 = tau1·G and T2 = tau2·G, take t = delta + z²·v and
    // tau_x = z²·gamma + x·tau1 + x²·tau2. Here v = 5 does not fit in 2 bits.
    let (g, h) = bases();
    let gamma = Scalar::from_u64(77);
    let commitment = value_commitment(5, &gamma, &g, &h);
    let w = blinding(2, 29);
    let honest = RangeProof::prove(1, 2, &g, &h, &gamma, &w).unwrap();
    let (y, z) = bit_challenges(&honest.a, &honest.s);
    let t1 = pedersen_commit(&Scalar::zero(), &w.tau1, &h, &g);
    let t2 = pedersen_commit(&Scalar::zero(), &w.tau2, &h, &g);
    let x = polynomial_challenge(&t1, &t2);
    let z2 = z.mul(&z);
    let t = delta_term(2, &y, &z).add(&z2.mul(&Scalar::from_u64(5)));
    let tau_x = z2.mul(&gamma).add(&x.mul(&w.tau1)).add(&x.mul(&x).mul(&w.tau2));
    let mu = w.alpha.add(&w.rho.mul(&x));
    let l = left_polynomial_at(1, 2, &z, &w.s_l, &x).unwrap();
    let r = right_polynomial_at(1, 2, &y, &z, &w.s_r, &x).unwrap();
    // vectors that open A + x·S, whose inner product is not t
    let forged = RangeProof { a: honest.a, s: honest.s, t1, t2, tau_x, mu, t, l: l.clone(), r: r.clone() };
    assert_ne!(inner_product(l.clone(), r.clone()), Ok(t));
    assert_eq!(forged.verify_proof(&commitment, 2, &g, &h), Err(ProofError::InvalidProof));
    // vectors whose inner product is t, which do not open A + x·S
    let mut bent = l.clone();
    bent[0] = t.sub(&l[1].mul(&r[1])).mul(&r[0].invert().unwrap());
    assert_eq!(inner_product(bent.clone(), r.clone()), Ok(t));
    let forged = RangeProof { a: honest.a, s: honest.s, t1, t2, tau_x, mu, t, l: bent, r };
    assert_eq!(forged.verify_proof(&commitment, 2, &g, &h), Err(ProofError::InvalidProof));
}
