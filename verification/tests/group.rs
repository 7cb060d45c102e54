use curve25519_dalek::constants::{RISTRETTO_BASEPOINT_COMPRESSED, RISTRETTO_BASEPOINT_POINT};
use curve25519_dalek::ristretto::RistrettoPoint;
use curve25519_dalek::scalar::Scalar as DalekScalar;
use range_proof::group::{multiscalar_mul, pedersen_commit};
use range_proof::{GroupElement, Scalar};
use sha2::Sha512;

fn basepoint() -> GroupElement {
    GroupElement::from_bytes(RISTRETTO_BASEPOINT_COMPRESSED.to_bytes()).unwrap()
}

fn element(point: &RistrettoPoint) -> GroupElement {
    GroupElement::from_bytes(point.compress().to_bytes()).unwrap()
}

#[test]
fn canonical_encodings_decode_and_are_kept() {
    let bytes = RISTRETTO_BASEPOINT_COMPRESSED.to_bytes();
    assert_eq!(GroupElement::from_bytes(bytes).unwrap().to_bytes(), bytes);
    assert_eq!(GroupElement::from_bytes([0u8; 32]).unwrap().to_bytes(), [0u8; 32]);
}

#[test]
fn other_bytes_do_not_decode() {
    assert_eq!(GroupElement::from_bytes([0xff; 32]), None);
    let mut one = [0u8; 32];
    one[0] = 1;
    assert_eq!(GroupElement::from_bytes(one), None);
}

#[test]
fn hashing_to_the_group_matches_the_curve_library() {
    let expected = RistrettoPoint::hash_from_bytes::<Sha512>(b"hello");
    assert_eq!(GroupElement::hash_from_bytes(b"hello"), element(&expected));
    assert_ne!(GroupElement::hash_from_bytes(b"hello"), GroupElement::hash_from_bytes(b"hellp"));
}

#[test]
fn addition_matches_the_curve_library() {
    let p = RISTRETTO_BASEPOINT_POINT;
    let q = RistrettoPoint::hash_from_bytes::<Sha512>(b"q");
    assert_eq!(element(&p).add(&element(&q)), element(&(p + q)));
    assert_ne!(element(&p).add(&element(&q)), element(&p));
    assert_ne!(element(&p).add(&element(&q)), element(&q));
}

#[test]
fn adding_the_neutral_element_changes_nothing() {
    let neutral = GroupElement::from_bytes([0u8; 32]).unwrap();
    assert_eq!(basepoint().add(&neutral), basepoint());
    assert_eq!(neutral.add(&basepoint()), basepoint());
}

#[test]
fn negation_matches_the_curve_library() {
    let p = RISTRETTO_BASEPOINT_POINT;
    assert_eq!(basepoint().neg(), element(&(-p)));
    assert_ne!(basepoint().neg(), basepoint());
    assert_eq!(basepoint().neg().add(&basepoint()).to_bytes(), [0u8; 32]);
}

#[test]
fn scaling_matches_the_curve_library() {
    let p = RISTRETTO_BASEPOINT_POINT;
    assert_eq!(basepoint().scale(&Scalar::from_u64(3)), element(&(p + p + p)));
    assert_eq!(basepoint().scale(&Scalar::one()), basepoint());
    assert_eq!(basepoint().scale(&Scalar::zero()).to_bytes(), [0u8; 32]);
    let k = Scalar::from_bytes_mod_order_wide(&[0x77; 64]);
    let dk = DalekScalar::from_bytes_mod_order_wide(&[0x77; 64]);
    assert_eq!(basepoint().scale(&k), element(&(p * dk)));
}

#[test]
fn select_picks_by_the_flag() {
    let p = basepoint();
    let q = GroupElement::hash_from_bytes(b"q");
    assert_eq!(GroupElement::select(true, &p, &q), p);
    assert_eq!(GroupElement::select(false, &p, &q), q);
}

#[test]
fn equals_compares_encodings() {
    let p = basepoint();
    let q = GroupElement::hash_from_bytes(b"q");
    assert!(p.equals(&p));
    assert!(!p.equals(&q));
    assert!(p.add(&q).equals(&q.add(&p)));
}

#[test]
fn multiscalar_mul_is_the_sum_of_the_multiples() {
    let p = basepoint();
    let q = GroupElement::hash_from_bytes(b"q");
    let r = GroupElement::hash_from_bytes(b"r");
    let scalars = vec![Scalar::from_u64(2), Scalar::from_u64(3), Scalar::from_u64(5).neg()];
    let points = vec![p, q, r];
    let expected =
        p.scale(&scalars[0]).add(&q.scale(&scalars[1])).add(&r.scale(&scalars[2]));
    assert_eq!(multiscalar_mul(&scalars, &points), Some(expected));
}

#[test]
fn multiscalar_mul_of_nothing_is_the_neutral_element() {
    let combination = multiscalar_mul(&Vec::new(), &Vec::new()).unwrap();
    assert_eq!(combination.to_bytes(), [0u8; 32]);
}

#[test]
fn multiscalar_mul_refuses_unequal_lengths() {
    let scalars = vec![Scalar::one(), Scalar::one()];
    let points = vec![basepoint()];
    assert_eq!(multiscalar_mul(&scalars, &points), None);
    assert_eq!(multiscalar_mul(&Vec::new(), &points), None);
}

#[test]
fn pedersen_commitment_is_value_times_one_base_plus_blinding_times_the_other() {
    let g = basepoint();
    let h = GroupElement::hash_from_bytes(b"h");
    let value = Scalar::from_u64(17);
    let blinding = Scalar::from_u64(1_000_003);
    let expected = h.scale(&value).add(&g.scale(&blinding));
    assert_eq!(pedersen_commit(&value, &blinding, &h, &g), expected);
    assert_ne!(pedersen_commit(&value, &blinding, &h, &g), pedersen_commit(&blinding, &value, &h, &g));
}
