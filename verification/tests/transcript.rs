use curve25519_dalek::scalar::Scalar as DalekScalar;
use range_proof::transcript::{bit_challenges, challenge_scalar, polynomial_challenge};
use range_proof::{commit, derive_pair, GroupElement, Scalar};
use sha2::{Digest, Sha512};

fn reduced_sha512(input: &[u8]) -> [u8; 32] {
    let mut wide = [0u8; 64];
    wide.copy_from_slice(Sha512::digest(input).as_slice());
    DalekScalar::from_bytes_mod_order_wide(&wide).to_bytes()
}

#[test]
fn challenge_scalar_is_the_reduced_sha512_digest() {
    let input = b"transcript".to_vec();
    assert_eq!(challenge_scalar(&input).to_bytes(), reduced_sha512(b"transcript"));
    assert_eq!(challenge_scalar(&Vec::new()).to_bytes(), reduced_sha512(b""));
}

#[test]
fn commit_hashes_the_two_encodings_and_then_the_first_challenge() {
    let a = GroupElement::hash_from_bytes(b"a");
    let b = GroupElement::hash_from_bytes(b"b");
    let (c1, c2) = commit(&a, &b);
    let mut input = Vec::new();
    input.extend_from_slice(&a.to_bytes());
    input.extend_from_slice(&b.to_bytes());
    assert_eq!(c1.to_bytes(), reduced_sha512(&input));
    input.extend_from_slice(&c1.to_bytes());
    assert_eq!(c2.to_bytes(), reduced_sha512(&input));
}

#[test]
fn commit_depends_on_the_order_of_its_arguments() {
    let a = GroupElement::hash_from_bytes(b"a");
    let b = GroupElement::hash_from_bytes(b"b");
    assert_ne!(commit(&a, &b), commit(&b, &a));
    assert_eq!(commit(&a, &b), commit(&a, &b));
}

#[test]
fn derive_pair_puts_the_label_first() {
    let a = GroupElement::hash_from_bytes(b"a");
    let b = GroupElement::hash_from_bytes(b"b");
    let (c1, c2) = derive_pair(b"label", &a, &b);
    let mut input = b"label".to_vec();
    input.extend_from_slice(&a.to_bytes());
    input.extend_from_slice(&b.to_bytes());
    assert_eq!(c1.to_bytes(), reduced_sha512(&input));
    input.extend_from_slice(&c1.to_bytes());
    assert_eq!(c2.to_bytes(), reduced_sha512(&input));
}

#[test]
fn derive_pair_with_no_label_is_commit() {
    let a = GroupElement::hash_from_bytes(b"a");
    let b = GroupElement::hash_from_bytes(b"b");
    assert_eq!(derive_pair(b"", &a, &b), commit(&a, &b));
}

#[test]
fn the_two_rounds_use_different_labels() {
    let a = GroupElement::hash_from_bytes(b"a");
    let b = GroupElement::hash_from_bytes(b"b");
    let (y, z) = bit_challenges(&a, &b);
    let x = polynomial_challenge(&a, &b);
    assert_eq!((y, z), derive_pair(b"yz", &a, &b));
    assert_eq!(x, derive_pair(b"x", &a, &b).0);
    assert_ne!(x, y);
    assert_ne!(y, commit(&a, &b).0);
    assert_ne!(y, Scalar::zero());
}
