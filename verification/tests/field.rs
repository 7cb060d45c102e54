use curve25519_dalek::scalar::Scalar as DalekScalar;
use range_proof::Scalar;

// The group order, least significant byte first.
const ORDER: [u8; 32] = [
    0xed, 0xd3, 0xf5, 0x5c, 0x1a, 0x63, 0x12, 0x58, 0xd6, 0x9c, 0xf7, 0xa2, 0xde, 0xf9, 0xde, 0x14, 0x00, 0x00, 0x00,
    0x00, 0x00, 0x00, 0x00, 0x00, 0x00, 0x00, 0x00, 0x00, 0x00, 0x00, 0x00, 0x10,
];

fn order_minus_one() -> [u8; 32] {
    let mut bytes = ORDER;
    bytes[0] -= 1;
    bytes
}

#[test]
fn zero_and_one_have_the_expected_encodings() {
    assert_eq!(Scalar::zero().to_bytes(), [0u8; 32]);
    let mut one = [0u8; 32];
    one[0] = 1;
    assert_eq!(Scalar::one().to_bytes(), one);
}

#[test]
fn from_u64_is_little_endian() {
    let mut expected = [0u8; 32];
    expected[..8].copy_from_slice(&0x0102_0304_0506_0708u64.to_le_bytes());
    assert_eq!(Scalar::from_u64(0x0102_0304_0506_0708).to_bytes(), expected);
    assert_eq!(Scalar::from_u64(u64::MAX).to_bytes()[..8], [0xff; 8]);
    assert_eq!(Scalar::from_u64(u64::MAX).to_bytes()[8..], [0u8; 24]);
}

#[test]
fn addition_is_exact_on_small_values() {
    assert_eq!(Scalar::from_u64(40).add(&Scalar::from_u64(2)), Scalar::from_u64(42));
    assert_ne!(Scalar::from_u64(40).add(&Scalar::from_u64(2)), Scalar::from_u64(40));
}

#[test]
fn addition_wraps_at_the_group_order() {
    let top = Scalar::from_canonical_bytes(order_minus_one()).unwrap();
    assert_eq!(top.add(&Scalar::one()), Scalar::zero());
    assert_eq!(top.add(&Scalar::from_u64(5)), Scalar::from_u64(4));
}

#[test]
fn subtraction_is_exact_and_wraps() {
    assert_eq!(Scalar::from_u64(50).sub(&Scalar::from_u64(8)), Scalar::from_u64(42));
    let top = Scalar::from_canonical_bytes(order_minus_one()).unwrap();
    assert_eq!(Scalar::zero().sub(&Scalar::one()), top);
    assert_eq!(Scalar::from_u64(3).sub(&Scalar::from_u64(5)).add(&Scalar::from_u64(2)), Scalar::zero());
}

#[test]
fn multiplication_is_exact_on_small_values() {
    assert_eq!(Scalar::from_u64(6).mul(&Scalar::from_u64(7)), Scalar::from_u64(42));
    assert_eq!(Scalar::from_u64(6).mul(&Scalar::zero()), Scalar::zero());
    assert_eq!(Scalar::from_u64(6).mul(&Scalar::one()), Scalar::from_u64(6));
}

#[test]
fn multiplication_reduces_modulo_the_group_order() {
    // (l - 1)² = 1 (mod l)
    let top = Scalar::from_canonical_bytes(order_minus_one()).unwrap();
    assert_eq!(top.mul(&top), Scalar::one());
    // 2^64 · 2^64 = 2^128
    let two_64 = Scalar::from_u64(u64::MAX).add(&Scalar::one());
    let mut expected = [0u8; 32];
    expected[16] = 1;
    assert_eq!(two_64.mul(&two_64).to_bytes(), expected);
}

#[test]
fn negation_gives_the_additive_inverse() {
    let top = Scalar::from_canonical_bytes(order_minus_one()).unwrap();
    assert_eq!(Scalar::one().neg(), top);
    assert_eq!(Scalar::zero().neg(), Scalar::zero());
    let k = Scalar::from_u64(123_456_789);
    assert_eq!(k.neg().add(&k), Scalar::zero());
    assert_ne!(k.neg(), k);
}

#[test]
fn canonical_bytes_are_accepted_and_kept() {
    let bytes = order_minus_one();
    let top = Scalar::from_canonical_bytes(bytes).unwrap();
    assert_eq!(top.to_bytes(), bytes);
    let seven = Scalar::from_canonical_bytes(Scalar::from_u64(7).to_bytes()).unwrap();
    assert_eq!(seven, Scalar::from_u64(7));
}

#[test]
fn the_group_order_and_larger_integers_are_not_canonical() {
    assert_eq!(Scalar::from_canonical_bytes(ORDER), None);
    let mut above = ORDER;
    above[0] += 1;
    assert_eq!(Scalar::from_canonical_bytes(above), None);
    assert_eq!(Scalar::from_canonical_bytes([0xff; 32]), None);
    let mut high_bit = [0u8; 32];
    high_bit[31] = 0x80;
    assert_eq!(Scalar::from_canonical_bytes(high_bit), None);
}

#[test]
fn wide_bytes_are_reduced() {
    let mut wide = [0u8; 64];
    wide[0] = 9;
    assert_eq!(Scalar::from_bytes_mod_order_wide(&wide), Scalar::from_u64(9));
    // the group order itself reduces to zero
    let mut order = [0u8; 64];
    order[..32].copy_from_slice(&ORDER);
    assert_eq!(Scalar::from_bytes_mod_order_wide(&order), Scalar::zero());
    // 2^256 = (2^128)²
    let mut high = [0u8; 64];
    high[32] = 1;
    let two_64 = Scalar::from_u64(u64::MAX).add(&Scalar::one());
    let two_128 = two_64.mul(&two_64);
    assert_eq!(Scalar::from_bytes_mod_order_wide(&high), two_128.mul(&two_128));
}

#[test]
fn arithmetic_agrees_with_the_curve_library() {
    let a = Scalar::from_bytes_mod_order_wide(&[0x5a; 64]);
    let b = Scalar::from_bytes_mod_order_wide(&[0xc3; 64]);
    let da = DalekScalar::from_bytes_mod_order_wide(&[0x5a; 64]);
    let db = DalekScalar::from_bytes_mod_order_wide(&[0xc3; 64]);
    assert_eq!(a.to_bytes(), da.to_bytes());
    assert_eq!(a.add(&b).to_bytes(), (da + db).to_bytes());
    assert_eq!(a.sub(&b).to_bytes(), (da - db).to_bytes());
    assert_eq!(a.mul(&b).to_bytes(), (da * db).to_bytes());
    assert_eq!(a.neg().to_bytes(), (-da).to_bytes());
}

#[test]
fn equals_compares_values() {
    let a = Scalar::from_u64(77);
    assert!(a.equals(&Scalar::from_u64(70).add(&Scalar::from_u64(7))));
    assert!(!a.equals(&Scalar::from_u64(78)));
    assert!(!a.equals(&a.neg()));
    assert!(Scalar::zero().equals(&Scalar::zero().neg()));
}

#[test]
fn invert_gives_the_multiplicative_inverse() {
    assert_eq!(Scalar::zero().invert(), None);
    assert_eq!(Scalar::one().invert(), Some(Scalar::one()));
    let k = Scalar::from_u64(123_456_789);
    let inverse = k.invert().unwrap();
    assert_ne!(inverse, k);
    assert_eq!(k.mul(&inverse), Scalar::one());
    // 1/2 = (l + 1)/2
    let half = Scalar::from_u64(2).invert().unwrap();
    assert_eq!(half.add(&half), Scalar::one());
    assert_eq!(Scalar::one().neg().invert(), Some(Scalar::one().neg()));
}
