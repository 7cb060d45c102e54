use range_proof::vector_ops::inner_product_of;
use range_proof::{hadamard_product, inner_product, ProofError, Scalar};

fn scalars(values: &[u64]) -> Vec<Scalar> {
    values.iter().map(|v| Scalar::from_u64(*v)).collect()
}

#[test]
fn hadamard_product_multiplies_elementwise() {
    let c = hadamard_product(scalars(&[2, 3, 5]), scalars(&[7, 11, 13])).unwrap();
    assert_eq!(c, scalars(&[14, 33, 65]));
}

#[test]
fn hadamard_product_of_empty_vectors_is_empty() {
    let c = hadamard_product(Vec::new(), Vec::new()).unwrap();
    assert!(c.is_empty());
}

#[test]
fn hadamard_product_refuses_unequal_lengths() {
    assert_eq!(hadamard_product(scalars(&[1, 2]), scalars(&[1])), Err(ProofError::LengthMismatch));
    assert_eq!(hadamard_product(Vec::new(), scalars(&[1])), Err(ProofError::LengthMismatch));
}

#[test]
fn inner_product_sums_the_products() {
    let s = inner_product(scalars(&[2, 3, 5]), scalars(&[7, 11, 13])).unwrap();
    assert_eq!(s, Scalar::from_u64(112));
}

#[test]
fn inner_product_of_empty_vectors_is_zero() {
    assert_eq!(inner_product(Vec::new(), Vec::new()), Ok(Scalar::zero()));
}

#[test]
fn inner_product_refuses_unequal_lengths() {
    assert_eq!(inner_product(scalars(&[1, 2, 3]), scalars(&[1, 2])), Err(ProofError::LengthMismatch));
    assert_eq!(inner_product(scalars(&[1]), Vec::new()), Err(ProofError::LengthMismatch));
}

#[test]
fn inner_product_reduces_modulo_the_group_order() {
    // (-1)·(-1) + (-1)·1 = 0
    let minus_one = Scalar::one().neg();
    let s = inner_product(vec![minus_one, minus_one], vec![minus_one, Scalar::one()]).unwrap();
    assert_eq!(s, Scalar::zero());
}

#[test]
fn inner_product_is_the_sum_of_the_hadamard_product() {
    let a = scalars(&[4, 9, 16, 25]);
    let b = scalars(&[1, 3, 5, 7]);
    let c = hadamard_product(a.clone(), b.clone()).unwrap();
    let mut sum = Scalar::zero();
    for term in &c {
        sum = sum.add(term);
    }
    assert_eq!(inner_product(a, b).unwrap(), sum);
}

#[test]
fn borrowed_inner_product_agrees_with_the_owned_one() {
    let a = scalars(&[4, 9, 16, 25]);
    let b = scalars(&[1, 3, 5, 7]);
    assert_eq!(inner_product_of(&a, &b), Ok(Scalar::from_u64(4 + 27 + 80 + 175)));
    assert_eq!(inner_product_of(&a, &b), inner_product(a.clone(), b.clone()));
    assert_eq!(inner_product_of(&a, &b[..3].to_vec()), Err(ProofError::LengthMismatch));
    assert_eq!(inner_product_of(&Vec::new(), &Vec::new()), Ok(Scalar::zero()));
}
