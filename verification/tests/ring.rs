use rpack::crt::{goback_crt, goto_crt, goto_crt_k, is_crt_base, product};
use rpack::lattice::{NTRUVector, RingError};
use rpack::modular::{add_mod, inverse_mod, mul_mod, pow, rem_euclid, sub_mod, xgcd};
use rpack::ntt::{bit_reverse, log2_exact};
use rpack::roots::{find_generator, find_primitive_root, is_generator, unique_prime_factors};

const Q: i64 = 1231873;

fn vector(coeffs: &[i64], q: i64) -> NTRUVector {
    NTRUVector::from_coefficients(coeffs, q)
}

#[test]
fn remainders_are_never_negative() {
    assert_eq!(rem_euclid(-1, 5), 4);
    assert_eq!(rem_euclid(-10, 5), 0);
    assert_eq!(rem_euclid(7, 5), 2);
    assert_eq!(add_mod(i64::MAX, i64::MAX, 7), ((i64::MAX as i128 * 2) % 7) as i64);
    assert_eq!(sub_mod(0, 1, Q), Q - 1);
    assert_eq!(mul_mod(i64::MIN, i64::MAX, 1_000_003), {
        let p = (i64::MIN as i128) * (i64::MAX as i128);
        p.rem_euclid(1_000_003) as i64
    });
}

#[test]
fn extended_euclid_gives_bezout_coefficients() {
    let (g, x, y) = xgcd(240, 46);
    assert_eq!(g, 2);
    assert_eq!(x * 240 + y * 46, 2);
    assert_eq!(xgcd(0, 9), (9, 0, 1));
    assert_eq!(xgcd(9, 0), (9, 1, 0));
    assert_eq!(inverse_mod(3, 7), 5);
    assert_eq!(inverse_mod(512, Q) * 512 % Q, 1);
}

#[test]
fn modular_power() {
    assert_eq!(pow(2, 10, 1000), 24);
    assert_eq!(pow(7, 0, 13), 1);
    assert_eq!(pow(-2, 3, 11), 3);
    assert_eq!(pow(5, 1, 1), 0);
}

#[test]
fn prime_factors_and_generators() {
    assert_eq!(unique_prime_factors(360), vec![2, 3, 5]);
    assert_eq!(unique_prime_factors(97), vec![97]);
    assert_eq!(unique_prime_factors(1), Vec::<i64>::new());
    assert_eq!(unique_prime_factors(1231872), vec![2, 3, 401]);
    assert!(is_generator(3, 6, 7));
    assert!(!is_generator(2, 6, 7));
    assert_eq!(find_generator(6, 7), Some(3));
    assert_eq!(find_generator(4, 8), None);
    assert_eq!(find_primitive_root(0, 6, 7), None);
    // a primitive 1024th root of unity modulo the production modulus
    let root = find_primitive_root(1024, Q - 1, Q).unwrap();
    assert_eq!(pow(root, 512, Q), Q - 1);
    assert_eq!(pow(root, 1024, Q), 1);
}

#[test]
fn crt_round_trip_over_a_range() {
    let base = [13, 16, 19, 27, 29];
    assert!(is_crt_base(&base));
    assert_eq!(product(&base), Some(3094416));
    for x in [0i64, 1, 7, 3094415, 3094416, 3094417, -1, -3094417, 123456789] {
        let digits = goto_crt(x, &base);
        assert_eq!(goback_crt(&digits, &base), x.rem_euclid(3094416));
    }
    assert_eq!(goto_crt_k(100, &base, 2), vec![100 % 13, 100 % 16]);
}

#[test]
fn crt_bases_are_validated() {
    assert!(!is_crt_base(&[2, 4]));
    assert!(!is_crt_base(&[0, 3]));
    assert!(!is_crt_base(&[-3, 5]));
    assert!(is_crt_base(&[]));
    assert_eq!(product(&[i64::MAX, 2]), None);
    assert_eq!(product(&[3, 0]), None);
}

#[test]
fn bit_reversal() {
    assert_eq!(bit_reverse(1, 9), 256);
    assert_eq!(bit_reverse(0b110, 3), 0b011);
    assert_eq!(bit_reverse(5, 0), 0);
    assert_eq!(log2_exact(512), Some(9));
    assert_eq!(log2_exact(1), Some(0));
    assert_eq!(log2_exact(0), None);
    assert_eq!(log2_exact(12), None);
}

#[test]
fn ring_addition_subtraction_negation() {
    let a = vector(&[1, 2, 3, 4], 17);
    let b = vector(&[16, 16, 0, -1], 17);
    assert_eq!(a.add(&b).unwrap().vector, vec![0, 1, 3, 3]);
    assert_eq!(a.sub(&b).unwrap().vector, vec![2, 3, 3, 5]);
    assert_eq!(a.neg().vector, vec![16, 15, 14, 13]);
    assert!(a.add(&b).unwrap().verify_checksum());
}

#[test]
fn negacyclic_product_wraps_with_a_sign() {
    // (1 + X)(X^3) = X^3 + X^4 = X^3 - 1 in Z_17[X]/(X^4 + 1)
    let a = vector(&[1, 1, 0, 0], 17);
    let b = vector(&[0, 0, 0, 1], 17);
    assert_eq!(a.mul(&b).unwrap().vector, vec![16, 0, 0, 1]);
}

#[test]
fn mismatched_operands_are_refused() {
    let a = vector(&[1, 2, 3, 4], 17);
    let shorter = vector(&[1, 2], 17);
    let other_modulus = vector(&[1, 2, 3, 4], 19);
    assert_eq!(a.add(&shorter).unwrap_err(), RingError::DegreeMismatch);
    assert_eq!(a.mul(&other_modulus).unwrap_err(), RingError::ModulusMismatch);
    assert_eq!(a.sub(&shorter).unwrap_err(), RingError::DegreeMismatch);
}

#[test]
fn forward_transform_evaluates_at_odd_powers() {
    // modulo 17, 2 is a root of X^4 + 1: 2^4 = 16 = -1
    let mut v = vector(&[1, 2, 3, 4], 17);
    v.goto_ntt(2).unwrap();
    let eval = |x: i64| (1 + 2 * x + 3 * x * x + 4 * x * x * x).rem_euclid(17);
    let expected: Vec<i64> = [1u32, 3, 5, 7].iter().map(|&e| eval(pow(2, e as i64, 17))).collect();
    assert_eq!(v.vector, expected);
    assert!(v.ntt);
    assert!(v.verify_checksum());
}

#[test]
fn inverse_transform_undoes_forward_transform() {
    let root = find_primitive_root(1024, Q - 1, Q).unwrap();
    let unroot = inverse_mod(root, Q);
    let ninv = inverse_mod(512, Q);
    let coeffs: Vec<i64> = (0..512).map(|i| (i * i * 7919 + 13 * i + 5) % Q).collect();
    let mut v = vector(&coeffs, Q);
    v.goto_ntt(root).unwrap();
    assert_ne!(v.vector, coeffs);
    v.goback_ntt(unroot, ninv).unwrap();
    assert_eq!(v.vector, coeffs);
    assert!(!v.ntt);
}

#[test]
fn transform_turns_convolution_into_pointwise_product() {
    let root = find_primitive_root(16, 16, 17).unwrap();
    let a = vector(&[1, 2, 3, 4, 5, 6, 7, 8], 17);
    let b = vector(&[8, 7, 6, 5, 4, 3, 2, 1], 17);
    let mut product = a.mul(&b).unwrap();
    let mut fa = a.duplicate();
    let mut fb = b.duplicate();
    fa.goto_ntt(root).unwrap();
    fb.goto_ntt(root).unwrap();
    product.goto_ntt(root).unwrap();
    assert_eq!(fa.mul(&fb).unwrap().vector, product.vector);
}

#[test]
fn transform_in_the_wrong_domain_is_refused() {
    let mut v = vector(&[1, 2, 3, 4], 17);
    assert_eq!(v.goback_ntt(9, 13), Err(RingError::WrongDomain));
    assert_eq!(v.vector, vec![1, 2, 3, 4]);
    v.goto_ntt(2).unwrap();
    let once = v.vector.clone();
    assert_eq!(v.goto_ntt(2), Err(RingError::WrongDomain));
    assert_eq!(v.vector, once);
    let mut odd = vector(&[1, 2, 3], 17);
    assert_eq!(odd.goto_ntt(2), Err(RingError::DegreeNotPowerOfTwo));
}

#[test]
fn checksum_follows_the_coefficients() {
    let mut v = NTRUVector::new(4, 17, false);
    assert_eq!(v.vector, vec![0, 0, 0, 0]);
    assert!(v.verify_checksum());
    v.vector[2] = 5;
    assert!(!v.verify_checksum());
    v.update_checksum();
    assert!(v.verify_checksum());
    assert!(v.is_well_formed());
}
