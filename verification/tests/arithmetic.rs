use rubato::breeze_reconstruct_dealer::{
    extended_gcd, generate_evaluation_points_n, hash_to_u128, lagrange_interpolation_at_zero,
    mod_inverse, transpose, vec_to_sha256, BreezeReconResult,
};
use rubato::hashing::{push_be_u128, push_decimal, push_le, u128_from_be_prefix};
use rubato::types_and_const::{
    epoch_index_to_leader_round, epoch_index_to_round, get_epoch_by_round, get_epoch_by_wave,
    get_round_by_epoch_wave, get_wave_by_round, leader_round_to_epoch_index, round_to_epoch_index,
};
use rubato::zq_int::ZqInt;
use sha2::{Digest as ShaDigest, Sha256};

#[test]
fn wave_of_round_wraps_within_an_epoch() {
    assert_eq!(get_wave_by_round(7, 3, 2), 1);
    assert_eq!(get_wave_by_round(10, 3, 2), 2);
    assert_eq!(get_wave_by_round(6, 3, 2), 3);
    assert_eq!(get_wave_by_round(12, 3, 2), 3);
}

#[test]
fn epoch_of_round_and_wave() {
    assert_eq!(get_epoch_by_round(6, 3, 2), 1);
    assert_eq!(get_epoch_by_round(7, 3, 2), 2);
    assert_eq!(get_epoch_by_wave(3, 3), 1);
    assert_eq!(get_epoch_by_wave(4, 3), 2);
}

#[test]
fn first_round_of_epoch_and_wave() {
    assert_eq!(get_round_by_epoch_wave(1, 1, 3, 2), 1);
    assert_eq!(get_round_by_epoch_wave(2, 2, 3, 2), 9);
    // The first round of a wave lies in that wave and epoch.
    let r = get_round_by_epoch_wave(2, 2, 3, 2);
    assert_eq!(get_epoch_by_round(r, 3, 2), 2);
}

#[test]
fn round_and_slot_conversions() {
    assert_eq!(round_to_epoch_index(7, 3), (2, 1));
    assert_eq!(round_to_epoch_index(6, 3), (1, 6));
    assert_eq!(leader_round_to_epoch_index(7, 3), (2, 1));
    assert_eq!(leader_round_to_epoch_index(5, 3), (1, 3));
    assert_eq!(epoch_index_to_leader_round(2, 1, 3), 7);
    assert_eq!(epoch_index_to_round(2, 1, 3), 7);
}

#[test]
fn slot_round_trips() {
    for round in 1..40u64 {
        let (e, i) = round_to_epoch_index(round, 4);
        assert_eq!(epoch_index_to_round(e, i, 4), round);
    }
    for e in 1..5u64 {
        for i in 1..=4usize {
            let r = epoch_index_to_leader_round(e, i, 4);
            assert_eq!(leader_round_to_epoch_index(r, 4), (e, i));
        }
    }
}

#[test]
fn residues_add_and_multiply_modulo() {
    let a = ZqInt::new(15, 7);
    assert_eq!(a.residue(), 1);
    assert_eq!(a.modulus(), 7);
    let b = ZqInt::new(5, 7);
    assert_eq!(a.add(b).residue(), 6);
    assert_eq!(ZqInt::new(6, 7).add(ZqInt::new(5, 7)).residue(), 4);
    assert_eq!(ZqInt::new(4, 7).mul(ZqInt::new(5, 7)).residue(), 6);
    let mut c = ZqInt::new(3, 7);
    c.add_assign(ZqInt::new(6, 7));
    assert_eq!(c.residue(), 2);
    c.mul_assign(ZqInt::new(4, 7));
    assert_eq!(c.residue(), 1);
}

#[test]
fn extended_gcd_gives_bezout_coefficients() {
    assert_eq!(extended_gcd(240, 46), (2, -9, 47));
    assert_eq!(extended_gcd(0, 5), (5, 0, 1));
    let (g, x, y) = extended_gcd(35, 64);
    assert_eq!(g, 1);
    assert_eq!(35 * x + 64 * y, 1);
}

#[test]
fn modular_inverses() {
    assert_eq!(mod_inverse(3, 7), 5);
    assert_eq!(mod_inverse(1, 11), 1);
    assert_eq!((mod_inverse(10, 11) * 10) % 11, 1);
}

#[test]
fn interpolation_recovers_the_constant_term() {
    // f(x) = 5 + 3x over Z_7
    assert_eq!(lagrange_interpolation_at_zero(&vec![1, 2], &vec![1, 4], 7), 5);
    // f(x) = 2 + x + 3x^2 over Z_11
    assert_eq!(lagrange_interpolation_at_zero(&vec![1, 2, 3], &vec![6, 5, 10], 11), 2);
    // a single point gives its value
    assert_eq!(lagrange_interpolation_at_zero(&vec![4], &vec![9], 11), 9);
}

#[test]
fn evaluation_points_are_ids_modulo_q() {
    assert_eq!(generate_evaluation_points_n(&vec![1, 12, 5], 11), vec![1, 1, 5]);
}

#[test]
fn transpose_of_rows() {
    assert_eq!(transpose(&vec![vec![1, 2, 3], vec![4, 5, 6]]), vec![vec![1, 4], vec![2, 5], vec![3, 6]]);
    assert_eq!(transpose(&vec![]), Vec::<Vec<u128>>::new());
}

#[test]
fn interpolate_adds_each_column_secret() {
    // party 1 holds (1, 2), party 2 holds (4, 3): columns interpolate to 5 and 1
    let mut cumulated = vec![10, 20];
    BreezeReconResult::interpolate(&vec![1, 2], &vec![vec![1, 2], vec![4, 3]], 7, &mut cumulated);
    assert_eq!(cumulated, vec![15, 21]);
}

#[test]
fn beacon_value_is_hash_prefix_of_decimal_secrets() {
    let digest = vec_to_sha256(&vec![12, 3]);
    let expected: [u8; 32] = Sha256::digest(b"123").into();
    assert_eq!(digest, expected);
    let mut prefix = [0u8; 16];
    prefix.copy_from_slice(&expected[..16]);
    assert_eq!(hash_to_u128(&digest), u128::from_be_bytes(prefix));
    let value = BreezeReconResult::new(vec![12, 3]).secret_to_number();
    assert_eq!(value, u128::from_be_bytes(prefix));
    // a different secret gives a different value
    assert_ne!(BreezeReconResult::new(vec![1, 23, 4]).secret_to_number(), value);
}

#[test]
fn byte_encodings() {
    let mut out = vec![7u8];
    push_decimal(1203, &mut out);
    assert_eq!(out, vec![7, b'1', b'2', b'0', b'3']);
    let mut be = Vec::new();
    push_be_u128(0x0102, &mut be);
    assert_eq!(be.len(), 16);
    assert_eq!(&be[14..], &[1, 2]);
    assert!(be[..14].iter().all(|b| *b == 0));
    let mut le = Vec::new();
    push_le(0x0a0b0c, 4, &mut le);
    assert_eq!(le, vec![0x0c, 0x0b, 0x0a, 0]);
    let mut bytes = [0u8; 32];
    bytes[15] = 9;
    bytes[0] = 1;
    bytes[20] = 5;
    assert_eq!(u128_from_be_prefix(&bytes), (1u128 << 120) + 9);
}

#[test]
fn interpolation_recovers_the_constant_term_of_any_low_degree_polynomial() {
    let q: u128 = 97;
    let poly = [5u128, 3, 2, 90];
    let eval = |x: u128| poly.iter().rev().fold(0u128, |acc, c| (acc * x + c) % q);
    // four points determine a polynomial of degree three
    let points = vec![1u128, 2, 3, 4];
    let values: Vec<u128> = points.iter().map(|&x| eval(x)).collect();
    assert_eq!(lagrange_interpolation_at_zero(&points, &values, q), 5);
    // any other four points too, a zero point included
    let points = vec![0u128, 7, 50, 96];
    let values: Vec<u128> = points.iter().map(|&x| eval(x)).collect();
    assert_eq!(lagrange_interpolation_at_zero(&points, &values, q), 5);
    // more points than needed
    let points = vec![10u128, 20, 30, 40, 60];
    let values: Vec<u128> = points.iter().map(|&x| eval(x)).collect();
    assert_eq!(lagrange_interpolation_at_zero(&points, &values, q), 5);
}

#[test]
fn extended_euclid_gives_the_recursions_coefficients() {
    assert_eq!(extended_gcd(6, 9), (3, -1, 1));
    assert_eq!(extended_gcd(0, 7), (7, 0, 1));
    assert_eq!(extended_gcd(3, 7), (1, -2, 1));
    assert_eq!(mod_inverse(3, 7), 5);
    // a modulus above 2^126 works where the representative fits
    let q: u128 = (1u128 << 126) + 1;
    let inv = mod_inverse(2, q);
    assert_eq!((inv * 2) % q, 1);
}

#[test]
fn transposing_twice_gives_the_matrix_back() {
    let m = vec![vec![1u128, 2, 3], vec![4, 5, 6]];
    assert_eq!(transpose(&transpose(&m)), m);
}
