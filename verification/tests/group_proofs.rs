use curve25519_dalek::constants::RISTRETTO_BASEPOINT_POINT;
use curve25519_dalek::ristretto::{CompressedRistretto, RistrettoPoint};
use curve25519_dalek::scalar::Scalar;
use curve25519_dalek::traits::Identity;
use rubato::batch_eval::{
    batch_commit_for_sigma_plus_d, batch_eval, batch_eval_checked, batch_verify_eval,
    batch_verify_eval_checked, gen_hash, is_canonical,
    generate_eval_matrices, generate_random_number_by_fiat_shamir, generate_sigma,
    generate_statement_challenge_for_verifier, generate_v_plus_vd_eval, hash_merkle1,
    hash_merkle2, inner_product, CommonReferenceString,
};
use sha2::{Digest as _, Sha256};

fn sc(x: u64) -> [u8; 32] {
    Scalar::from(x).to_bytes()
}

fn to_scalar(b: &[u8; 32]) -> Scalar {
    Scalar::from_bytes_mod_order(*b)
}

fn point(k: u64) -> RistrettoPoint {
    RISTRETTO_BASEPOINT_POINT * Scalar::from(k)
}

fn pt(k: u64) -> [u8; 32] {
    point(k).compress().to_bytes()
}

fn decompress(b: &[u8; 32]) -> RistrettoPoint {
    CompressedRistretto(*b).decompress().unwrap()
}

fn crs(t: usize) -> CommonReferenceString {
    CommonReferenceString { g: (0..=t as u64).map(|j| pt(11 + 7 * j)).collect(), h: pt(1000003) }
}

/// Rows of `s` (each of length `t + 1`), the points of the parties as a
/// `(t + 1) x m` matrix of powers, and the commitments of the rows.
fn instance(t: usize, rows: usize, m: usize, crs: &CommonReferenceString) -> (Vec<Vec<[u8; 32]>>, Vec<Vec<[u8; 32]>>, Vec<[u8; 32]>) {
    let s: Vec<Vec<[u8; 32]>> = (0..rows)
        .map(|i| (0..=t).map(|j| sc((3 + i * 5 + j * 2) as u64)).collect())
        .collect();
    let y: Vec<Vec<[u8; 32]>> = (0..=t)
        .map(|j| {
            (0..m)
                .map(|i| {
                    let mut x = Scalar::ONE;
                    for _ in 0..j {
                        x *= Scalar::from((i + 2) as u64);
                    }
                    x.to_bytes()
                })
                .collect()
        })
        .collect();
    let s_hat: Vec<[u8; 32]> = s
        .iter()
        .map(|row| {
            let mut acc = RistrettoPoint::identity();
            for (j, x) in row.iter().enumerate() {
                acc += decompress(&crs.g[j]) * to_scalar(x);
            }
            acc.compress().to_bytes()
        })
        .collect();
    (s, y, s_hat)
}

fn column(y: &[Vec<[u8; 32]>], i: usize) -> Vec<[u8; 32]> {
    y.iter().map(|row| row[i]).collect()
}

#[test]
fn inner_product_multiplies_row_by_matrix() {
    let a = vec![sc(2), sc(3)];
    let b = vec![vec![sc(1), sc(4)], vec![sc(5), sc(6)]];
    assert_eq!(inner_product(&a, &b), vec![sc(17), sc(26)]);
    // reduction modulo the group order: (l - 1) * 2 = l - 2
    let minus_one = (-Scalar::ONE).to_bytes();
    let r = inner_product(&vec![minus_one], &vec![vec![sc(2)]]);
    assert_eq!(r, vec![(-Scalar::from(2u64)).to_bytes()]);
}

#[test]
fn gen_hash_is_sha256_and_empty_for_empty_input() {
    assert!(gen_hash(&Vec::new()).is_empty());
    let h = gen_hash(&b"abc".to_vec());
    assert_eq!(
        hex::encode(h),
        "ba7816bf8f01cfea414140de5dae2223b00361a396177a9cb410ff61f20015ad"
    );
}

#[test]
fn fiat_shamir_weights_hash_commitments_and_index() {
    let s_hat = vec![pt(5), pt(9), pt(13)];
    let gamma = generate_random_number_by_fiat_shamir(&s_hat);
    assert_eq!(gamma.len(), 3);
    for (i, g) in gamma.iter().enumerate() {
        let mut hasher = Sha256::new();
        for p in &s_hat {
            hasher.update(p);
        }
        hasher.update([i as u8]);
        let d: [u8; 32] = hasher.finalize().into();
        assert_eq!(*g, Scalar::from_bytes_mod_order(d).to_bytes());
    }
    assert_ne!(gamma[0], gamma[1]);
}

#[test]
fn commitment_is_the_weighted_sum_of_generators() {
    let c = crs(2);
    let x = vec![sc(4), sc(0), sc(9)];
    let got = batch_commit_for_sigma_plus_d(&c, &x);
    let want = decompress(&c.g[0]) * Scalar::from(4u64) + decompress(&c.g[2]) * Scalar::from(9u64);
    assert_eq!(got, want.compress().to_bytes());
    // no entries: the identity
    let empty = CommonReferenceString { g: Vec::new(), h: pt(3) };
    assert_eq!(batch_commit_for_sigma_plus_d(&empty, &Vec::new()), [0u8; 32]);
}

#[test]
fn evaluations_and_combinations_have_exact_values() {
    let d = vec![sc(1), sc(2)];
    let s = vec![vec![sc(3), sc(4)], vec![sc(5), sc(6)]];
    let y = vec![vec![sc(1), sc(2)], vec![sc(10), sc(20)]];
    let (v, v_d) = generate_eval_matrices(&d, &s, &y);
    assert_eq!(v, vec![vec![sc(43), sc(86)], vec![sc(65), sc(130)]]);
    assert_eq!(v_d, vec![sc(21), sc(42)]);
    let gamma = vec![sc(2), sc(3)];
    let v_quota = generate_v_plus_vd_eval(&gamma, &v_d, &v);
    assert_eq!(v_quota, vec![sc(2 * 43 + 3 * 65 + 21), sc(2 * 86 + 3 * 130 + 42)]);
    let s_hat = vec![pt(2), pt(3)];
    let (w, sigma) = generate_sigma(&s, &s_hat);
    assert_eq!(w, generate_random_number_by_fiat_shamir(&s_hat));
    let expect0 = to_scalar(&w[0]) * Scalar::from(3u64) + to_scalar(&w[1]) * Scalar::from(5u64);
    assert_eq!(sigma[0], expect0.to_bytes());
}

#[test]
fn merkle_leaves_differ_by_the_dropped_entry() {
    let g = vec![pt(2), pt(3)];
    let y = vec![sc(7), sc(8)];
    let a = hash_merkle2(&g, 1, &pt(4), &y, &pt(5), &pt(6), &pt(7));
    let b = hash_merkle1(&g, 1, &pt(4), &y, &pt(5), &pt(6), &pt(7), &sc(9));
    assert_eq!(a.len(), 32);
    assert_eq!(b.len(), 32);
    assert_ne!(a, b);
    let mut bytes = Vec::new();
    for k in 0..2 {
        bytes.extend_from_slice(&g[k]);
        bytes.extend_from_slice(&y[k]);
    }
    bytes.extend_from_slice(&1u64.to_be_bytes());
    for p in [pt(4), pt(5), pt(6), pt(7)] {
        bytes.extend_from_slice(&p);
    }
    let want: [u8; 32] = Sha256::digest(&bytes).into();
    assert_eq!(a, want.to_vec());
}

#[test]
fn verifier_challenge_hashes_commitment_points_and_evaluation() {
    let c = generate_statement_challenge_for_verifier(&pt(3), &sc(5), &vec![sc(1), sc(2)]);
    let mut bytes = pt(3).to_vec();
    bytes.extend_from_slice(&sc(1));
    bytes.extend_from_slice(&sc(2));
    bytes.extend_from_slice(&sc(5));
    let d: [u8; 32] = Sha256::digest(&bytes).into();
    assert_eq!(c, Scalar::from_bytes_mod_order(d).to_bytes());
}

fn honest_round_trip(t: usize, rows: usize, m: usize) {
    let c = crs(t);
    let (s, y, s_hat) = instance(t, rows, m, &c);
    let (v, phi) = batch_eval(&c, &s, &y, &s_hat, t, m);
    assert_eq!(v.len(), rows);
    assert_eq!(phi.len(), m);
    // the evaluations are the rows of s times the points
    for (k, row) in s.iter().enumerate() {
        for i in 0..m {
            let mut acc = Scalar::ZERO;
            for j in 0..=t {
                acc += to_scalar(&row[j]) * to_scalar(&y[j][i]);
            }
            assert_eq!(v[k][i], acc.to_bytes());
        }
    }
    for (i, e) in phi.into_iter().enumerate() {
        let v_i: Vec<[u8; 32]> = v.iter().map(|row| row[i]).collect();
        let mut wrong = v_i.clone();
        wrong[0] = (to_scalar(&wrong[0]) + Scalar::ONE).to_bytes();
        let proofs_again: Vec<_> = e.proofs.iter().map(|u| u.duplicate()).collect();
        let again = rubato::batch_eval::PhiElement { proofs: proofs_again, d_hat: e.d_hat, v_d_i: e.v_d_i };
        assert!(batch_verify_eval(&c, &s_hat, v_i, column(&y, i), e, t, m));
        assert!(!batch_verify_eval(&c, &s_hat, wrong, column(&y, i), again, t, m));
    }
}

#[test]
fn honest_proofs_verify_for_an_odd_size() {
    honest_round_trip(2, 2, 3);
}

#[test]
fn honest_proofs_verify_for_an_even_size() {
    honest_round_trip(3, 3, 4);
}

#[test]
fn honest_proofs_verify_for_a_single_coefficient() {
    honest_round_trip(0, 1, 2);
}

#[test]
fn checked_entry_points_refuse_malformed_inputs() {
    let t = 1;
    let m = 2;
    let c = crs(t);
    let (s, y, s_hat) = instance(t, 2, m, &c);
    // a generator that does not decompress
    let mut bad = crs(t);
    bad.g[0] = [0xffu8; 32];
    assert!(batch_eval_checked(&bad, &s, &y, &s_hat, t, m).is_none());
    // a scalar that is not reduced
    let mut s_bad = s.clone();
    s_bad[0][0] = [0xffu8; 32];
    assert!(!is_canonical(&[0xffu8; 32]));
    assert!(is_canonical(&sc(5)));
    assert!(batch_eval_checked(&c, &s_bad, &y, &s_hat, t, m).is_none());
    // wrong sizes
    assert!(batch_eval_checked(&c, &s, &y, &s_hat, t + 1, m).is_none());
    let (v, phi) = batch_eval_checked(&c, &s, &y, &s_hat, t, m).unwrap();
    let mut phi = phi.into_iter();
    let e0 = phi.next().unwrap();
    let v0: Vec<[u8; 32]> = v.iter().map(|row| row[0]).collect();
    let units: Vec<_> = e0.proofs.iter().map(|u| u.duplicate()).collect();
    let short = rubato::batch_eval::PhiElement { proofs: Vec::new(), d_hat: e0.d_hat, v_d_i: e0.v_d_i };
    assert!(batch_verify_eval_checked(&c, &s_hat, v0.clone(), column(&y, 0), short, t, m).is_none());
    let full = rubato::batch_eval::PhiElement { proofs: units, d_hat: e0.d_hat, v_d_i: e0.v_d_i };
    assert_eq!(batch_verify_eval_checked(&c, &s_hat, v0, column(&y, 0), full, t, m), Some(true));
}
