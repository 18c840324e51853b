use curve25519_dalek::constants::RISTRETTO_BASEPOINT_POINT;
use curve25519_dalek::ristretto::{CompressedRistretto, RistrettoPoint};
use curve25519_dalek::scalar::Scalar;
use curve25519_dalek::traits::Identity;
use rubato::batch_eval::CommonReferenceString;
use rubato::classic::{
    batch_commit, classic_share_verify, classic_shares_from_polynomials, generate_evaluation_points_for_verifier,
    generate_evaluation_points_n, pow_scalar, serialize_commitments, ClassicReconResult, ClassicReply, ClassicShares,
};
use rubato::model::BreezeContent;
use rubato::crypto::{generate_keypair, PublicKey};
use rubato::types_and_const::Id;

fn sc(x: u64) -> [u8; 32] {
    Scalar::from(x).to_bytes()
}

fn pt(k: u64) -> [u8; 32] {
    (RISTRETTO_BASEPOINT_POINT * Scalar::from(k)).compress().to_bytes()
}

fn crs(t: usize) -> CommonReferenceString {
    CommonReferenceString { g: (0..=t as u64).map(|j| pt(11 + 7 * j)).collect(), h: pt(1000003) }
}

fn parties(n: usize) -> Vec<(PublicKey, Id)> {
    (1..=n).map(|id| (generate_keypair().0, id)).collect()
}

fn eval(poly: &[[u8; 32]], x: u64) -> Scalar {
    let mut acc = Scalar::ZERO;
    let mut p = Scalar::ONE;
    for c in poly {
        acc += Scalar::from_bytes_mod_order(*c) * p;
        p *= Scalar::from(x);
    }
    acc
}

#[test]
fn powers_and_points_of_the_parties() {
    assert_eq!(pow_scalar(sc(3), 0), sc(1));
    assert_eq!(pow_scalar(sc(3), 4), sc(81));
    let ids = parties(3);
    let y = generate_evaluation_points_n(2, &ids);
    assert_eq!(y, vec![vec![sc(1), sc(1), sc(1)], vec![sc(1), sc(2), sc(3)], vec![sc(1), sc(4), sc(9)]]);
    assert_eq!(generate_evaluation_points_for_verifier(2, 3), vec![sc(1), sc(3), sc(9)]);
}

#[test]
fn commitments_sum_coefficients_times_generators() {
    let crs = crs(1);
    let polys = vec![vec![sc(2), sc(5)]];
    let c = batch_commit(&crs, &polys, 1);
    let g0 = CompressedRistretto(crs.g[0]).decompress().unwrap();
    let g1 = CompressedRistretto(crs.g[1]).decompress().unwrap();
    let expected = RistrettoPoint::identity() + g0 * Scalar::from(2u64) + g1 * Scalar::from(5u64);
    assert_eq!(c, vec![expected.compress().to_bytes()]);
    assert_eq!(serialize_commitments(&c), vec![c[0].to_vec()]);
}

#[test]
fn dealt_shares_verify_and_reconstruct_the_secrets() {
    let t = 2;
    let n = 4;
    let crs = crs(t);
    let ids = parties(n);
    let polys: Vec<Vec<[u8; 32]>> = (0..3).map(|i| (0..=t).map(|j| sc((7 + 3 * i + 5 * j) as u64)).collect()).collect();
    let dealt = classic_shares_from_polynomials(3, 9, ids.clone(), t, &crs, polys.clone());
    assert_eq!(dealt.shares.len(), n);
    for (k, (share, party)) in dealt.shares.iter().enumerate() {
        assert_eq!(party.1, ids[k].1);
        assert_eq!(share.epoch, 9);
        assert_eq!(share.n, n);
        for (i, poly) in polys.iter().enumerate() {
            assert_eq!(share.y_k[i], eval(poly, party.1 as u64).to_bytes());
        }
        assert!(classic_share_verify(&crs, party.1, t, share));
        // another party's points do not fit these evaluations
        assert!(!classic_share_verify(&crs, party.1 % n + 1, t, share));
    }
    // any t + 1 parties reconstruct every secret, the constant coefficient
    let chosen: Vec<usize> = vec![1, 2, 4];
    for (i, poly) in polys.iter().enumerate() {
        let values: Vec<[u8; 32]> = chosen.iter().map(|id| dealt.shares[id - 1].0.y_k[i]).collect();
        assert_eq!(ClassicReconResult::interpolate(&chosen, &values), poly[0]);
    }
    // a share whose commitment was changed fails its Merkle check
    let mut bad = ClassicShares { shares: Vec::new() };
    let mut first = dealt.shares.into_iter().next().unwrap();
    first.0.r_witness[0].poly_commit = pt(5);
    bad.shares.push(first);
    assert!(!classic_share_verify(&crs, 1, t, &bad.shares[0].0));
}

#[test]
fn fresh_classic_shares_verify() {
    let t = 1;
    let crs = crs(t);
    let ids = parties(3);
    let dealt = ClassicShares::new(2, 1, ids, t, &crs);
    for (share, party) in dealt.shares.iter() {
        assert!(classic_share_verify(&crs, party.1, t, share));
    }
}

#[test]
fn classic_interpolation_and_beacon_value() {
    // f(x) = 5 + 3x: f(1) = 8, f(2) = 11
    assert_eq!(ClassicReconResult::interpolate(&vec![1, 2], &vec![sc(8), sc(11)]), sc(5));
    assert_eq!(ClassicReconResult::generate_evaluation_points_n(&vec![4, 7]), vec![sc(4), sc(7)]);
    let r = ClassicReconResult::new(sc(0x0102));
    assert_eq!(r.secret_to_number(), 0x0102);
    let mut b = [0u8; 32];
    b[15] = 1;
    b[16] = 9;
    assert_eq!(ClassicReconResult::new(b).secret_to_number(), 1u128 << 120);
}

#[test]
fn a_dealer_is_answered_once_per_epoch() {
    let t = 1;
    let crs = crs(t);
    let ids = parties(3);
    let polys: Vec<Vec<[u8; 32]>> = vec![vec![sc(3), sc(4)]];
    let dealer = generate_keypair().0;
    let (me, sk) = generate_keypair();
    let mut reply = ClassicReply::new((me, 2), sk, self::crs(t), t);
    let dealt = classic_shares_from_polynomials(1, 5, ids.clone(), t, &crs, polys.clone());
    let mut shares = dealt.shares.into_iter();
    let _ = shares.next();
    let (mine, _) = shares.next().unwrap();
    let root = mine.c;
    let out = reply.on_share(dealer, mine).expect("an accepted share is answered");
    assert_eq!(out.0, dealer);
    assert_eq!(out.1.sender, me);
    match &out.1.content {
        BreezeContent::Reply(rm) => {
            assert_eq!(rm.epoch, 5);
            assert_eq!(rm.c, root);
            assert_eq!(rm.dealer, dealer);
            assert!(rm.signature.verify(&root, &me).is_ok());
        }
        _ => panic!("a reply was expected"),
    }
    // the same dealer's share for the same epoch is not answered again
    let again = classic_shares_from_polynomials(1, 5, ids.clone(), t, &crs, polys.clone());
    let (second, _) = again.shares.into_iter().nth(1).unwrap();
    assert!(reply.on_share(dealer, second).is_none());
    // another epoch is
    let later = classic_shares_from_polynomials(1, 6, ids, t, &crs, polys);
    let (third, _) = later.shares.into_iter().nth(1).unwrap();
    assert!(reply.on_share(dealer, third).is_some());
    assert_eq!(reply.my_shares.len(), 2);
}
