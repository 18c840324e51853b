use rubato::calculation::{
    dvector_zeros, generate_x_vectors, infinity_norm, power_mod, upow, vec_to_dvec,
};
use rubato::config::{Authority, Committee, KeyPair, Parameters, PrimaryAddresses};
use rubato::crypto::{bytes_eq, bytes_less, generate_keypair, CryptoError, Digest, PublicKey, Signature};
use rubato::merkletree::{generate_merkle_tree, verify_merkle_proof, MerkleError};
use rubato::polynomial::Polynomial;
use rubato::zq_int::ZqInt;

fn authority(stake: u32, port: u16) -> Authority {
    Authority {
        stake,
        primary: PrimaryAddresses {
            primary_to_primary: format!("127.0.0.1:{}", port),
            worker_to_primary: format!("127.0.0.1:{}", port + 1),
            breeze_addr: format!("127.0.0.1:{}", port + 2),
            init_bft_addr: format!("127.0.0.1:{}", port + 3),
        },
        workers: Vec::new(),
    }
}

fn residues(v: &rubato::zq_matrix::ZqVector) -> Vec<u128> {
    v.to_vec().iter().map(|z| z.residue()).collect()
}

#[test]
fn signatures_open_to_the_signed_digest() {
    let (pk, sk) = generate_keypair();
    let digest = Digest([7u8; 32]);
    let sig = Signature::new(&digest, &sk);
    assert!(sig.verify(&digest, &pk).is_ok());
    let other = Digest([8u8; 32]);
    assert!(matches!(sig.verify(&other, &pk), Err(CryptoError::InvalidSignature)));
    assert!(matches!(sig.check(&other, &pk), Some(Err(CryptoError::InvalidSignature))));
    // a signed message that cannot be opened under the key
    let (pk2, _) = generate_keypair();
    assert!(sig.check(&digest, &pk2).is_none());
    assert!(Signature::verify_batch(&digest, &vec![(pk, sig.clone())]).is_ok());
}

#[test]
fn byte_comparisons() {
    assert!(bytes_eq(&[1, 2, 3], &[1, 2, 3]));
    assert!(!bytes_eq(&[1, 2, 3], &[1, 2]));
    assert!(bytes_less(&[1, 2], &[1, 3]));
    assert!(bytes_less(&[1, 2], &[1, 2, 0]));
    assert!(!bytes_less(&[1, 2], &[1, 2]));
    assert!(!bytes_less(&[2], &[1, 9]));
}

#[test]
fn digests_from_slices() {
    assert!(Digest::try_from(&[0u8; 31][..]).is_none());
    let d = Digest::try_from(&[3u8; 32][..]).unwrap();
    assert_eq!(d.size(), 32);
    assert_eq!(d.to_vec(), vec![3u8; 32]);
    assert!(d.same(&Digest([3u8; 32])));
    assert!(PublicKey::default().same(&PublicKey([0u8; 1312])));
}

#[test]
fn committee_thresholds_and_ids() {
    let keys: Vec<PublicKey> = (0..4).map(|_| generate_keypair().0).collect();
    let mut committee = Committee::new();
    for (i, k) in keys.iter().enumerate() {
        committee.insert(*k, authority(1, 9000 + 10 * i as u16));
    }
    assert_eq!(committee.size(), 4);
    assert_eq!(committee.authorities_fault_tolerance(), 1);
    assert_eq!(committee.authorities_quorum_threshold(), 3);
    assert_eq!(committee.quorum_threshold(), 3);
    assert_eq!(committee.validity_threshold(), 2);
    // members are kept ordered by key, and ids count from 1 in that order
    let ids = committee.get_all_ids();
    for w in ids.windows(2) {
        assert!(bytes_less(&w[0].0 .0, &w[1].0 .0));
    }
    for (k, id) in ids.iter() {
        assert_eq!(committee.get_id(k), Some(*id));
        assert_eq!(committee.stake(k), 1);
    }
    let stranger = generate_keypair().0;
    assert_eq!(committee.get_id(&stranger), None);
    assert_eq!(committee.stake(&stranger), 0);
    assert!(committee.breeze_address(&stranger).is_err());
    assert_eq!(committee.others_stake(&keys[0]).len(), 3);
    // inserting a known key replaces its entry
    committee.insert(keys[1], authority(5, 9500));
    assert_eq!(committee.size(), 4);
    assert_eq!(committee.stake(&keys[1]), 5);
    assert_eq!(committee.breeze_address(&keys[1]).unwrap(), "127.0.0.1:9502");
}

#[test]
fn default_parameters() {
    let p = Parameters::default();
    assert_eq!(p.header_size, 1000);
    assert_eq!(p.max_header_delay, 100);
    assert_eq!(p.gc_depth, 50);
    let lines = p.log();
    assert_eq!(lines.len(), 7);
    assert_eq!(lines[0], "Header size set to 1000 B");
}

#[test]
fn merkle_proofs_verify_their_leaves() {
    let leaves: Vec<Vec<u8>> = (0u8..5).map(|i| vec![i; 10]).collect();
    let (root, proofs) = generate_merkle_tree(leaves.clone()).unwrap();
    assert_eq!(proofs.len(), 5);
    for (i, proof) in proofs.iter().enumerate() {
        assert_eq!(proof.0, i);
        assert_eq!(verify_merkle_proof(&leaves[i], proof.clone(), root, 5), Ok(true));
    }
    assert_eq!(verify_merkle_proof(&vec![9u8; 10], proofs[0].clone(), root, 5), Ok(false));
    assert_eq!(verify_merkle_proof(&leaves[0], (0, vec![1u8; 31]), root, 5), Err(MerkleError::WrongProofSize));
    assert_eq!(generate_merkle_tree(Vec::new()).err(), Some(MerkleError::NoRoot));
}

#[test]
fn polynomial_sum_and_product_coefficients() {
    let p = Polynomial::new(2, 7);
    let q = Polynomial::new(1, 7);
    assert_eq!(p.degree(), 2);
    assert_eq!(q.degree(), 1);
    let a: Vec<u128> = (0..3).map(|i| p.get_coeff(i).residue()).collect();
    let b: Vec<u128> = (0..2).map(|i| q.get_coeff(i).residue()).collect();
    assert!(a.iter().chain(b.iter()).all(|c| *c < 7));
    assert_eq!(p.get_coeff(5).residue(), 0);
    let prod = Polynomial::new(0, 7);
    let c0 = prod.get_coeff(0).residue();
    let product = prod.mul(Polynomial::new(0, 7));
    assert_eq!(product.degree(), 0);
    assert!(product.get_coeff(0).residue() < 7);
    let _ = c0;
    let sum = p.add(q);
    assert_eq!(sum.degree(), 2);
    assert_eq!(sum.get_coeff(0).residue(), (a[0] + b[0]) % 7);
    assert_eq!(sum.get_coeff(1).residue(), (a[1] + b[1]) % 7);
    assert_eq!(sum.get_coeff(2).residue(), a[2]);
}

#[test]
fn polynomial_product_is_the_convolution() {
    let p = Polynomial::new(1, 11);
    let q = Polynomial::new(1, 11);
    let a: Vec<u128> = (0..2).map(|i| p.get_coeff(i).residue()).collect();
    let b: Vec<u128> = (0..2).map(|i| q.get_coeff(i).residue()).collect();
    let r = p.mul(q);
    assert_eq!(r.degree(), 2);
    assert_eq!(r.get_coeff(0).residue(), (a[0] * b[0]) % 11);
    assert_eq!(r.get_coeff(1).residue(), (a[0] * b[1] + a[1] * b[0]) % 11);
    assert_eq!(r.get_coeff(2).residue(), (a[1] * b[1]) % 11);
}

#[test]
fn vector_helpers() {
    assert_eq!(upow(3, 4), 81);
    assert_eq!(upow(5, 0), 1);
    assert_eq!(power_mod(ZqInt::new(3, 7), 4, 7).residue(), 4);
    assert_eq!(residues(&dvector_zeros(3, 7)), vec![0, 0, 0]);
    let v = vec_to_dvec(&vec![1, 6, 3, 10], 7);
    assert_eq!(residues(&v), vec![1, 6, 3, 3]);
    assert_eq!(infinity_norm(&v), 3);
    assert_eq!(infinity_norm(&vec_to_dvec(&vec![5], 11)), 5);
    assert_eq!(infinity_norm(&vec_to_dvec(&vec![6], 11)), 5);
    let xs = generate_x_vectors(ZqInt::new(2, 7), 1, 2);
    assert_eq!(xs.len(), 2);
    assert_eq!(residues(&xs[0]), vec![1, 2]);
    assert_eq!(residues(&xs[1]), vec![1, 4]);
}

#[test]
fn a_fresh_key_pair_signs_for_its_public_key() {
    let digest = Digest([7u8; 32]);
    for pair in [KeyPair::new(), KeyPair::default()] {
        let sig = Signature::new(&digest, &pair.secret);
        assert!(sig.verify(&digest, &pair.name).is_ok());
        assert!(sig.verify(&Digest([8u8; 32]), &pair.name).is_err());
    }
    let (pk, sk) = rubato::crypto::generate_production_keypair();
    assert!(Signature::new(&digest, &sk).verify(&digest, &pk).is_ok());
}

#[test]
fn quorum_is_two_f_plus_one() {
    let mut committee = Committee::new();
    assert_eq!(committee.authorities_quorum_threshold(), 0);
    let expected = [1usize, 1, 1, 3, 3, 3, 5];
    for (i, want) in expected.iter().enumerate() {
        committee.insert(generate_keypair().0, authority(1, 9100 + 10 * i as u16));
        assert_eq!(committee.authorities_quorum_threshold(), *want);
    }
}

#[test]
fn merkle_proofs_with_an_empty_first_layer_give_nothing() {
    let matrix: Vec<Vec<(usize, Vec<u8>)>> = vec![vec![], vec![(5, vec![1u8; 32])]];
    assert!(rubato::breeze_share_dealer::transpose_merkle_proofs(matrix).is_empty());
}

#[test]
fn a_vote_held_twice_is_not_a_set() {
    let (pk, sk) = generate_keypair();
    let digest = Digest([4u8; 32]);
    let sig = Signature::new(&digest, &sk);
    let mut cert = rubato::model::BreezeCertificate::new(digest, pk, 0, sig.clone());
    assert!(cert.votes_are_distinct());
    assert_eq!(cert.check(1), Some(true));
    cert.certificates.push((pk, sig));
    assert!(!cert.votes_are_distinct());
    assert_eq!(cert.check(2), None);
}
