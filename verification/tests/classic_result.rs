use curve25519_dalek::scalar::Scalar;
use rubato::classic_result::{ClassicReconstructShare, ClassicResult, ClassicResultEvent, ClassicSingleShare};
use rubato::config::{Authority, Committee, PrimaryAddresses};
use rubato::crypto::{generate_keypair, Digest, PublicKey};

fn authority(port: u16) -> Authority {
    Authority {
        stake: 1,
        primary: PrimaryAddresses {
            primary_to_primary: format!("127.0.0.1:{}", port),
            worker_to_primary: format!("127.0.0.1:{}", port + 1),
            breeze_addr: format!("127.0.0.1:{}", port + 2),
            init_bft_addr: format!("127.0.0.1:{}", port + 3),
        },
        workers: Vec::new(),
    }
}

fn committee_of(keys: &[PublicKey]) -> Committee {
    let mut c = Committee::new();
    for (i, k) in keys.iter().enumerate() {
        c.insert(*k, authority(9300 + 10 * i as u16));
    }
    c
}

fn committee(n: usize) -> (Committee, Vec<PublicKey>) {
    let keys: Vec<PublicKey> = (0..n).map(|_| generate_keypair().0).collect();
    (committee_of(&keys), keys)
}

/// f(x) = a + b x evaluated at the sender's id.
fn secret(c: &Committee, k: &PublicKey, a: u64, b: u64) -> [u8; 32] {
    let id = c.get_id(k).unwrap() as u64;
    (Scalar::from(a) + Scalar::from(b) * Scalar::from(id)).to_bytes()
}

fn low_bits(s: Scalar) -> u128 {
    let b = s.to_bytes();
    u128::from_le_bytes(b[..16].try_into().unwrap())
}

#[test]
fn a_slot_is_answered_once_the_asked_digests_have_enough_secrets() {
    let (c, keys) = committee(4);
    let mut r = ClassicResult::new(committee_of(&keys), 2);
    let d1 = Digest([1u8; 32]);
    let d2 = Digest([2u8; 32]);
    // nothing to answer while no secrets arrived
    assert!(r.step(ClassicResultEvent::Request(vec![d1, d2], 3, 7)).is_empty());
    let msg = |k: &PublicKey| ClassicReconstructShare {
        secrets: vec![
            ClassicSingleShare { c: d1, y: secret(&c, k, 5, 3) },
            ClassicSingleShare { c: d2, y: secret(&c, k, 11, 4) },
        ],
        epoch: 3,
        index: 7,
    };
    assert!(r.step(ClassicResultEvent::Shares(keys[0], msg(&keys[0]))).is_empty());
    // the same secrets again count once
    assert!(r.step(ClassicResultEvent::Shares(keys[0], msg(&keys[0]))).is_empty());
    let answers = r.step(ClassicResultEvent::Shares(keys[2], msg(&keys[2])));
    assert_eq!(answers, vec![(3, 7, low_bits(Scalar::from(16u64)))]);
    // answered slots are not asked again, and later secrets answer nothing
    assert!(r.step(ClassicResultEvent::Request(vec![d1, d2], 3, 7)).is_empty());
    assert!(r.step(ClassicResultEvent::Shares(keys[3], msg(&keys[3]))).is_empty());
    assert_eq!(r.reconstructed, vec![(3, 7)]);
}

#[test]
fn a_digest_not_asked_for_holds_the_slot_back() {
    let (c, keys) = committee(4);
    let mut r = ClassicResult::new(committee_of(&keys), 2);
    let d1 = Digest([1u8; 32]);
    let d3 = Digest([3u8; 32]);
    assert!(r.step(ClassicResultEvent::Request(vec![d1], 0, 1)).is_empty());
    for k in keys.iter().take(2) {
        let m = ClassicReconstructShare {
            secrets: vec![ClassicSingleShare { c: d1, y: secret(&c, k, 9, 2) }, ClassicSingleShare { c: d3, y: secret(&c, k, 1, 1) }],
            epoch: 0,
            index: 1,
        };
        assert!(r.step(ClassicResultEvent::Shares(*k, m)).is_empty());
    }
    assert_eq!(r.requests.len(), 1);
}
