use rubato::beacon_hub::{BeaconHub, RETRY_DELAY_MS};
use rubato::config::{Authority, Committee, PrimaryAddresses};
use rubato::coordinator::{Coordinator, CoordinatorAction, CoordinatorEvent};
use rubato::crypto::{generate_keypair, Digest, PublicKey, SecretKey, Signature};
use rubato::init_bft::{hash_breeze_certificates, same_cert_set, InitAction, InitBFT, InitEvent};
use rubato::model::{BreezeCertificate, DagError, DumboContent, DumboMessage};

fn members(count: usize) -> (Committee, Vec<(PublicKey, SecretKey)>) {
    let keys: Vec<(PublicKey, SecretKey)> = (0..count).map(|_| generate_keypair()).collect();
    let mut committee = Committee::new();
    for (i, (pk, _)) in keys.iter().enumerate() {
        committee.insert(
            *pk,
            Authority {
                stake: 1,
                primary: PrimaryAddresses {
                    primary_to_primary: format!("127.0.0.1:{}", 8000 + i),
                    worker_to_primary: format!("127.0.0.1:{}", 8100 + i),
                    breeze_addr: format!("127.0.0.1:{}", 8200 + i),
                    init_bft_addr: format!("127.0.0.1:{}", 8300 + i),
                },
                workers: Vec::new(),
            },
        );
    }
    (committee, keys)
}

fn copy_committee(c: &Committee) -> Committee {
    let mut copy = Committee::new();
    for (pk, a) in c.authorities.iter() {
        copy.insert(*pk, Authority { stake: a.stake, primary: a.primary.clone(), workers: Vec::new() });
    }
    copy
}

/// A certificate on digest `d` of `epoch` signed by the first `signers` keys.
fn certificate(keys: &[(PublicKey, SecretKey)], d: u8, epoch: u64, signers: usize) -> BreezeCertificate {
    let c = Digest([d; 32]);
    let mut cert = BreezeCertificate::new(c, keys[0].0, epoch, Signature::new(&c, &keys[0].1));
    for (pk, sk) in keys.iter().take(signers).skip(1) {
        cert.insert(*pk, Signature::new(&c, sk));
    }
    cert
}

#[test]
fn coordinator_routes_decides_and_answers() {
    let (_, keys) = members(3);
    let mut co = Coordinator::new(1, 2, 3);
    assert!(matches!(co.start(), CoordinatorAction::ShareCommand(0)));
    let a = co.step(CoordinatorEvent::CertificateFromBreeze(certificate(&keys, 1, 0, 1)));
    assert!(matches!(a, Some(CoordinatorAction::ToInitConsensus(c)) if c.epoch == 0));
    let a = co.step(CoordinatorEvent::CertificateFromBreeze(certificate(&keys, 2, 1, 1)));
    assert!(matches!(a, Some(CoordinatorAction::ToConsensus(c)) if c.epoch == 1));
    // coins of epoch 1 need the common core of epoch 0
    assert!(matches!(
        co.step(CoordinatorEvent::GlobalCoinRequest(1)),
        Some(CoordinatorAction::CoinResult(1, Err(DagError::NoCommonCore)))
    ));
    let a = co.step(CoordinatorEvent::CommonCoreFromInit(vec![certificate(&keys, 7, 0, 1)]));
    assert!(matches!(a, Some(CoordinatorAction::ShareCommand(1))));
    match co.step(CoordinatorEvent::GlobalCoinRequest(1)) {
        Some(CoordinatorAction::ReconRequest(r)) => {
            assert_eq!((r.epoch, r.index), (0, 1));
            assert_eq!(r.c.len(), 1);
            assert!(r.c[0].same(&Digest([7; 32])));
        }
        _ => panic!("expected a reconstruction request"),
    }
    // round 3 is not a leader slot of epoch 1 (index 3 > 2)
    assert!(matches!(
        co.step(CoordinatorEvent::GlobalCoinRequest(3)),
        Some(CoordinatorAction::CoinResult(3, Err(DagError::InvalidIndex)))
    ));
    assert!(matches!(
        co.step(CoordinatorEvent::ReconResult(0, 1, 42)),
        Some(CoordinatorAction::CoinResult(1, Ok(42)))
    ));
    assert!(matches!(
        co.step(CoordinatorEvent::GlobalCoinRequest(1)),
        Some(CoordinatorAction::CoinResult(1, Ok(42)))
    ));
    // beacon requests
    assert!(matches!(
        co.step(CoordinatorEvent::BeaconRequest(0, 4)),
        Some(CoordinatorAction::BeaconResult((0, 4), Err(DagError::InvalidIndex)))
    ));
    assert!(matches!(
        co.step(CoordinatorEvent::BeaconRequest(1, 1)),
        Some(CoordinatorAction::BeaconResult((1, 1), Err(DagError::NoCommonCore)))
    ));
    match co.step(CoordinatorEvent::BeaconRequest(0, 2)) {
        Some(CoordinatorAction::ReconRequest(r)) => assert_eq!((r.epoch, r.index), (0, 4)),
        _ => panic!("expected a reconstruction request"),
    }
    assert!(matches!(
        co.step(CoordinatorEvent::ReconResult(0, 4, 7)),
        Some(CoordinatorAction::BeaconResult((0, 2), Ok(7)))
    ));
    assert!(co.step(CoordinatorEvent::ReconResult(0, 9, 7)).is_none());
    // epoch 1 is decided by f + 1 = 2 distinct certificates
    assert!(co.step(CoordinatorEvent::CertificateDecided(certificate(&keys, 3, 1, 1))).is_none());
    assert!(co.step(CoordinatorEvent::CertificateDecided(certificate(&keys, 3, 1, 1))).is_none());
    assert!(matches!(
        co.step(CoordinatorEvent::CertificateDecided(certificate(&keys, 4, 1, 1))),
        Some(CoordinatorAction::ShareCommand(2))
    ));
    assert!(co.step(CoordinatorEvent::CertificateDecided(certificate(&keys, 5, 1, 1))).is_none());
    match co.step(CoordinatorEvent::GlobalCoinRequest(5)) {
        Some(CoordinatorAction::ReconRequest(r)) => {
            assert_eq!((r.epoch, r.index), (1, 1));
            assert_eq!(r.c.len(), 2);
        }
        _ => panic!("expected a reconstruction request"),
    }
}

#[test]
fn beacon_hub_walks_the_slots() {
    let mut hub = BeaconHub::new(2, 50);
    assert_eq!(hub.request(), (0, 1));
    assert_eq!(hub.on_result(&Ok(9)), 50);
    assert_eq!(hub.request(), (0, 2));
    assert_eq!(hub.on_result(&Err(DagError::NoCommonCore)), RETRY_DELAY_MS);
    assert_eq!(hub.request(), (0, 2));
    assert_eq!(hub.on_result(&Ok(3)), 50);
    assert_eq!(hub.request(), (1, 1));
}

fn vote_content(m: &DumboMessage) -> &(Vec<BreezeCertificate>, Signature) {
    match &m.content {
        DumboContent::Vote(v) => v,
        _ => panic!("not a vote"),
    }
}

fn copy_set(s: &[BreezeCertificate]) -> Vec<BreezeCertificate> {
    s.iter().cloned().collect()
}

#[test]
fn initial_agreement_decides_once_on_a_common_set() {
    let (committee, keys) = members(4);
    let mut parties: Vec<InitBFT> = keys.iter().map(|(pk, sk)| InitBFT::new(*pk, *sk, copy_committee(&committee))).collect();
    let c1 = certificate(&keys, 11, 0, 3);
    let c2 = certificate(&keys, 12, 0, 3);
    assert!(c1.verify(3));

    // its own certificate is broadcast
    let acts = parties[0].step(InitEvent::OwnCertificate(c1.clone()));
    assert_eq!(acts.len(), 1);
    assert!(matches!(&acts[0], InitAction::Broadcast(m) if matches!(m.content, DumboContent::Certificate(_))));

    // f + 1 = 2 valid certificates lead to a vote on both
    let m1 = DumboMessage { sender: keys[1].0, content: DumboContent::Certificate(c1.clone()) };
    assert!(parties[0].step(InitEvent::CertificateMessage(m1)).is_empty());
    // a certificate without a quorum of signatures is ignored
    let weak = DumboMessage { sender: keys[2].0, content: DumboContent::Certificate(certificate(&keys, 13, 0, 2)) };
    assert!(parties[0].step(InitEvent::CertificateMessage(weak)).is_empty());
    let m2 = DumboMessage { sender: keys[2].0, content: DumboContent::Certificate(c2.clone()) };
    let acts = parties[0].step(InitEvent::CertificateMessage(m2));
    assert_eq!(acts.len(), 1);
    let proposal = match &acts[0] {
        InitAction::Vote(set) => copy_set(set),
        _ => panic!("expected a vote"),
    };
    assert_eq!(proposal.len(), 2);

    // a quorum of votes on the same set decides it
    let encoding = b"encoded set".to_vec();
    let digest = hash_breeze_certificates(&encoding);
    let votes: Vec<DumboMessage> = (0..3).map(|k| parties[k].vote_message(copy_set(&proposal), &encoding)).collect();
    for (k, v) in votes.iter().enumerate() {
        assert!(v.sender.same(&keys[k].0));
        assert!(vote_content(v).1.verify(&Digest(digest), &v.sender).is_ok());
    }
    let mut decided = Vec::new();
    for v in votes {
        let acts = parties[3].step(InitEvent::VoteMessage(v, encoding.clone()));
        decided.extend(acts);
    }
    assert_eq!(decided.len(), 2);
    match &decided[0] {
        InitAction::CommonCore(set) => assert!(same_cert_set(set, &proposal)),
        _ => panic!("expected the common core"),
    }
    let decision = match &decided[1] {
        InitAction::Broadcast(m) => match &m.content {
            DumboContent::Decided((set, sigs)) => {
                assert!(same_cert_set(set, &proposal));
                assert_eq!(sigs.len(), 3);
                (copy_set(set), sigs.iter().map(|(k, s)| (*k, s.clone())).collect::<Vec<_>>())
            }
            _ => panic!("expected a decision"),
        },
        _ => panic!("expected a broadcast"),
    };
    // the common core is handed on once
    let extra = parties[0].vote_message(copy_set(&proposal), &encoding);
    let more = parties[3].step(InitEvent::VoteMessage(extra, encoding.clone()));
    assert!(more.iter().all(|a| !matches!(a, InitAction::CommonCore(_))));

    // another party learns the decision from the decision message
    let dm = DumboMessage { sender: keys[3].0, content: DumboContent::Decided(decision) };
    let acts = parties[1].step(InitEvent::DecidedMessage(dm, encoding.clone()));
    assert_eq!(acts.len(), 1);
    assert!(matches!(&acts[0], InitAction::CommonCore(set) if set.len() == 2));
    // a decision whose signatures do not sign the encoding is ignored
    let (set2, sigs2) = (copy_set(&proposal), vec![(keys[0].0, Signature::new(&Digest([0; 32]), &keys[0].1))]);
    let bad = DumboMessage { sender: keys[0].0, content: DumboContent::Decided((set2, sigs2)) };
    assert!(parties[2].step(InitEvent::DecidedMessage(bad, encoding.clone())).is_empty());
}

#[test]
fn initial_agreement_revotes_for_a_popular_set() {
    let (committee, keys) = members(4);
    let mut party = InitBFT::new(keys[0].0, keys[0].1, copy_committee(&committee));
    let voters: Vec<InitBFT> = keys.iter().map(|(pk, sk)| InitBFT::new(*pk, *sk, copy_committee(&committee))).collect();
    let a = vec![certificate(&keys, 21, 0, 3)];
    let b = vec![certificate(&keys, 22, 0, 3)];
    let (ea, eb) = (b"set a".to_vec(), b"set b".to_vec());
    assert!(party.step(InitEvent::VoteMessage(voters[1].vote_message(copy_set(&a), &ea), ea.clone())).is_empty());
    assert!(party.step(InitEvent::VoteMessage(voters[2].vote_message(copy_set(&b), &eb), eb.clone())).is_empty());
    let acts = party.step(InitEvent::VoteMessage(voters[3].vote_message(copy_set(&a), &ea), ea.clone()));
    // the votes differ; set `a` has f + 1 = 2 votes, so the party votes for it
    assert_eq!(acts.len(), 1);
    match &acts[0] {
        InitAction::Vote(set) => assert!(same_cert_set(set, &a)),
        _ => panic!("expected a vote"),
    }
    // a vote whose signature does not sign the encoding is ignored
    let forged = voters[0].vote_message(copy_set(&a), &eb);
    assert!(party.step(InitEvent::VoteMessage(forged, ea.clone())).is_empty());
    // the vote for `b` was dropped, so with this vote all three votes are for `a`
    let acts = party.step(InitEvent::VoteMessage(voters[0].vote_message(copy_set(&a), &ea), ea.clone()));
    assert_eq!(acts.len(), 2);
    assert!(matches!(&acts[0], InitAction::CommonCore(set) if same_cert_set(set, &a)));
}
