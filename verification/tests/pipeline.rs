use rand::Rng;
use rubato::breeze_confirm::{BreezeConfirm, ConfirmEvent};
use rubato::breeze_reconstruct::BreezeReconstruct;
use rubato::breeze_reconstruct_dealer::{lagrange_interpolation_at_zero, BreezeReconResult};
use rubato::breeze_reply::{BreezeReply, ReplyEvent};
use rubato::breeze_result::{BreezeResult, ResultEvent};
use rubato::breeze_share::BreezeShare;
use rubato::breeze_share_dealer::{CommonReferenceString, PQCrs, Shares};
use rubato::config::{Authority, Committee, PrimaryAddresses};
use rubato::crypto::{generate_keypair, Digest, PublicKey, SecretKey};
use rubato::model::{BreezeContent, BreezeMessage, BreezeReconRequest, Share};

const Q: u128 = 97;

fn crs_parts() -> CommonReferenceString {
    let (n, r, log_q) = (2usize, 2usize, 7usize);
    let m = r * n * log_q;
    let mut rng = rand::thread_rng();
    let a = (0..n).map(|_| (0..m).map(|_| rng.gen_range(0..Q)).collect()).collect();
    CommonReferenceString { a, q: Q, log_q, g: 1, n, kappa: 2, r, ell: 1 }
}

fn crs_from(parts: &CommonReferenceString) -> PQCrs {
    PQCrs::from(parts)
}

fn members(count: usize) -> (Committee, Vec<(PublicKey, SecretKey)>) {
    let keys: Vec<(PublicKey, SecretKey)> = (0..count).map(|_| generate_keypair()).collect();
    let mut committee = Committee::new();
    for (i, (pk, _)) in keys.iter().enumerate() {
        committee.insert(
            *pk,
            Authority {
                stake: 1,
                primary: PrimaryAddresses {
                    primary_to_primary: format!("127.0.0.1:{}", 7000 + i),
                    worker_to_primary: format!("127.0.0.1:{}", 7100 + i),
                    breeze_addr: format!("127.0.0.1:{}", 7200 + i),
                    init_bft_addr: format!("127.0.0.1:{}", 7300 + i),
                },
                workers: Vec::new(),
            },
        );
    }
    (committee, keys)
}

fn secret_of(keys: &[(PublicKey, SecretKey)], pk: &PublicKey) -> SecretKey {
    keys.iter().find(|(k, _)| k.same(pk)).unwrap().1
}

fn roots_of(m: &BreezeMessage) -> Vec<Digest> {
    match &m.content {
        BreezeContent::Merkle(mr) => mr.roots.clone(),
        _ => panic!("not a roots message"),
    }
}

fn share_of(m: BreezeMessage) -> Share {
    match m.content {
        BreezeContent::Share(s) => s,
        _ => panic!("not a share message"),
    }
}

#[test]
fn honestly_dealt_shares_are_accepted() {
    let parts = crs_parts();
    let crs = crs_from(&parts);
    let (committee, _) = members(4);
    let ids = committee.get_all_ids();
    let (shares, roots) = Shares::new(4, 1, ids.clone(), 1, &crs);
    assert_eq!(shares.get_shares_ref().len(), 4);
    assert_eq!(roots.len(), 4);
    let c = *shares.get_c_ref();
    for (share, pk) in shares.get_shares_ref() {
        let id = committee.get_id(pk).unwrap();
        assert!(share.c.same(&c));
        assert_eq!(share.epoch, 1);
        assert_eq!(share.total_party_num, 4);
        assert!(Shares::check_shares(&crs, share, id));
        assert!(Shares::verify_merkle_batch(id, share, &roots));
    }
    // a share checked against another party's id is refused
    let (first, pk) = &shares.get_shares_ref()[0];
    let id = committee.get_id(pk).unwrap();
    let other = if id == 1 { 2 } else { 1 };
    assert!(!Shares::check_shares(&crs, first, other));
}

#[test]
fn deal_reply_confirm_gives_a_quorum_certificate() {
    let parts = crs_parts();
    let (committee, keys) = members(4);
    let dealer = committee.get_all_ids()[0];
    let dealer_sk = secret_of(&keys, &dealer.0);
    let share_phase = BreezeShare::new(dealer, committee_copy(&committee, &keys), crs_from(&parts), 4);
    let dealing = share_phase.deal(3);
    let roots = roots_of(&dealing.roots_message);
    assert!(matches!(&dealing.roots_message.content, BreezeContent::Merkle(mr) if mr.epoch == 3));
    assert_eq!(dealing.share_messages.len(), 4);

    let mut confirm = BreezeConfirm::new(dealer.0, committee.authorities_quorum_threshold());
    assert!(confirm.step(ConfirmEvent::DealerDigest(3, dealing.digest)).is_none());
    let mut certificate = None;
    for (pk, message) in dealing.share_messages {
        let id = committee.get_id(&pk).unwrap();
        let mut reply = BreezeReply::new((pk, id), secret_of(&keys, &pk), crs_from(&parts));
        let (first, watch) = reply.step(ReplyEvent::ShareMessage(message));
        assert!(first.is_empty());
        assert!(watch.is_none());
        let roots_message = BreezeMessage::new_merkle_message(dealer.0, roots.clone(), 3);
        let (replies, watch) = reply.step(ReplyEvent::MerkleMessage(roots_message));
        assert_eq!(watch, Some(3));
        assert_eq!(replies.len(), 1);
        assert_eq!(reply.valid_shares_ref().len(), 1);
        for (to, r) in replies {
            assert!(to.same(&dealer.0));
            if let Some(cert) = confirm.step(ConfirmEvent::Message(r)) {
                assert!(certificate.is_none());
                certificate = Some(cert);
            }
        }
    }
    let cert = certificate.expect("a certificate once a quorum replied");
    assert_eq!(cert.epoch, 3);
    assert!(cert.c.same(&dealing.digest));
    assert_eq!(cert.get_len(), committee.authorities_quorum_threshold());
    assert!(cert.verify(committee.authorities_quorum_threshold()));
    let _ = dealer_sk;
}

fn committee_copy(c: &Committee, keys: &[(PublicKey, SecretKey)]) -> Committee {
    let (mut copy, _) = (Committee::new(), ());
    for (pk, _) in keys {
        let i = c.get_id(pk).unwrap() - 1;
        let a = &c.authorities[i].1;
        copy.insert(
            *pk,
            Authority { stake: a.stake, primary: a.primary.clone(), workers: Vec::new() },
        );
    }
    copy
}

#[test]
fn any_f_plus_one_parties_reconstruct_the_same_beacon() {
    let parts = crs_parts();
    let crs = crs_from(&parts);
    let (committee, keys) = members(4);
    let ids = committee.get_all_ids();
    let dealer = ids[0].0;
    let (shares, roots) = Shares::new(4, 1, ids.clone(), 1, &crs);
    let c = *shares.get_c_ref();
    let roots_list = vec![(1u64, dealer, roots.clone())];

    // every party answers the request for slot 1 from the share it keeps
    let mut messages = Vec::new();
    for (share, pk) in shares.0 {
        let id = committee.get_id(&pk).unwrap();
        let handler = BreezeReconstruct::new((pk, id), 1);
        let request = BreezeReconRequest { c: vec![c], epoch: 1, index: 1 };
        let (forward, message) = handler.handle(request, &vec![(1u64, dealer, share)]);
        assert_eq!(forward.1, 1);
        assert_eq!(forward.2, 1);
        let m = message.expect("a share of the epoch is kept");
        match &m.content {
            BreezeContent::Reconstruct(rs) => {
                assert_eq!(rs.secrets.len(), 1);
                assert_eq!(rs.secrets[0].y.len(), 1);
                assert_eq!(rs.secrets[0].merkle_proof.0, id);
            }
            _ => panic!("not a reconstruction message"),
        }
        messages.push((id, m));
    }

    let mut values = Vec::new();
    for pair in [(0usize, 1usize), (2, 3), (1, 3)] {
        let (committee2, _) = (committee_copy(&committee, &keys), ());
        let mut result = BreezeResult::new(committee2, Q, 1, 8);
        assert!(result.step(ResultEvent::Request(vec![c], 1, 1), &roots_list).is_empty());
        let mut got = Vec::new();
        let mut points = Vec::new();
        let mut ys = Vec::new();
        for k in [pair.0, pair.1] {
            let (id, m) = &messages[k];
            let again = match &m.content {
                BreezeContent::Reconstruct(rs) => {
                    points.push(*id as u128);
                    ys.push(rs.secrets[0].y[0]);
                    rubato::model::ReconstructShare::new(
                        vec![rubato::model::SingleShare {
                            dealer: rs.secrets[0].dealer,
                            c: rs.secrets[0].c,
                            y: rs.secrets[0].y.clone(),
                            merkle_proof: rs.secrets[0].merkle_proof.clone(),
                            total_party_num: rs.secrets[0].total_party_num,
                        }],
                        rs.epoch,
                        rs.index,
                    )
                }
                _ => unreachable!(),
            };
            let sender = m.sender;
            got.extend(result.step(ResultEvent::Shares(BreezeMessage::new_reconstruct_message(sender, again)), &roots_list));
        }
        assert_eq!(got.len(), 1);
        assert_eq!((got[0].0, got[0].1), (1, 1));
        let secret = lagrange_interpolation_at_zero(&points, &ys, Q);
        assert_eq!(got[0].2, BreezeReconResult::new(vec![secret]).secret_to_number());
        values.push(got[0].2);
        // the slot is answered once: more shares give no second answer
        let (id, m) = &messages[(pair.1 + 1) % 4];
        let _ = id;
        let extra = match &m.content {
            BreezeContent::Reconstruct(rs) => rubato::model::ReconstructShare::new(
                vec![rubato::model::SingleShare {
                    dealer: rs.secrets[0].dealer,
                    c: rs.secrets[0].c,
                    y: rs.secrets[0].y.clone(),
                    merkle_proof: rs.secrets[0].merkle_proof.clone(),
                    total_party_num: rs.secrets[0].total_party_num,
                }],
                rs.epoch,
                rs.index,
            ),
            _ => unreachable!(),
        };
        assert!(result.step(ResultEvent::Shares(BreezeMessage::new_reconstruct_message(m.sender, extra)), &roots_list).is_empty());
        assert!(result.step(ResultEvent::Request(vec![c], 1, 1), &roots_list).is_empty());
    }
    assert_eq!(values[0], values[1]);
    assert_eq!(values[1], values[2]);
}

#[test]
fn shares_wait_for_their_roots() {
    let parts = crs_parts();
    let crs = crs_from(&parts);
    let (committee, keys) = members(4);
    let ids = committee.get_all_ids();
    let dealer = ids[0].0;
    let (shares, roots) = Shares::new(4, 2, ids.clone(), 1, &crs);
    let c = *shares.get_c_ref();
    let mut result = BreezeResult::new(committee_copy(&committee, &keys), Q, 1, 8);
    let no_roots: Vec<(u64, PublicKey, Vec<Digest>)> = Vec::new();
    assert!(result.step(ResultEvent::Request(vec![c], 2, 1), &no_roots).is_empty());
    for (share, pk) in shares.0.into_iter().take(2) {
        let id = committee.get_id(&pk).unwrap();
        let handler = BreezeReconstruct::new((pk, id), 1);
        let (_, m) = handler.handle(BreezeReconRequest { c: vec![c], epoch: 2, index: 1 }, &vec![(2u64, dealer, share)]);
        assert!(result.step(ResultEvent::Shares(m.unwrap()), &no_roots).is_empty());
    }
    let roots_list = vec![(2u64, dealer, roots)];
    let answers = result.step(ResultEvent::RootsChanged, &roots_list);
    assert_eq!(answers.len(), 1);
    assert_eq!((answers[0].0, answers[0].1), (2, 1));
}

#[test]
fn a_request_for_an_epoch_without_kept_shares_sends_nothing() {
    let (committee, _) = members(4);
    let me = committee.get_all_ids()[1];
    let handler = BreezeReconstruct::new(me, 1);
    let (forward, message) = handler.handle(
        BreezeReconRequest { c: vec![Digest([1u8; 32])], epoch: 5, index: 2 },
        &Vec::new(),
    );
    assert!(message.is_none());
    assert_eq!(forward.0.len(), 1);
    assert_eq!((forward.1, forward.2), (5, 2));
}
