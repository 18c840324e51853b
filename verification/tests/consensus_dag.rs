use rubato::config::{Authority, Committee, PrimaryAddresses};
use rubato::crypto::{Digest, PublicKey};
use rubato::dag::{Certificate, Dag, DagRound, Metadata};
use rubato::tusk::Tusk;
use rubato::virtual_state::{fallback_wave, VirtualState};

fn key(k: u8) -> PublicKey {
    PublicKey([k; 1312])
}

fn committee(n: u8) -> Committee {
    let mut c = Committee::new();
    for k in 1..=n {
        c.insert(
            key(k),
            Authority {
                stake: 1,
                primary: PrimaryAddresses {
                    primary_to_primary: format!("127.0.0.1:{}", 9000 + k as u16),
                    worker_to_primary: format!("127.0.0.1:{}", 9100 + k as u16),
                    breeze_addr: format!("127.0.0.1:{}", 9200 + k as u16),
                    init_bft_addr: format!("127.0.0.1:{}", 9300 + k as u16),
                },
                workers: Vec::new(),
            },
        );
    }
    c
}

fn digest(round: u64, author: u8) -> Digest {
    let mut d = [0u8; 32];
    d[0] = round as u8;
    d[1] = author;
    Digest(d)
}

fn cert(author: u8, round: u64, parents: Vec<Digest>, metadata: Option<Metadata>) -> Certificate {
    Certificate { origin: key(author), round, digest: digest(round, author), parents, metadata }
}

fn virtual_cert(author: u8, vround: u64, vparents: Vec<Digest>) -> Certificate {
    let mut c = cert(author, vround, Vec::new(), None);
    c.metadata = Some(Metadata { virtual_round: vround, virtual_parents: vparents });
    c.digest = digest(vround + 100, author);
    c
}

/// Rounds `0..=top` with every author present; each certificate cites
/// `cites(round, author)` among the previous round's certificates.
fn full_dag(n: u8, top: u64, cites: &dyn Fn(u64, u8) -> Vec<u8>) -> Dag {
    let mut rounds = Vec::new();
    for r in 0..=top {
        let mut certs = Vec::new();
        for a in 1..=n {
            let parents = if r == 0 { Vec::new() } else { cites(r, a).into_iter().map(|p| digest(r - 1, p)).collect() };
            let c = cert(a, r, parents, None);
            certs.push((key(a), (c.digest, c)));
        }
        rounds.push(DagRound { round: r, certs });
    }
    Dag { rounds }
}

fn all(n: u8) -> Vec<u8> {
    (1..=n).collect()
}

#[test]
fn new_state_holds_genesis_and_every_authority_in_steady_state() {
    let genesis = vec![cert(1, 0, Vec::new(), None), cert(2, 0, Vec::new(), None), cert(2, 0, vec![digest(9, 9)], None)];
    let s = VirtualState::new(committee(3), genesis);
    assert!(s._steady_state);
    assert_eq!(s.steady_authorities_sets.len(), 1);
    assert_eq!(s.steady_authorities_sets[0].0, 1);
    assert_eq!(s.steady_authorities_sets[0].1.len(), 3);
    assert!(s.fallback_authorities_sets.is_empty());
    assert!(s.dag.get(0, &key(1)).is_some());
    // the later genesis certificate of author 2 replaced the earlier one
    let (_, c2) = s.dag.get(0, &key(2)).unwrap();
    assert_eq!(c2.parents.len(), 1);
    assert!(s.dag.get(0, &key(3)).is_none());
    assert!(s.dag.get(1, &key(1)).is_none());
}

#[test]
fn try_add_needs_metadata_and_known_virtual_parents() {
    let genesis = vec![cert(1, 0, Vec::new(), None), cert(2, 0, Vec::new(), None)];
    let mut s = VirtualState::new(committee(2), genesis);
    // no metadata
    assert!(!s.try_add(&cert(1, 1, Vec::new(), None)));
    // a parent that is not in the previous virtual round
    assert!(!s.try_add(&virtual_cert(1, 1, vec![digest(0, 1), digest(7, 7)])));
    assert!(s.dag.get(1, &key(1)).is_none());
    // parents all present
    let c = virtual_cert(1, 1, vec![digest(0, 1), digest(0, 2)]);
    assert!(s.try_add(&c));
    let (d, stored) = s.dag.get(1, &key(1)).unwrap();
    assert_eq!(d.0, c.digest.0);
    assert_eq!(stored.round, 1);
    // the next virtual round can cite it
    assert!(s.try_add(&virtual_cert(2, 2, vec![c.digest])));
    assert!(!s.try_add(&virtual_cert(2, 3, vec![digest(0, 1)])));
}

#[test]
fn cleanup_drops_old_rounds_and_waves() {
    let mut s = VirtualState::new(committee(2), vec![cert(1, 0, Vec::new(), None)]);
    s.dag = full_dag(2, 6, &|_, _| all(2));
    s.steady_authorities_sets = vec![(1, vec![key(1)]), (2, vec![key(2)]), (3, vec![key(1)])];
    s.fallback_authorities_sets = vec![(1, vec![key(1)]), (2, vec![key(2)])];
    s.cleanup(5, 3);
    // rounds r with r + 3 > 5 stay
    let rounds: Vec<u64> = s.dag.rounds.iter().map(|r| r.round).collect();
    assert_eq!(rounds, vec![3, 4, 5, 6]);
    // steady waves from (5 + 1) / 2 = 3, fallback waves from (5 + 1) / 4 = 1
    let steady: Vec<u64> = s.steady_authorities_sets.iter().map(|e| e.0).collect();
    assert_eq!(steady, vec![3]);
    let fallback: Vec<u64> = s.fallback_authorities_sets.iter().map(|e| e.0).collect();
    assert_eq!(fallback, vec![1, 2]);
}

#[test]
fn leaders_are_elected_by_position_at_the_waves_round() {
    let mut s = VirtualState::new(committee(4), vec![cert(1, 0, Vec::new(), None)]);
    s.dag = full_dag(4, 5, &|_, _| all(4));
    // wave 1: position 1, round 1
    let (_, l) = s.steady_leader(1).unwrap();
    assert_eq!(l.origin.0[0], 2);
    assert_eq!(l.round, 1);
    // wave 0: position 0, round 0
    let (_, l) = s.steady_leader(0).unwrap();
    assert_eq!(l.origin.0[0], 1);
    assert_eq!(l.round, 0);
    // wave 3: round 5
    let (_, l) = s.steady_leader(3).unwrap();
    assert_eq!((l.origin.0[0], l.round), (4, 5));
    // wave 4 has no round 7
    assert!(s.steady_leader(4).is_none());
    // fallback: an even wave uses the wave before, the coin picks the author
    assert_eq!(fallback_wave(2), 1);
    assert_eq!(fallback_wave(3), 3);
    let (_, l) = s.fallback_leader(2, 6).unwrap();
    assert_eq!((l.origin.0[0], l.round), (3, 1));
    let (_, l) = s.fallback_leader(3, 4).unwrap();
    assert_eq!((l.origin.0[0], l.round), (1, 5));
}

fn tusk(n: u8) -> Tusk {
    Tusk { committee: committee(n), gc_depth: 50 }
}

#[test]
fn linked_follows_parents_down_the_rounds() {
    let t = tusk(4);
    // author a at round r cites only author a of round r - 1
    let dag = full_dag(4, 6, &|_, a| vec![a]);
    let top = &dag.get(6, &key(2)).unwrap().1;
    let same = &dag.get(2, &key(2)).unwrap().1;
    let other = &dag.get(2, &key(3)).unwrap().1;
    assert!(t.linked(top, same, &dag));
    assert!(!t.linked(top, other, &dag));
    assert!(t.linked(top, top, &dag));
    // with full citation everything below is reached
    let dag = full_dag(4, 6, &|_, _| all(4));
    let top = &dag.get(6, &key(2)).unwrap().1;
    let other = &dag.get(2, &key(3)).unwrap().1;
    assert!(t.linked(top, other, &dag));
}

#[test]
fn a_supported_leader_is_committed_with_the_leaders_it_links_to() {
    let t = tusk(4);
    let dag = full_dag(4, 6, &|_, _| all(4));
    let coins: Vec<(u64, u128)> = vec![(2, 1), (4, 2)];
    // round 7: r = 6, leader of round 4 is position 2 (author 3)
    let out = t.leaders_to_commit(&dag, 0, 7, &coins).unwrap();
    let got: Vec<(u8, u64)> = out.iter().map(|c| (c.origin.0[0], c.round)).collect();
    // the walk visits the leader's own round first, then round 2
    assert_eq!(got, vec![(3, 4), (3, 4), (2, 2)]);
    // odd r, too early, or already committed: nothing
    assert!(t.leaders_to_commit(&dag, 0, 6, &coins).is_none());
    assert!(t.leaders_to_commit(&dag, 0, 3, &coins).is_none());
    assert!(t.leaders_to_commit(&dag, 4, 7, &coins).is_none());
}

#[test]
fn a_leader_without_enough_support_is_not_committed() {
    let t = tusk(4);
    // round 5 cites only authors 1 and 2 of round 4; the leader of round 4 is author 3
    let dag = full_dag(4, 6, &|r, _| if r == 5 { vec![1, 2] } else { all(4) });
    let coins: Vec<(u64, u128)> = vec![(2, 1), (4, 2)];
    assert!(t.leaders_to_commit(&dag, 0, 7, &coins).is_none());
    // one supporter is below the threshold (4 + 2) / 3 = 2
    let dag = full_dag(4, 6, &|r, a| if r == 5 && a == 1 { vec![3] } else if r == 5 { vec![1] } else { all(4) });
    assert!(t.leaders_to_commit(&dag, 0, 7, &coins).is_none());
    // two supporters reach it
    let dag = full_dag(4, 6, &|r, a| if r == 5 && a <= 2 { vec![3] } else if r == 5 { vec![1] } else { all(4) });
    let out = t.leaders_to_commit(&dag, 0, 7, &coins).unwrap();
    assert_eq!(out[0].origin.0[0], 3);
}

#[test]
fn order_leaders_skips_leaders_that_are_not_linked() {
    let t = tusk(4);
    // author a cites only itself: the leader of round 2 (author 2) is not
    // reached from the leader of round 4 (author 3)
    let dag = full_dag(4, 6, &|_, a| vec![a]);
    let coins: Vec<(u64, u128)> = vec![(2, 1), (4, 2)];
    let leader = &dag.get(4, &key(3)).unwrap().1;
    let out = t.order_leaders(leader, &dag, 0, &coins);
    let got: Vec<(u8, u64)> = out.iter().map(|c| (c.origin.0[0], c.round)).collect();
    assert_eq!(got, vec![(3, 4), (3, 4)]);
    // nothing to walk when the committed round is close
    let out = t.order_leaders(leader, &dag, 3, &coins);
    assert_eq!(out.len(), 1);
}

use rubato::model::BreezeCertificate;
use rubato::proposer::{Proposer, ProposerEvent};

fn meta(v: u64) -> Metadata {
    Metadata { virtual_round: v, virtual_parents: Vec::new() }
}

#[test]
fn proposer_waits_for_parents_metadata_and_payload_or_timer() {
    let mut p = Proposer::new(key(1), 64, 100, vec![digest(0, 1), digest(0, 2)]);
    assert_eq!(p.round, 1);
    // no metadata yet
    assert!(p.try_propose(true).is_none());
    p.on_event(ProposerEvent::Metadata(meta(1)));
    p.on_event(ProposerEvent::Metadata(meta(2)));
    // metadata and parents, but neither timer nor payload
    assert!(p.try_propose(false).is_none());
    p.on_event(ProposerEvent::Batch(digest(9, 1), 0));
    assert_eq!(p.payload_size, 32);
    assert!(p.try_propose(false).is_none());
    p.on_event(ProposerEvent::Batch(digest(9, 2), 1));
    p.on_event(ProposerEvent::Certificate(BreezeCertificate { c: digest(7, 7), epoch: 3, certificates: Vec::new() }));
    p.on_event(ProposerEvent::Certificate(BreezeCertificate { c: digest(8, 8), epoch: 4, certificates: Vec::new() }));
    let h = p.try_propose(false).unwrap();
    assert_eq!(h.round, 1);
    assert_eq!(h.payload.len(), 2);
    assert_eq!(h.parents.len(), 2);
    // the oldest metadata and the oldest certificate go first
    assert_eq!(h.metadata.unwrap().virtual_round, 1);
    assert_eq!(h.breeze_certificate.unwrap().epoch, 3);
    assert_eq!(p.payload_size, 0);
    assert!(p.digests.is_empty());
    // no parents now
    assert!(p.try_propose(true).is_none());
}

#[test]
fn proposer_moves_to_the_round_after_its_parents() {
    let mut p = Proposer::new(key(1), 64, 100, Vec::new());
    p.on_event(ProposerEvent::Parents(vec![digest(3, 1)], 3));
    assert_eq!(p.round, 4);
    assert_eq!(p.last_parents.len(), 1);
    // older parents are ignored
    p.on_event(ProposerEvent::Parents(vec![digest(1, 1), digest(1, 2)], 2));
    assert_eq!(p.round, 4);
    assert_eq!(p.last_parents.len(), 1);
    p.on_event(ProposerEvent::Metadata(meta(5)));
    let h = p.try_propose(true).unwrap();
    assert_eq!(h.round, 4);
    assert!(h.breeze_certificate.is_none());
}
