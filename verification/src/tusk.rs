//! The commit rule of the consensus: leaders elected by the beacon's coin
//! every second round, committed once enough of the next round supports
//! them, together with the earlier leaders they link to.

use vstd::prelude::*;
use crate::assoc::{key_index_from, lemma_key_index_from};
use crate::config::{total_stake, Committee};
use crate::crypto::Digest;
use crate::dag::{has_round, round_entries, same_certificate, CertView, Certificate, Dag, DagView, EntryView, dag_wf};
use crate::types_and_const::{RandomNum, Round};
use crate::virtual_state::{elected, committee_keys};

verus! {

/// The commit rule's configuration.
pub struct Tusk {
    /// The committee information.
    pub committee: Committee,
    /// The depth of the garbage collector.
    pub gc_depth: Round,
}

/// Every certificate is stored at its own round.
pub open spec fn keyed_by_round(d: DagView) -> bool {
    forall|i: int, j: int| 0 <= i < d.len() && 0 <= j < d[i].1.len() ==> (#[trigger] d[i].1[j]).1.1.1 == d[i].0
}

/// Some certificate of the frontier has `x` among its parents.
pub open spec fn cited(fr: Seq<CertView>, x: Seq<u8>) -> bool {
    exists|k: int| 0 <= k < fr.len() && (#[trigger] fr[k]).3.contains(x)
}

/// The certificates of the entries cited by the frontier, in order.
pub open spec fn step_down(es: Seq<(Seq<u8>, EntryView)>, fr: Seq<CertView>) -> Seq<CertView>
    decreases es.len(),
{
    if es.len() == 0 {
        Seq::empty()
    } else if cited(fr, es.last().1.0) {
        step_down(es.drop_last(), fr).push(es.last().1.1)
    } else {
        step_down(es.drop_last(), fr)
    }
}

/// The certificates of round `r` that `top` reaches through parents
/// (`top` alone from its own round on).
pub open spec fn frontier(d: DagView, top: CertView, r: int) -> Seq<CertView>
    decreases top.1 - r,
{
    if r >= top.1 {
        seq![top]
    } else {
        step_down(round_entries(d, r as Round), frontier(d, top, r + 1))
    }
}

/// There is a path from `leader` down to `prev`.
pub open spec fn spec_linked(d: DagView, leader: CertView, prev: CertView) -> bool {
    frontier(d, leader, prev.1 as int).contains(prev)
}

/// The coin recorded for round `r`.
pub open spec fn coin_at(coins: Seq<(Round, RandomNum)>, r: Round) -> RandomNum {
    coins[key_index_from(coins, r, 0)].1
}

/// A coin is recorded for round `r`.
pub open spec fn has_coin(coins: Seq<(Round, RandomNum)>, r: Round) -> bool {
    key_index_from(coins, r, 0) >= 0
}

/// The leader of round `r`, elected by its coin.
pub open spec fn leader_of(c: Committee, d: DagView, coins: Seq<(Round, RandomNum)>, r: Round) -> Option<EntryView> {
    elected(c, d, coin_at(coins, r) as usize, r)
}

/// The earlier leaders linked to `cur`, walking down from round `r` by
/// two while at or above `lo`.
pub open spec fn ordered(c: Committee, d: DagView, coins: Seq<(Round, RandomNum)>, cur: CertView, r: int, lo: int) -> Seq<CertView>
    decreases r - lo + 2,
{
    if r < lo || r < 0 {
        Seq::empty()
    } else {
        match leader_of(c, d, coins, r as Round) {
            Some(e) => if spec_linked(d, cur, e.1) {
                seq![e.1] + ordered(c, d, coins, e.1, r - 2, lo)
            } else {
                ordered(c, d, coins, cur, r - 2, lo)
            },
            None => ordered(c, d, coins, cur, r - 2, lo),
        }
    }
}

/// The stake of the authors of the entries whose certificates cite `dg`.
pub open spec fn support(c: Committee, es: Seq<(Seq<u8>, EntryView)>, dg: Seq<u8>) -> nat
    decreases es.len(),
{
    if es.len() == 0 {
        0
    } else {
        support(c, es.drop_last(), dg) + if es.last().1.1.3.contains(dg) {
            c.spec_stake(es.last().1.1.0)
        } else {
            0
        }
    }
}

/// What the walk from a leader at round `top` down to `lo` needs: every
/// round in between, and a coin for every second round.
pub open spec fn walk_ready(d: DagView, coins: Seq<(Round, RandomNum)>, top: int, lo: int) -> bool {
    &&& forall|r: int| lo <= r < top ==> #[trigger] has_round(d, r as Round)
    &&& forall|r: int| lo <= r <= top && (top - r) % 2 == 0 ==> #[trigger] has_coin(coins, r as Round)
}

/// The certificates the new certificate of round `round` lets the rule
/// commit, leaders in the order they were found (newest first), or `None`.
pub open spec fn commit_outcome(c: Committee, d: DagView, coins: Seq<(Round, RandomNum)>, last: Round, round: Round) -> Option<Seq<CertView>> {
    let r = round - 1;
    let leader_round = r - 2;
    if r % 2 != 0 || r < 4 || leader_round <= last {
        None
    } else {
        match leader_of(c, d, coins, leader_round as Round) {
            None => None,
            Some(e) => if support(c, round_entries(d, (r - 1) as Round), e.0) < (total_stake(c.authorities@) + 2) / 3 {
                None
            } else {
                Some(seq![e.1] + ordered(c, d, coins, e.1, leader_round, last + 2))
            },
        }
    }
}

/// The certificates as values.
pub open spec fn cert_views(v: Seq<Certificate>) -> Seq<CertView> {
    v.map_values(|c: Certificate| c.view_cert())
}

/// The coin recorded for round `r`.
fn find_coin(coins: &Vec<(Round, RandomNum)>, r: Round) -> (c: RandomNum)
    requires
        has_coin(coins@, r),
    ensures
        c == coin_at(coins@, r),
{
    let mut i: usize = 0;
    while i < coins.len()
        invariant
            i <= coins@.len(),
            key_index_from(coins@, r, 0) == key_index_from(coins@, r, i as int),
        decreases coins.len() - i,
    {
        if coins[i].0 == r {
            return coins[i].1;
        }
        i = i + 1;
    }
    proof {
        lemma_key_index_from(coins@, r, 0);
    }
    0
}

/// One step down: the certificates of the round's entries that some
/// certificate of the frontier cites.
fn step_down_exec<'a>(es: &'a Vec<(crate::crypto::PublicKey, (Digest, Certificate))>, fr: &Vec<&'a Certificate>) -> (out: Vec<&'a Certificate>)
    ensures
        out@.map_values(|c: &Certificate| c.view_cert()) == step_down(crate::dag::entries_view(es@), fr@.map_values(|c: &Certificate| c.view_cert())),
{
    let ghost frv = fr@.map_values(|c: &Certificate| c.view_cert());
    let ghost ev = crate::dag::entries_view(es@);
    let mut out: Vec<&'a Certificate> = Vec::new();
    let mut j: usize = 0;
    while j < es.len()
        invariant
            j <= es@.len(),
            frv == fr@.map_values(|c: &Certificate| c.view_cert()),
            ev == crate::dag::entries_view(es@),
            out@.map_values(|c: &Certificate| c.view_cert()) == step_down(ev.take(j as int), frv),
        decreases es.len() - j,
    {
        let d = &es[j].1.0;
        let mut any = false;
        let mut k: usize = 0;
        while k < fr.len()
            invariant
                k <= fr@.len(),
                frv == fr@.map_values(|c: &Certificate| c.view_cert()),
                any == exists|x: int| 0 <= x < k && (#[trigger] frv[x]).3.contains(d.0@),
            decreases fr.len() - k,
        {
            if fr[k].has_parent(d) {
                any = true;
            }
            proof {
                assert(frv[k as int] == fr@[k as int].view_cert());
            }
            k = k + 1;
        }
        let ghost before = out@;
        proof {
            assert(ev.take(j + 1).drop_last() =~= ev.take(j as int));
            assert(ev.take(j + 1).last() == ev[j as int]);
            assert(ev[j as int].1.0 == d.0@);
            assert(any == cited(frv, d.0@));
        }
        if any {
            out.push(&es[j].1.1);
            proof {
                assert(out@.map_values(|c: &Certificate| c.view_cert()) =~= before.map_values(|c: &Certificate| c.view_cert()).push(ev[j as int].1.1));
            }
        }
        j = j + 1;
    }
    assert(ev.take(es@.len() as int) =~= ev);
    out
}

impl Tusk {
    /// The certificate (with its digest) of the leader of `round`, elected
    /// by `coin`, the beacon's output for that round: the authority at
    /// position `coin mod n` in key order, in a committee that is not empty.
    pub fn leader<'a>(&self, round: Round, dag: &'a Dag, coin: RandomNum) -> (r: Option<&'a (Digest, Certificate)>)
        requires
            self.committee.authorities@.len() > 0,
            dag_wf(dag.view_dag()),
        ensures
            r is None <==> elected(self.committee, dag.view_dag(), coin as usize, round) is None,
            r matches Some(e) ==> elected(self.committee, dag.view_dag(), coin as usize, round) == Some((e.0.0@, e.1.view_cert())),
    {
        let n = self.committee.size();
        let i = (coin as usize) % n;
        assert(committee_keys(self.committee)[i as int] == self.committee.authorities@[i as int].0@);
        dag.get(round, &self.committee.authorities[i].0)
    }

    /// Whether there is a path from `leader` down to `prev_leader`, given
    /// every round in between.
    pub fn linked(&self, leader: &Certificate, prev_leader: &Certificate, dag: &Dag) -> (b: bool)
        requires
            dag_wf(dag.view_dag()),
            forall|r: int| prev_leader.round <= r < leader.round ==> #[trigger] has_round(dag.view_dag(), r as Round),
        ensures
            b == spec_linked(dag.view_dag(), leader.view_cert(), prev_leader.view_cert()),
    {
        let ghost dv = dag.view_dag();
        let ghost top = leader.view_cert();
        let mut parents: Vec<&Certificate> = Vec::new();
        parents.push(leader);
        let lo = prev_leader.round;
        let mut r = leader.round;
        proof {
            assert(parents@.map_values(|c: &Certificate| c.view_cert()) =~= seq![top]);
        }
        if lo < r {
            while r > lo
                invariant
                    lo <= r <= leader.round,
                    dv == dag.view_dag(),
                    dag_wf(dv),
                    top == leader.view_cert(),
                    forall|x: int| lo <= x < leader.round ==> #[trigger] has_round(dv, x as Round),
                    parents@.map_values(|c: &Certificate| c.view_cert()) == frontier(dv, top, r as int),
                decreases r - lo,
            {
                r = r - 1;
                assert(has_round(dv, r));
                let ri = match dag.find_round(r) {
                    Some(i) => i,
                    None => {
                        proof {
                            assert(false);
                        }
                        0
                    },
                };
                let next = step_down_exec(&dag.rounds[ri].certs, &parents);
                parents = next;
            }
        }
        let ghost fr = parents@.map_values(|c: &Certificate| c.view_cert());
        assert(fr == frontier(dv, top, prev_leader.round as int)) by {
            if !(lo < leader.round) {
                assert(frontier(dv, top, prev_leader.round as int) == seq![top]);
            }
        }
        let mut k: usize = 0;
        while k < parents.len()
            invariant
                k <= parents@.len(),
                fr == parents@.map_values(|c: &Certificate| c.view_cert()),
                fr == frontier(dv, top, prev_leader.round as int),
                dv == dag.view_dag(),
                top == leader.view_cert(),
                forall|x: int| 0 <= x < k ==> fr[x] != prev_leader.view_cert(),
            decreases parents.len() - k,
        {
            if same_certificate(parents[k], prev_leader) {
                assert(fr[k as int] == prev_leader.view_cert());
                assert(fr.contains(prev_leader.view_cert()));
                return true;
            }
            k = k + 1;
        }
        false
    }

    /// The leader and the earlier leaders linked to it, walking down from
    /// the leader's round by two while at or above
    /// `last_committed_round + 2`; each is added when the current one links
    /// to it, and then becomes the current one.  The leader's own round is
    /// visited too, so a leader that links to itself is listed twice.  The walk
    /// needs even rounds, every round in between and a coin for every round
    /// it visits.
    pub fn order_leaders(&self, leader: &Certificate, dag: &Dag, last_committed_round: Round, coins: &Vec<(Round, RandomNum)>) -> (out: Vec<Certificate>)
        requires
            self.committee.authorities@.len() > 0,
            dag_wf(dag.view_dag()),
            keyed_by_round(dag.view_dag()),
            last_committed_round <= u64::MAX - 2,
            last_committed_round + 2 <= leader.round ==> leader.round % 2 == 0,
            walk_ready(dag.view_dag(), coins@, leader.round as int, last_committed_round + 2),
        ensures
            cert_views(out@) == seq![leader.view_cert()] + ordered(
                self.committee,
                dag.view_dag(),
                coins@,
                leader.view_cert(),
                leader.round as int,
                last_committed_round + 2,
            ),
    {
        let ghost dv = dag.view_dag();
        let ghost target = seq![leader.view_cert()] + ordered(self.committee, dv, coins@, leader.view_cert(), leader.round as int, last_committed_round + 2);
        let lo = last_committed_round + 2;
        let mut out: Vec<Certificate> = Vec::new();
        out.push(leader.duplicate());
        assert(cert_views(out@) =~= seq![leader.view_cert()]);
        if leader.round < lo {
            assert(ordered(self.committee, dv, coins@, leader.view_cert(), leader.round as int, lo as int) == Seq::<CertView>::empty());
            assert(cert_views(out@) =~= target);
            return out;
        }
        let mut cur: &Certificate = leader;
        let mut r = leader.round;
        loop
            invariant
                lo <= r <= leader.round,
                lo == last_committed_round + 2,
                target == seq![leader.view_cert()] + ordered(self.committee, dv, coins@, leader.view_cert(), leader.round as int, last_committed_round + 2),
                (leader.round - r) % 2 == 0,
                leader.round % 2 == 0,
                r <= cur.round <= leader.round,
                dv == dag.view_dag(),
                dag_wf(dv),
                keyed_by_round(dv),
                self.committee.authorities@.len() > 0,
                walk_ready(dv, coins@, leader.round as int, lo as int),
                cert_views(out@) + ordered(self.committee, dv, coins@, cur.view_cert(), r as int, lo as int) == target,
            decreases r,
        {
            let ghost before = cert_views(out@);
            let ghost curv = cur.view_cert();
            assert(has_coin(coins@, r));
            let coin = find_coin(coins, r);
            match self.leader(r, dag, coin) {
                Some(e) => {
                    let prev = &e.1;
                    proof {
                        lemma_get_round(dv, r, committee_keys(self.committee)[((coin as usize) % (self.committee.authorities@.len() as usize)) as int]);
                        assert forall|x: int| prev.round <= x < cur.round implies #[trigger] has_round(dv, x as Round) by {
                            assert(lo <= x < leader.round);
                        }
                    }
                    if self.linked(cur, prev, dag) {
                        out.push(prev.duplicate());
                        proof {
                            assert(cert_views(out@) =~= before.push(prev.view_cert()));
                            assert(ordered(self.committee, dv, coins@, curv, r as int, lo as int) == seq![prev.view_cert()] + ordered(self.committee, dv, coins@, prev.view_cert(), r - 2, lo as int));
                            assert(before.push(prev.view_cert()) + ordered(self.committee, dv, coins@, prev.view_cert(), r - 2, lo as int) =~= before + (seq![prev.view_cert()] + ordered(self.committee, dv, coins@, prev.view_cert(), r - 2, lo as int)));
                        }
                        cur = prev;
                    } else {
                        assert(ordered(self.committee, dv, coins@, curv, r as int, lo as int) == ordered(self.committee, dv, coins@, curv, r - 2, lo as int));
                    }
                },
                None => {
                    assert(ordered(self.committee, dv, coins@, curv, r as int, lo as int) == ordered(self.committee, dv, coins@, curv, r - 2, lo as int));
                },
            }
            if r - lo < 2 {
                proof {
                    assert(ordered(self.committee, dv, coins@, cur.view_cert(), r - 2, lo as int) == Seq::<CertView>::empty());
                    assert(cert_views(out@) =~= target);
                }
                return out;
            }
            r = r - 2;
        }
    }

    /// The decision the rule takes on a new certificate of round `round`:
    /// with `r = round - 1` even and at least 4, the leader of `r - 2` (if
    /// not yet committed and present) is committed when the authors of
    /// round `r - 1` citing it hold at least the validity threshold of
    /// stake; then the leader and the earlier leaders linked to it are
    /// returned.  Every round it reads and a coin for every round it visits
    /// must be there, and the total stake must fit.
    pub fn leaders_to_commit(&self, dag: &Dag, last_committed_round: Round, round: Round, coins: &Vec<(Round, RandomNum)>) -> (out: Option<Vec<Certificate>>)
        requires
            self.committee.authorities@.len() > 0,
            total_stake(self.committee.authorities@) + 2 <= u32::MAX,
            dag_wf(dag.view_dag()),
            keyed_by_round(dag.view_dag()),
            round >= 1,
            last_committed_round <= u64::MAX - 2,
            (round - 1) % 2 == 0 && round - 1 >= 4 && round - 3 > last_committed_round ==> {
                &&& has_coin(coins@, (round - 3) as Round)
                &&& leader_of(self.committee, dag.view_dag(), coins@, (round - 3) as Round) is Some ==> {
                    &&& has_round(dag.view_dag(), (round - 2) as Round)
                    &&& walk_ready(dag.view_dag(), coins@, round - 3, last_committed_round + 2)
                }
            },
        ensures
            match out {
                Some(v) => commit_outcome(self.committee, dag.view_dag(), coins@, last_committed_round, round) == Some(cert_views(v@)),
                None => commit_outcome(self.committee, dag.view_dag(), coins@, last_committed_round, round) is None,
            },
    {
        let ghost dv = dag.view_dag();
        let r = round - 1;
        if r % 2 != 0 || r < 4 {
            return None;
        }
        let leader_round = r - 2;
        if leader_round <= last_committed_round {
            return None;
        }
        let coin = find_coin(coins, leader_round);
        let (leader_digest, leader) = match self.leader(leader_round, dag, coin) {
            Some(x) => (&x.0, &x.1),
            None => {
                return None;
            },
        };
        proof {
            lemma_get_round(dv, leader_round, committee_keys(self.committee)[((coin as usize) % (self.committee.authorities@.len() as usize)) as int]);
        }
        let ri = match dag.find_round(r - 1) {
            Some(i) => i,
            None => {
                proof {
                    assert(false);
                }
                return None;
            },
        };
        let es = &dag.rounds[ri].certs;
        let ghost ev = crate::dag::entries_view(es@);
        let mut stake: u128 = 0;
        let mut j: usize = 0;
        while j < es.len()
            invariant
                j <= es@.len(),
                ev == crate::dag::entries_view(es@),
                stake == support(self.committee, ev.take(j as int), leader_digest.0@),
                stake <= j * 0xffff_ffffu128,
            decreases es.len() - j,
        {
            let c = &es[j].1.1;
            proof {
                assert(ev.take(j + 1).drop_last() =~= ev.take(j as int));
                assert(ev.take(j + 1).last() == ev[j as int]);
            }
            if c.has_parent(leader_digest) {
                let s = self.committee.stake(&c.origin);
                stake = stake + s as u128;
            }
            j = j + 1;
        }
        assert(ev.take(es@.len() as int) =~= ev);
        let threshold = self.committee.validity_threshold();
        if stake < threshold as u128 {
            return None;
        }
        let v = self.order_leaders(leader, dag, last_committed_round, coins);
        Some(v)
    }
}

/// An entry found at round `r` holds a certificate of round `r`.
proof fn lemma_get_round(d: DagView, r: Round, k: Seq<u8>)
    requires
        dag_wf(d),
        keyed_by_round(d),
    ensures
        crate::dag::dag_get(d, r, k) matches Some(e) ==> e.1.1 == r,
{
    if crate::dag::dag_get(d, r, k) is Some {
        assert(crate::assoc::assoc_map(d).dom().contains(r));
        let i = choose|i: int| 0 <= i < d.len() && (#[trigger] d[i]).0 == r;
        crate::assoc::lemma_assoc_at(d, i);
        let s = d[i].1;
        assert(round_entries(d, r) == s);
        assert(crate::assoc::assoc_map(s).dom().contains(k));
        let j = choose|j: int| 0 <= j < s.len() && (#[trigger] s[j]).0 == k;
        crate::assoc::lemma_assoc_at(s, j);
        assert(crate::dag::dag_get(d, r, k) == Some(s[j].1));
        assert(s[j] == d[i].1[j]);
    }
}

/// In the sequence of leaders the walk commits, each leader links to the
/// next one.
pub proof fn lemma_commit_chain_linked(c: Committee, d: DagView, coins: Seq<(Round, RandomNum)>, cur: CertView, r: int, lo: int)
    ensures
        forall|i: int| 0 <= i < (seq![cur] + ordered(c, d, coins, cur, r, lo)).len() - 1 ==> spec_linked(
            d,
            #[trigger] (seq![cur] + ordered(c, d, coins, cur, r, lo))[i],
            (seq![cur] + ordered(c, d, coins, cur, r, lo))[i + 1],
        ),
    decreases r - lo + 2,
{
    let s = seq![cur] + ordered(c, d, coins, cur, r, lo);
    if r < lo || r < 0 {
        assert(s =~= seq![cur]);
    } else {
        match leader_of(c, d, coins, r as Round) {
            Some(e) => {
                if spec_linked(d, cur, e.1) {
                    lemma_commit_chain_linked(c, d, coins, e.1, r - 2, lo);
                    let t = seq![e.1] + ordered(c, d, coins, e.1, r - 2, lo);
                    assert(s =~= seq![cur] + t);
                    assert forall|i: int| 0 <= i < s.len() - 1 implies spec_linked(d, #[trigger] s[i], s[i + 1]) by {
                        if i > 0 {
                            assert(s[i] == t[i - 1]);
                            assert(s[i + 1] == t[i]);
                        } else {
                            assert(s[0] == cur);
                            assert(s[1] == e.1);
                        }
                    }
                } else {
                    lemma_commit_chain_linked(c, d, coins, cur, r - 2, lo);
                    assert(ordered(c, d, coins, cur, r, lo) == ordered(c, d, coins, cur, r - 2, lo));
                }
            },
            None => {
                lemma_commit_chain_linked(c, d, coins, cur, r - 2, lo);
                assert(ordered(c, d, coins, cur, r, lo) == ordered(c, d, coins, cur, r - 2, lo));
            },
        }
    }
}

/// A certificate links to itself.
pub proof fn lemma_linked_reflexive(d: DagView, x: CertView)
    ensures
        spec_linked(d, x, x),
{
    assert(frontier(d, x, x.1 as int) == seq![x]);
    assert(seq![x][0] == x);
}

/// Law: the support of a digest is the sum, over the entries, of their
/// authors' stake in the committee, counting only the entries whose
/// certificate cites the digest (not the number of such entries).
pub proof fn lemma_support_sums_citing_stake(c: Committee, es: Seq<(Seq<u8>, EntryView)>, dg: Seq<u8>)
    ensures
        support(c, es, dg) as int == es.map_values(
            |x: (Seq<u8>, EntryView)| if x.1.1.3.contains(dg) { c.spec_stake(x.1.1.0) as int } else { 0int },
        ).fold_left(0int, |acc: int, v: int| acc + v),
    decreases es.len(),
{
    let f = |x: (Seq<u8>, EntryView)| if x.1.1.3.contains(dg) { c.spec_stake(x.1.1.0) as int } else { 0int };
    if es.len() > 0 {
        lemma_support_sums_citing_stake(c, es.drop_last(), dg);
        assert(es.map_values(f).drop_last() =~= es.drop_last().map_values(f));
        assert(es.map_values(f).last() == f(es.last()));
    } else {
        assert(es.map_values(f) =~= Seq::<int>::empty());
    }
}

/// Law of the commit rule: for a new certificate of an odd round `round`
/// (at least 5) whose leader round `round - 3` is above the last committed
/// round, nothing is committed without a leader; with a leader, the leader
/// is committed (and comes first) exactly when the authors of round
/// `round - 2` whose certificates cite it hold, summed, at least the
/// validity threshold `(total + 2) / 3` of stake.
pub proof fn lemma_commit_by_citing_stake(c: Committee, d: DagView, coins: Seq<(Round, RandomNum)>, last: Round, round: Round)
    requires
        (round - 1) % 2 == 0,
        round - 1 >= 4,
        round - 3 > last,
    ensures
        ({
            let out = commit_outcome(c, d, coins, last, round);
            let es = round_entries(d, (round - 2) as Round);
            match leader_of(c, d, coins, (round - 3) as Round) {
                None => out is None,
                Some(e) => {
                    let stake = es.map_values(
                        |x: (Seq<u8>, EntryView)| if x.1.1.3.contains(e.0) { c.spec_stake(x.1.1.0) as int } else { 0int },
                    ).fold_left(0int, |acc: int, v: int| acc + v);
                    &&& (out is Some <==> stake >= (total_stake(c.authorities@) + 2) / 3)
                    &&& (out matches Some(v) ==> v.len() >= 1 && v[0] == e.1)
                }
            }
        }),
{
    match leader_of(c, d, coins, (round - 3) as Round) {
        None => {},
        Some(e) => {
            lemma_support_sums_citing_stake(c, round_entries(d, (round - 2) as Round), e.0);
        },
    }
}

} // verus!
