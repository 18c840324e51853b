//! The virtual consensus state: the DAG of certificates by virtual round,
//! interpreted from the metadata the certificates carry, and the leaders
//! the virtual rounds elect.

use vstd::prelude::*;
use crate::assoc::{keys_distinct, lemma_put_keyed, put_keyed};
use crate::config::Committee;
use crate::crypto::{Digest, PublicKey};
use crate::dag::{
    dag_get, dag_put, dag_wf, entries_view, has_digest, keep_at_least, round_entries,
    CertView, Certificate, Dag, DagRound, EntryView,
};
use crate::types_and_const::{RandomNum, Round};

verus! {

/// The virtual consensus state.
pub struct VirtualState {
    /// The committee information.
    pub committee: Committee,
    /// The latest certificates by virtual round and author.
    pub dag: Dag,
    /// The authorities in the steady state, by wave.
    pub steady_authorities_sets: Vec<(Round, Vec<PublicKey>)>,
    /// The authorities in the fallback state, by wave.
    pub fallback_authorities_sets: Vec<(Round, Vec<PublicKey>)>,
    pub _steady_state: bool,
}

/// Keys as byte sequences.
pub open spec fn keys_view(v: Seq<PublicKey>) -> Seq<Seq<u8>> {
    v.map_values(|k: PublicKey| k@)
}

/// Sets of authorities by wave, as values.
pub open spec fn sets_view(s: Seq<(Round, Vec<PublicKey>)>) -> Seq<(Round, Seq<Seq<u8>>)> {
    s.map_values(|e: (Round, Vec<PublicKey>)| (e.0, keys_view(e.1@)))
}

/// The keys of the committee, in order.
pub open spec fn committee_keys(c: Committee) -> Seq<Seq<u8>> {
    c.authorities@.map_values(|e: (PublicKey, crate::config::Authority)| e.0@)
}

/// The genesis certificates stored under their authors, a later one
/// replacing an earlier one of the same author.
pub open spec fn genesis_entries(g: Seq<CertView>) -> Seq<(Seq<u8>, EntryView)>
    decreases g.len(),
{
    if g.len() == 0 {
        Seq::empty()
    } else {
        put_keyed(genesis_entries(g.drop_last()), g.last().0, (g.last().2, g.last()))
    }
}

/// The certificates as values.
pub open spec fn certs_view(g: Seq<Certificate>) -> Seq<CertView> {
    g.map_values(|c: Certificate| c.view_cert())
}

/// The virtual round of a certificate with metadata.
pub open spec fn virtual_round_of(c: CertView) -> Round {
    match c.4 {
        Some(m) => m.0,
        None => 0,
    }
}

/// The DAG accepts the certificate: it carries metadata, and each of its
/// virtual parents is the digest of a certificate of the previous virtual
/// round.
pub open spec fn accepts(d: Seq<(Round, Seq<(Seq<u8>, EntryView)>)>, c: CertView) -> bool {
    match c.4 {
        Some(m) => forall|i: int| 0 <= i < m.1.len() ==> has_digest(round_entries(d, (m.0 - 1) as Round), #[trigger] m.1[i]),
        None => false,
    }
}

/// The round whose certificates a wave's leader is taken from.
pub open spec fn wave_round(wave: Round) -> Round {
    if wave == 0 {
        0
    } else {
        (wave * 2 - 1) as Round
    }
}

/// The wave whose coin elects the fallback leader of `wave`.
pub open spec fn spec_fallback_wave(wave: Round) -> Round {
    if wave % 2 == 0 {
        (wave - 1) as Round
    } else {
        wave
    }
}

/// The entry of the certificate the authority at position `seed mod n`
/// proposed in round `r`.
pub open spec fn elected(c: Committee, d: Seq<(Round, Seq<(Seq<u8>, EntryView)>)>, seed: usize, r: Round) -> Option<EntryView> {
    dag_get(d, r, committee_keys(c)[(seed % (c.authorities@.len() as usize)) as int])
}

/// The position of the leader elected by `seed` among the `n` authorities.
fn leader_index(seed: usize, n: usize) -> (i: usize)
    requires
        n > 0,
    ensures
        i == seed % n,
        i < n,
{
    seed % n
}

/// The round whose certificates a wave's leader is taken from.
fn round_of_wave(wave: Round) -> (r: Round)
    requires
        wave * 2 <= u64::MAX,
    ensures
        r == wave_round(wave),
{
    if wave == 0 {
        0
    } else {
        wave * 2 - 1
    }
}

/// The wave whose coin elects the fallback leader of `wave >= 1`: the wave
/// itself when odd, the one before when even.
pub fn fallback_wave(wave: Round) -> (w: Round)
    requires
        wave >= 1,
    ensures
        w == spec_fallback_wave(wave),
{
    if wave % 2 == 0 {
        wave - 1
    } else {
        wave
    }
}

impl VirtualState {
    /// The state is consistent: the committee is ordered by key and the DAG
    /// is a map of maps.
    pub open spec fn wf(&self) -> bool {
        &&& self.committee.wf()
        &&& dag_wf(self.dag.view_dag())
    }

    /// A new state holding the genesis certificates at round 0 (a later
    /// one replacing an earlier one of the same author), with every
    /// authority in the steady state at wave 1 and none in the fallback
    /// state.
    pub fn new(committee: Committee, genesis: Vec<Certificate>) -> (s: VirtualState)
        requires
            committee.wf(),
        ensures
            s.wf(),
            s.committee == committee,
            s.dag.view_dag() == seq![(0u64, genesis_entries(certs_view(genesis@)))],
            sets_view(s.steady_authorities_sets@) == seq![(1u64, committee_keys(committee))],
            s.fallback_authorities_sets@.len() == 0,
            s._steady_state,
    {
        let mut certs: Vec<(PublicKey, (Digest, Certificate))> = Vec::new();
        let ghost gv = certs_view(genesis@);
        let mut k: usize = 0;
        while k < genesis.len()
            invariant
                k <= genesis@.len(),
                gv == certs_view(genesis@),
                entries_view(certs@) == genesis_entries(gv.take(k as int)),
                keys_distinct(entries_view(certs@)),
            decreases genesis.len() - k,
        {
            let c = genesis[k].duplicate();
            let origin = c.origin;
            let digest = Digest(c.digest.0);
            proof {
                lemma_put_keyed(entries_view(certs@), origin@, (digest.0@, c.view_cert()));
                assert(gv.take(k + 1).drop_last() =~= gv.take(k as int));
                assert(gv.take(k + 1).last() == gv[k as int]);
            }
            crate::dag::put_author(&mut certs, origin, (digest, c));
            k = k + 1;
        }
        assert(gv.take(genesis@.len() as int) =~= gv);
        let mut rounds: Vec<DagRound> = Vec::new();
        rounds.push(DagRound { round: 0, certs });
        let dag = Dag { rounds };
        assert(dag.view_dag() =~= seq![(0u64, genesis_entries(gv))]);
        let mut keys: Vec<PublicKey> = Vec::new();
        let mut i: usize = 0;
        while i < committee.authorities.len()
            invariant
                i <= committee.authorities@.len(),
                committee_keys(committee).len() == committee.authorities@.len(),
                keys_view(keys@) == committee_keys(committee).take(i as int),
            decreases committee.authorities.len() - i,
        {
            let ghost old_keys = keys@;
            keys.push(committee.authorities[i].0);
            proof {
                let kv = keys_view(keys@);
                let ck = committee_keys(committee).take(i + 1);
                assert(committee_keys(committee)[i as int] == committee.authorities@[i as int].0@);
                assert(old_keys.len() == keys_view(old_keys).len());
                assert(keys_view(old_keys).len() == i);
                assert(keys@.len() == i + 1);
                assert(kv.len() == ck.len());
                assert forall|x: int| 0 <= x < ck.len() implies kv[x] == ck[x] by {
                    if x < i {
                        assert(keys@[x] == old_keys[x]);
                        assert(keys_view(old_keys)[x] == committee_keys(committee).take(i as int)[x]);
                    }
                }
                assert(kv =~= ck);
            }
            i = i + 1;
        }
        assert(committee_keys(committee).take(committee.authorities@.len() as int) =~= committee_keys(committee));
        let mut steady: Vec<(Round, Vec<PublicKey>)> = Vec::new();
        steady.push((1, keys));
        assert(sets_view(steady@) =~= seq![(1u64, committee_keys(committee))]);
        VirtualState {
            committee,
            dag,
            steady_authorities_sets: steady,
            fallback_authorities_sets: Vec::new(),
            _steady_state: true,
        }
    }

    /// Adds the certificate to the virtual DAG if it carries metadata whose
    /// virtual parents are all certificates of the previous virtual round,
    /// and says whether it did.  Virtual round 0, which has no previous round,
    /// is ruled out.
    pub fn try_add(&mut self, certificate: &Certificate) -> (ok: bool)
        requires
            old(self).wf(),
            certificate.metadata matches Some(m) ==> m.virtual_round >= 1,
        ensures
            final(self).wf(),
            ok == accepts(old(self).dag.view_dag(), certificate.view_cert()),
            ok ==> final(self).dag.view_dag() == dag_put(
                old(self).dag.view_dag(),
                virtual_round_of(certificate.view_cert()),
                certificate.origin@,
                (certificate.digest.0@, certificate.view_cert()),
            ),
            !ok ==> final(self).dag.view_dag() == old(self).dag.view_dag(),
            final(self).committee == old(self).committee,
            final(self).steady_authorities_sets == old(self).steady_authorities_sets,
            final(self).fallback_authorities_sets == old(self).fallback_authorities_sets,
            final(self)._steady_state == old(self)._steady_state,
    {
        let ghost dv = self.dag.view_dag();
        let m = match &certificate.metadata {
            None => {
                return false;
            },
            Some(m) => m,
        };
        let round = m.virtual_round;
        let ghost parents = crate::dag::digests(m.virtual_parents@);
        assert(certificate.view_cert().4 == Some((round, parents)));
        let mut k: usize = 0;
        while k < m.virtual_parents.len()
            invariant
                k <= m.virtual_parents@.len(),
                parents == crate::dag::digests(m.virtual_parents@),
                certificate.view_cert().4 == Some((round, parents)),
                *self == *old(self),
                old(self).wf(),
                dv == self.dag.view_dag(),
                dag_wf(dv),
                round >= 1,
                forall|i: int| 0 <= i < k ==> has_digest(round_entries(dv, (round - 1) as Round), #[trigger] parents[i]),
            decreases m.virtual_parents.len() - k,
        {
            if !self.dag.round_has_digest(round - 1, &m.virtual_parents[k]) {
                proof {
                    assert(parents[k as int] == m.virtual_parents@[k as int].0@);
                    let cv = certificate.view_cert();
                    if accepts(dv, cv) {
                        let mm = cv.4.unwrap();
                        assert(mm == (round, parents));
                        assert(has_digest(round_entries(dv, (mm.0 - 1) as Round), mm.1[k as int]));
                        assert(false);
                    }
                }
                return false;
            }
            k = k + 1;
        }
        proof {
            let cv = certificate.view_cert();
            let mm = cv.4.unwrap();
            assert(mm.0 == round && mm.1 == parents);
            assert forall|i: int| 0 <= i < mm.1.len() implies has_digest(round_entries(dv, (mm.0 - 1) as Round), #[trigger] mm.1[i]) by {
                assert(has_digest(round_entries(dv, (round - 1) as Round), parents[i]));
            }
            assert(accepts(dv, cv));
        }
        let c = certificate.duplicate();
        let origin = c.origin;
        let digest = Digest(c.digest.0);
        self.dag.put(round, origin, (digest, c));
        true
    }

    /// Drops what is older than the committed round allows: DAG rounds `r`
    /// with `r + gc_depth <= last_committed_round`, steady waves below
    /// `(last_committed_round + 1) / 2` and fallback waves below
    /// `(last_committed_round + 1) / 4`.  The largest committed round, which
    /// would overflow, is ruled out.
    pub fn cleanup(&mut self, last_committed_round: Round, gc_depth: Round)
        requires
            old(self).wf(),
            last_committed_round < u64::MAX,
        ensures
            final(self).wf(),
            final(self).dag.view_dag() == keep_at_least(old(self).dag.view_dag(), last_committed_round - gc_depth + 1),
            sets_view(final(self).steady_authorities_sets@) == keep_at_least(sets_view(old(self).steady_authorities_sets@), (last_committed_round + 1) / 2),
            sets_view(final(self).fallback_authorities_sets@) == keep_at_least(sets_view(old(self).fallback_authorities_sets@), (last_committed_round + 1) / 4),
            final(self).committee == old(self).committee,
            final(self)._steady_state == old(self)._steady_state,
    {
        self.dag.retain_recent(last_committed_round, gc_depth);
        retain_waves(&mut self.steady_authorities_sets, (last_committed_round + 1) / 2);
        retain_waves(&mut self.fallback_authorities_sets, (last_committed_round + 1) / 4);
    }

    /// The certificate (with its digest) of the steady-state leader of the
    /// wave: the authority at position `wave mod n` in key order, at round
    /// `2 * wave - 1` (round 0 for wave 0), in a committee that is not empty;
    /// the largest waves, which would overflow, are ruled out.
    pub fn steady_leader(&self, wave: Round) -> (r: Option<&(Digest, Certificate)>)
        requires
            self.wf(),
            self.committee.authorities@.len() > 0,
            wave * 2 <= u64::MAX,
        ensures
            r is None <==> elected(self.committee, self.dag.view_dag(), wave as usize, wave_round(wave)) is None,
            r matches Some(e) ==> elected(self.committee, self.dag.view_dag(), wave as usize, wave_round(wave)) == Some((e.0.0@, e.1.view_cert())),
    {
        let seed = wave;
        let i = leader_index(seed as usize, self.committee.size());
        let leader = &self.committee.authorities[i].0;
        let round = round_of_wave(wave);
        self.dag.get(round, leader)
    }

    /// The certificate (with its digest) of the fallback leader of the
    /// wave, elected by `coin`, the beacon's output for
    /// [`fallback_wave`]`(wave)`: the authority at position
    /// `coin mod n` in key order, at the round of that wave.  Wave 0, an empty
    /// committee and the largest waves (which would overflow) are ruled
    /// out.
    pub fn fallback_leader(&self, wave: Round, coin: RandomNum) -> (r: Option<&(Digest, Certificate)>)
        requires
            self.wf(),
            self.committee.authorities@.len() > 0,
            wave >= 1,
            wave * 2 <= u64::MAX,
        ensures
            r is None <==> elected(self.committee, self.dag.view_dag(), coin as usize, wave_round(spec_fallback_wave(wave))) is None,
            r matches Some(e) ==> elected(self.committee, self.dag.view_dag(), coin as usize, wave_round(spec_fallback_wave(wave))) == Some((e.0.0@, e.1.view_cert())),
    {
        let w = fallback_wave(wave);
        let i = leader_index(coin as usize, self.committee.size());
        let leader = &self.committee.authorities[i].0;
        let round = round_of_wave(w);
        self.dag.get(round, leader)
    }
}

/// Keeps the waves `w >= lo`.
fn retain_waves(sets: &mut Vec<(Round, Vec<PublicKey>)>, lo: Round)
    ensures
        sets_view(final(sets)@) == keep_at_least(sets_view(old(sets)@), lo as int),
{
    let ghost orig = sets_view(sets@);
    let mut i: usize = 0;
    let ghost mut p: int = 0;
    while i < sets.len()
        invariant
            0 <= p <= orig.len(),
            sets_view(sets@) == keep_at_least(orig.take(p), lo as int) + orig.skip(p),
            i == keep_at_least(orig.take(p), lo as int).len(),
        decreases sets@.len() - i,
    {
        let ghost cur = sets_view(sets@);
        let ghost kp = keep_at_least(orig.take(p), lo as int);
        assert(orig.skip(p) =~= seq![orig[p]] + orig.skip(p + 1));
        assert(cur[i as int] == orig[p]);
        assert(orig.take(p + 1).drop_last() =~= orig.take(p));
        assert(orig.take(p + 1).last() == orig[p]);
        if sets[i].0 >= lo {
            proof {
                assert(keep_at_least(orig.take(p + 1), lo as int) == kp.push(orig[p]));
                assert(sets_view(sets@) =~= kp.push(orig[p]) + orig.skip(p + 1));
                p = p + 1;
            }
            i = i + 1;
        } else {
            sets.remove(i);
            proof {
                assert(keep_at_least(orig.take(p + 1), lo as int) == kp);
                assert(sets_view(sets@) =~= cur.remove(i as int));
                assert(sets_view(sets@) =~= kp + orig.skip(p + 1));
                p = p + 1;
            }
        }
    }
    proof {
        assert(p == orig.len()) by {
            if p < orig.len() {
                assert(sets_view(sets@).len() > i);
            }
        }
        assert(orig.take(p) =~= orig);
    }
}

} // verus!
