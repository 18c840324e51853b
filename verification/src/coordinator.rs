//! The beacon coordinator: it drives the sharing of each epoch, collects the
//! decided certificates into a common core per epoch and answers requests for
//! global coins and beacon values, asking for reconstruction where needed.
//!
//! The coordinator is a state machine: [`Coordinator::step`] takes the state
//! and one incoming event and gives the next state and at most one outgoing
//! action.  Moving messages between channels is left to the caller.

use vstd::prelude::*;
use crate::assoc::{assoc_map, keys_distinct, lemma_assoc_at, lemma_assoc_absent, lemma_assoc_push, lemma_assoc_update};
use crate::crypto::Digest;
use crate::model::{BreezeCertificate, BreezeReconRequest, DagError};
use crate::types_and_const::{
    Epoch, RandomNum, Round, round_to_epoch_index, epoch_index_to_round, lemma_round_index_roundtrip,
};

verus! {

/// What reaches the coordinator.
pub enum CoordinatorEvent {
    /// A certificate completed by the local sharing instance.
    CertificateFromBreeze(BreezeCertificate),
    /// The common core of epoch 0 decided by the initial agreement.
    CommonCoreFromInit(Vec<BreezeCertificate>),
    /// A certificate ordered by the consensus.
    CertificateDecided(BreezeCertificate),
    /// The consensus asks for the global coin of a round.
    GlobalCoinRequest(Round),
    /// A consumer asks for beacon value `index` of an epoch.
    BeaconRequest(Epoch, usize),
    /// A reconstructed value for (epoch, index).
    ReconResult(Epoch, usize, RandomNum),
}

/// What the coordinator sends out.
pub enum CoordinatorAction {
    /// Start sharing for this epoch.
    ShareCommand(Epoch),
    /// Propose a certificate to the initial agreement.
    ToInitConsensus(BreezeCertificate),
    /// Propose a certificate to the consensus.
    ToConsensus(BreezeCertificate),
    /// Ask for the reconstruction of a slot.
    ReconRequest(BreezeReconRequest),
    /// Answer to a global coin request.
    CoinResult(Round, Result<RandomNum, DagError>),
    /// Answer to a beacon request.
    BeaconResult((Epoch, usize), Result<RandomNum, DagError>),
}

/// No two certificates of the sequence are equal.
pub open spec fn certs_distinct(s: Seq<BreezeCertificate>) -> bool {
    forall|i: int, j: int|
        0 <= i < s.len() && 0 <= j < s.len() && i != j ==> !s[i].spec_same(&s[j])
}

/// The digests named by a sequence of certificates.
pub open spec fn cert_digests(s: Seq<BreezeCertificate>) -> Set<Seq<u8>> {
    Set::new(|d: Seq<u8>| exists|i: int| 0 <= i < s.len() && (#[trigger] s[i]).c.0@ == d)
}

/// The digests of a list, as byte strings.
pub open spec fn digest_set(s: Seq<Digest>) -> Set<Seq<u8>> {
    Set::new(|d: Seq<u8>| exists|i: int| 0 <= i < s.len() && (#[trigger] s[i]).0@ == d)
}

/// No digest occurs twice in the list.
pub open spec fn digests_distinct(s: Seq<Digest>) -> bool {
    forall|i: int, j: int| 0 <= i < s.len() && 0 <= j < s.len() && i != j ==> s[i].0@ != s[j].0@
}

/// The certificate sequence after adding `cer` as to a set.
pub open spec fn cert_set_insert(s: Seq<BreezeCertificate>, cer: BreezeCertificate) -> Seq<
    BreezeCertificate,
> {
    if exists|i: int| 0 <= i < s.len() && (#[trigger] s[i]).spec_same(&cer) {
        s
    } else {
        s.push(cer)
    }
}

/// The reconstruction request for slot `index` of epoch `epoch`, built from
/// the certificates of the epoch's common core.
pub open spec fn is_recon_request(
    req: BreezeReconRequest,
    certs: Seq<BreezeCertificate>,
    epoch: Epoch,
    index: int,
) -> bool {
    &&& req.epoch == epoch
    &&& req.index == index
    &&& digests_distinct(req.c@)
    &&& digest_set(req.c@) == cert_digests(certs)
}

/// State of the coordinator.
pub struct Coordinator {
    fault_tolerance: usize,
    max_epoch: u64,
    beacon_per_epoch: u64,
    certificate_buffer: Vec<(Epoch, Vec<BreezeCertificate>)>,
    decided_common_core: Vec<Epoch>,
    beacon_reconstructed: Vec<((Epoch, usize), RandomNum)>,
}

impl Coordinator {
    /// Number of faulty authorities tolerated.
    pub closed spec fn spec_fault_tolerance(&self) -> usize {
        self.fault_tolerance
    }

    /// Number of epochs (global coins per epoch).
    pub closed spec fn spec_max_epoch(&self) -> u64 {
        self.max_epoch
    }

    /// Number of beacon values per epoch.
    pub closed spec fn spec_beacon_per_epoch(&self) -> u64 {
        self.beacon_per_epoch
    }

    /// The certificates collected per epoch.
    pub closed spec fn buffer(&self) -> Map<Epoch, Seq<BreezeCertificate>> {
        assoc_map(self.certificate_buffer@).map_values(|l: Vec<BreezeCertificate>| l@)
    }

    /// The epochs whose common core is decided.
    pub closed spec fn decided(&self) -> Set<Epoch> {
        Set::new(|e: Epoch| self.decided_common_core@.contains(e))
    }

    /// The reconstructed values, by (epoch, index).
    pub closed spec fn beacons(&self) -> Map<(Epoch, usize), RandomNum> {
        assoc_map(self.beacon_reconstructed@)
    }

    /// Well-formedness: keys occur once, every decided epoch has its
    /// certificates, the certificates of an epoch form a set, and the
    /// parameters leave room for the index arithmetic.
    pub closed spec fn wf(&self) -> bool {
        &&& self.max_epoch > 0
        &&& 2 * self.max_epoch <= u64::MAX
        &&& 2 * self.max_epoch <= usize::MAX
        &&& self.max_epoch + self.beacon_per_epoch <= usize::MAX
        &&& self.fault_tolerance < usize::MAX
        &&& keys_distinct(self.certificate_buffer@)
        &&& keys_distinct(self.beacon_reconstructed@)
        &&& forall|i: int|
            0 <= i < self.certificate_buffer@.len() ==> certs_distinct(
                (#[trigger] self.certificate_buffer@[i]).1@,
            )
        &&& forall|e: Epoch|
            #[trigger] self.decided_common_core@.contains(e) ==> self.buffer().dom().contains(e)
    }

    /// Holds of an event on which the coordinator does not abort: a coin
    /// request names a positive round, the epoch after a decided one and
    /// the round of a reconstructed coin fit in 64 bits, and a common core
    /// holds no certificate twice.
    pub open spec fn event_ok(&self, event: &CoordinatorEvent) -> bool {
        match event {
            CoordinatorEvent::CommonCoreFromInit(cc) => certs_distinct(cc@),
            CoordinatorEvent::CertificateDecided(cer) => cer.epoch < u64::MAX,
            CoordinatorEvent::GlobalCoinRequest(round) => *round > 0,
            CoordinatorEvent::ReconResult(epoch, index, _) => *index <= self.spec_max_epoch()
                ==> *epoch * (2 * self.spec_max_epoch()) + *index <= u64::MAX,
            _ => true,
        }
    }
}

/// The coordinator's parameters are those of `s`.
pub open spec fn same_params(s: Coordinator, t: Coordinator) -> bool {
    &&& t.spec_fault_tolerance() == s.spec_fault_tolerance()
    &&& t.spec_max_epoch() == s.spec_max_epoch()
    &&& t.spec_beacon_per_epoch() == s.spec_beacon_per_epoch()
}

/// Buffer, decided epochs and reconstructed values are those of `s`.
pub open spec fn same_data(s: Coordinator, t: Coordinator) -> bool {
    &&& t.buffer() == s.buffer()
    &&& t.decided() == s.decided()
    &&& t.beacons() == s.beacons()
}

/// The certificates of epoch `e`, empty where none were collected.
pub open spec fn certs_of(s: Coordinator, e: Epoch) -> Seq<BreezeCertificate> {
    if s.buffer().dom().contains(e) {
        s.buffer()[e]
    } else {
        Seq::empty()
    }
}

/// The answer to a request for slot `index` of epoch `epoch`: an error, a
/// value already reconstructed, or a request for reconstruction of slot
/// `recon_index`.
pub open spec fn answer_or_request(
    s: Coordinator,
    epoch: Epoch,
    index: usize,
    recon_index: int,
    answer: spec_fn(Result<RandomNum, DagError>) -> CoordinatorAction,
    action: Option<CoordinatorAction>,
) -> bool {
    if !s.decided().contains(epoch) {
        action == Some(answer(Err(DagError::NoCommonCore)))
    } else if s.beacons().dom().contains((epoch, index)) {
        action == Some(answer(Ok(s.beacons()[(epoch, index)])))
    } else {
        &&& action is Some
        &&& action->0 is ReconRequest
        &&& is_recon_request(action->0->ReconRequest_0, certs_of(s, epoch), epoch, recon_index)
    }
}

/// One step of the coordinator: from state `s`, on `event`, to state `t`
/// with `action` sent out.
pub open spec fn step_spec(
    s: Coordinator,
    event: CoordinatorEvent,
    t: Coordinator,
    action: Option<CoordinatorAction>,
) -> bool {
    let m = s.spec_max_epoch();
    &&& same_params(s, t)
    &&& match event {
        CoordinatorEvent::CertificateFromBreeze(cer) => {
            &&& same_data(s, t)
            &&& action == Some(
                if cer.epoch == 0 {
                    CoordinatorAction::ToInitConsensus(cer)
                } else {
                    CoordinatorAction::ToConsensus(cer)
                },
            )
        },
        CoordinatorEvent::CommonCoreFromInit(cc) => {
            &&& t.buffer() == s.buffer().insert(0, cc@)
            &&& t.decided() == s.decided().insert(0)
            &&& t.beacons() == s.beacons()
            &&& action == Some(CoordinatorAction::ShareCommand(1))
        },
        CoordinatorEvent::CertificateDecided(cer) => {
            let e = cer.epoch;
            let certs = cert_set_insert(certs_of(s, e), cer);
            if s.decided().contains(e) {
                same_data(s, t) && action is None
            } else {
                &&& t.buffer() == s.buffer().insert(e, certs)
                &&& t.beacons() == s.beacons()
                &&& if certs.len() >= s.spec_fault_tolerance() + 1 {
                    &&& t.decided() == s.decided().insert(e)
                    &&& action == Some(CoordinatorAction::ShareCommand((e + 1) as u64))
                } else {
                    t.decided() == s.decided() && action is None
                }
            }
        },
        CoordinatorEvent::GlobalCoinRequest(round) => {
            let epoch = (round - 1) / (2 * m as int) + 1;
            let index = (round - 1) % (2 * m as int) + 1;
            &&& same_data(s, t)
            &&& if index > m {
                action == Some(CoordinatorAction::CoinResult(round, Err(DagError::InvalidIndex)))
            } else {
                answer_or_request(
                    s,
                    (epoch - 1) as u64,
                    index as usize,
                    index,
                    |r: Result<RandomNum, DagError>| CoordinatorAction::CoinResult(round, r),
                    action,
                )
            }
        },
        CoordinatorEvent::BeaconRequest(epoch, index) => {
            &&& same_data(s, t)
            &&& if s.decided().contains(epoch) && index > s.spec_beacon_per_epoch() {
                action == Some(
                    CoordinatorAction::BeaconResult((epoch, index), Err(DagError::InvalidIndex)),
                )
            } else {
                answer_or_request(
                    s,
                    epoch,
                    index,
                    index + m,
                    |r: Result<RandomNum, DagError>|
                        CoordinatorAction::BeaconResult((epoch, index), r),
                    action,
                )
            }
        },
        CoordinatorEvent::ReconResult(epoch, index, value) => {
            &&& t.buffer() == s.buffer()
            &&& t.decided() == s.decided()
            &&& t.beacons() == s.beacons().insert((epoch, index), value)
            &&& action == if index <= m {
                Some(
                    CoordinatorAction::CoinResult(
                        (epoch * (2 * m as int) + index) as u64,
                        Ok(value),
                    ),
                )
            } else if index <= m + s.spec_beacon_per_epoch() {
                Some(CoordinatorAction::BeaconResult((epoch, (index - m) as usize), Ok(value)))
            } else {
                None
            }
        },
    }
}

/// Whether a certificate equal to `cer` is in the list.
fn holds_same(certs: &Vec<BreezeCertificate>, cer: &BreezeCertificate) -> (r: bool)
    ensures
        r == exists|i: int| 0 <= i < certs@.len() && (#[trigger] certs@[i]).spec_same(cer),
{
    let mut i: usize = 0;
    while i < certs.len()
        invariant
            i <= certs.len(),
            forall|j: int| 0 <= j < i ==> !(#[trigger] certs@[j]).spec_same(cer),
        decreases certs.len() - i,
    {
        if certs[i].same_as(cer) {
            return true;
        }
        i = i + 1;
    }
    false
}

/// Whether the digest is in the list.
fn holds_digest(list: &Vec<Digest>, d: &Digest) -> (r: bool)
    ensures
        r == digest_set(list@).contains(d.0@),
{
    let mut i: usize = 0;
    while i < list.len()
        invariant
            i <= list.len(),
            forall|j: int| 0 <= j < i ==> (#[trigger] list@[j]).0@ != d.0@,
        decreases list.len() - i,
    {
        if list[i].same(d) {
            assert(list@[i as int].0@ == d.0@);
            return true;
        }
        i = i + 1;
    }
    false
}

/// The digests named by the certificates, each once.
fn digests_of(certs: &Vec<BreezeCertificate>) -> (v: Vec<Digest>)
    ensures
        digests_distinct(v@),
        digest_set(v@) == cert_digests(certs@),
{
    let mut v: Vec<Digest> = Vec::new();
    let mut i: usize = 0;
    while i < certs.len()
        invariant
            i <= certs.len(),
            digests_distinct(v@),
            digest_set(v@) == cert_digests(certs@.subrange(0, i as int)),
        decreases certs.len() - i,
    {
        let d = certs[i].c;
        let ghost before = v@;
        let ghost sub = certs@.subrange(0, i as int);
        let ghost next = certs@.subrange(0, i + 1);
        if !holds_digest(&v, &d) {
            v.push(d);
            proof {
                assert(v@[before.len() as int] == d);
                assert forall|a: int, b: int|
                    0 <= a < v@.len() && 0 <= b < v@.len() && a != b implies v@[a].0@
                    != v@[b].0@ by {
                    if a == before.len() {
                        assert(v@[b] == before[b]);
                        assert(!digest_set(before).contains(d.0@));
                    } else if b == before.len() {
                        assert(v@[a] == before[a]);
                        assert(!digest_set(before).contains(d.0@));
                    } else {
                        assert(v@[a] == before[a] && v@[b] == before[b]);
                    }
                }
            }
        }
        proof {
            assert(next[i as int] == certs@[i as int]);
            assert forall|x: Seq<u8>| #[trigger] digest_set(v@).contains(x) == cert_digests(
                next,
            ).contains(x) by {
                if digest_set(v@).contains(x) {
                    let k = choose|k: int| 0 <= k < v@.len() && (#[trigger] v@[k]).0@ == x;
                    if k < before.len() {
                        assert(v@[k] == before[k]);
                        assert(digest_set(before).contains(x));
                        let j = choose|j: int| 0 <= j < sub.len() && (#[trigger] sub[j]).c.0@ == x;
                        assert(next[j] == sub[j]);
                    } else {
                        assert(next[i as int].c.0@ == x);
                    }
                }
                if cert_digests(next).contains(x) {
                    let j = choose|j: int| 0 <= j < next.len() && (#[trigger] next[j]).c.0@ == x;
                    if j < i {
                        assert(next[j] == sub[j]);
                        assert(cert_digests(sub).contains(x));
                        let k = choose|k: int| 0 <= k < before.len() && (#[trigger] before[k]).0@ == x;
                        assert(v@[k] == before[k]);
                    } else {
                        if digest_set(before).contains(x) {
                            let k = choose|k: int| 0 <= k < before.len() && (#[trigger] before[k]).0@ == x;
                            assert(v@[k] == before[k]);
                        } else {
                            assert(v@[before.len() as int] == d);
                        }
                    }
                }
            }
            assert(digest_set(v@) =~= cert_digests(next));
        }
        i = i + 1;
    }
    assert(certs@.subrange(0, certs.len() as int) =~= certs@);
    v
}

impl Coordinator {
    /// A coordinator with nothing collected yet.
    pub fn new(fault_tolerance: usize, max_epoch: u64, beacon_per_epoch: u64) -> (c: Self)
        requires
            max_epoch > 0,
            2 * max_epoch <= u64::MAX,
            2 * max_epoch <= usize::MAX,
            max_epoch + beacon_per_epoch <= usize::MAX,
            fault_tolerance < usize::MAX,
        ensures
            c.wf(),
            c.spec_fault_tolerance() == fault_tolerance,
            c.spec_max_epoch() == max_epoch,
            c.spec_beacon_per_epoch() == beacon_per_epoch,
            c.buffer() == Map::<Epoch, Seq<BreezeCertificate>>::empty(),
            c.decided() == Set::<Epoch>::empty(),
            c.beacons() == Map::<(Epoch, usize), RandomNum>::empty(),
    {
        let c = Coordinator {
            fault_tolerance,
            max_epoch,
            beacon_per_epoch,
            certificate_buffer: Vec::new(),
            decided_common_core: Vec::new(),
            beacon_reconstructed: Vec::new(),
        };
        assert(c.buffer() =~= Map::<Epoch, Seq<BreezeCertificate>>::empty());
        assert(c.decided() =~= Set::<Epoch>::empty());
        assert(c.beacons() =~= Map::<(Epoch, usize), RandomNum>::empty());
        c
    }

    /// The first action: start sharing for epoch 0.
    pub fn start(&self) -> (a: CoordinatorAction)
        ensures
            a == CoordinatorAction::ShareCommand(0),
    {
        CoordinatorAction::ShareCommand(0)
    }

    /// Position of epoch `e` in the buffer.
    fn buffer_index(&self, e: Epoch) -> (r: Option<usize>)
        requires
            keys_distinct(self.certificate_buffer@),
        ensures
            match r {
                Some(i) => {
                    &&& i < self.certificate_buffer@.len()
                    &&& self.certificate_buffer@[i as int].0 == e
                    &&& self.buffer().dom().contains(e)
                    &&& self.buffer()[e] == self.certificate_buffer@[i as int].1@
                },
                None => !self.buffer().dom().contains(e),
            },
    {
        let mut i: usize = 0;
        while i < self.certificate_buffer.len()
            invariant
                i <= self.certificate_buffer.len(),
                keys_distinct(self.certificate_buffer@),
                forall|j: int| 0 <= j < i ==> (#[trigger] self.certificate_buffer@[j]).0 != e,
            decreases self.certificate_buffer.len() - i,
        {
            if self.certificate_buffer[i].0 == e {
                proof {
                    lemma_assoc_at(self.certificate_buffer@, i as int);
                }
                return Some(i);
            }
            i = i + 1;
        }
        proof {
            lemma_assoc_absent(self.certificate_buffer@, e);
        }
        None
    }

    /// Whether the common core of epoch `e` is decided.
    fn is_decided(&self, e: Epoch) -> (r: bool)
        ensures
            r == self.decided().contains(e),
    {
        let mut i: usize = 0;
        while i < self.decided_common_core.len()
            invariant
                i <= self.decided_common_core.len(),
                forall|j: int| 0 <= j < i ==> self.decided_common_core@[j] != e,
            decreases self.decided_common_core.len() - i,
        {
            if self.decided_common_core[i] == e {
                assert(self.decided_common_core@[i as int] == e);
                return true;
            }
            i = i + 1;
        }
        false
    }

    /// The value reconstructed for (epoch, index), if any.
    fn reconstructed(&self, epoch: Epoch, index: usize) -> (r: Option<RandomNum>)
        requires
            keys_distinct(self.beacon_reconstructed@),
        ensures
            match r {
                Some(v) => self.beacons().dom().contains((epoch, index)) && self.beacons()[(
                    epoch,
                    index,
                )] == v,
                None => !self.beacons().dom().contains((epoch, index)),
            },
    {
        let mut i: usize = 0;
        while i < self.beacon_reconstructed.len()
            invariant
                i <= self.beacon_reconstructed.len(),
                keys_distinct(self.beacon_reconstructed@),
                forall|j: int|
                    0 <= j < i ==> (#[trigger] self.beacon_reconstructed@[j]).0 != (epoch, index),
            decreases self.beacon_reconstructed.len() - i,
        {
            let k = self.beacon_reconstructed[i].0;
            if k.0 == epoch && k.1 == index {
                proof {
                    lemma_assoc_at(self.beacon_reconstructed@, i as int);
                }
                return Some(self.beacon_reconstructed[i].1);
            }
            i = i + 1;
        }
        proof {
            lemma_assoc_absent(self.beacon_reconstructed@, (epoch, index));
        }
        None
    }

    /// Records a reconstructed value.
    fn record(&mut self, epoch: Epoch, index: usize, value: RandomNum)
        requires
            old(self).wf(),
        ensures
            final(self).wf(),
            same_params(*old(self), *final(self)),
            final(self).buffer() == old(self).buffer(),
            final(self).decided() == old(self).decided(),
            final(self).beacons() == old(self).beacons().insert((epoch, index), value),
    {
        let mut i: usize = 0;
        while i < self.beacon_reconstructed.len()
            invariant
                i <= self.beacon_reconstructed.len(),
                *self == *old(self),
                self.wf(),
                forall|j: int|
                    0 <= j < i ==> (#[trigger] self.beacon_reconstructed@[j]).0 != (epoch, index),
            decreases self.beacon_reconstructed.len() - i,
        {
            let k = self.beacon_reconstructed[i].0;
            if k.0 == epoch && k.1 == index {
                proof {
                    lemma_assoc_update(self.beacon_reconstructed@, i as int, value);
                }
                self.beacon_reconstructed[i] = ((epoch, index), value);
                assert(self.buffer() == old(self).buffer());
                return ;
            }
            i = i + 1;
        }
        proof {
            lemma_assoc_absent(self.beacon_reconstructed@, (epoch, index));
            lemma_assoc_push(self.beacon_reconstructed@, (epoch, index), value);
        }
        self.beacon_reconstructed.push(((epoch, index), value));
        assert(self.buffer() == old(self).buffer());
    }
}

/// Outcome of looking up a slot of an epoch.
enum Lookup {
    NoCommonCore,
    Known(RandomNum),
    Missing(BreezeReconRequest),
}

impl Coordinator {
    /// Looks up slot `index` of `epoch`; where it is not known yet, builds
    /// the request to reconstruct slot `recon_index`.
    fn lookup(&self, epoch: Epoch, index: usize, recon_index: usize) -> (r: Lookup)
        requires
            self.wf(),
        ensures
            match r {
                Lookup::NoCommonCore => !self.decided().contains(epoch),
                Lookup::Known(v) => {
                    &&& self.decided().contains(epoch)
                    &&& self.beacons().dom().contains((epoch, index))
                    &&& self.beacons()[(epoch, index)] == v
                },
                Lookup::Missing(req) => {
                    &&& self.decided().contains(epoch)
                    &&& !self.beacons().dom().contains((epoch, index))
                    &&& is_recon_request(req, certs_of(*self, epoch), epoch, recon_index as int)
                },
            },
    {
        if !self.is_decided(epoch) {
            return Lookup::NoCommonCore;
        }
        match self.reconstructed(epoch, index) {
            Some(v) => Lookup::Known(v),
            None => {
                assert(self.decided_common_core@.contains(epoch));
                match self.buffer_index(epoch) {
                    Some(i) => {
                        let c = digests_of(&self.certificate_buffer[i].1);
                        Lookup::Missing(BreezeReconRequest { c, epoch, index: recon_index })
                    },
                    None => {
                        assert(false);
                        Lookup::NoCommonCore
                    },
                }
            },
        }
    }

    /// Answer to a global coin request.
    fn coin_request(&self, round: Round) -> (a: CoordinatorAction)
        requires
            self.wf(),
            round > 0,
        ensures
            step_spec(
                *self,
                CoordinatorEvent::GlobalCoinRequest(round),
                *self,
                Some(a),
            ),
    {
        let (epoch, index) = round_to_epoch_index(round, self.max_epoch);
        if index > self.max_epoch as usize {
            return CoordinatorAction::CoinResult(round, Err(DagError::InvalidIndex));
        }
        let epoch = epoch - 1;
        match self.lookup(epoch, index, index) {
            Lookup::NoCommonCore => CoordinatorAction::CoinResult(
                round,
                Err(DagError::NoCommonCore),
            ),
            Lookup::Known(v) => CoordinatorAction::CoinResult(round, Ok(v)),
            Lookup::Missing(req) => CoordinatorAction::ReconRequest(req),
        }
    }

    /// Answer to a beacon request.
    fn beacon_request(&self, epoch: Epoch, index: usize) -> (a: CoordinatorAction)
        requires
            self.wf(),
        ensures
            step_spec(
                *self,
                CoordinatorEvent::BeaconRequest(epoch, index),
                *self,
                Some(a),
            ),
    {
        if !self.is_decided(epoch) {
            return CoordinatorAction::BeaconResult((epoch, index), Err(DagError::NoCommonCore));
        }
        if index > self.beacon_per_epoch as usize {
            return CoordinatorAction::BeaconResult((epoch, index), Err(DagError::InvalidIndex));
        }
        let recon_index = index + self.max_epoch as usize;
        match self.lookup(epoch, index, recon_index) {
            Lookup::NoCommonCore => CoordinatorAction::BeaconResult(
                (epoch, index),
                Err(DagError::NoCommonCore),
            ),
            Lookup::Known(v) => CoordinatorAction::BeaconResult((epoch, index), Ok(v)),
            Lookup::Missing(req) => CoordinatorAction::ReconRequest(req),
        }
    }
}

impl Coordinator {
    /// Marks epoch `e` as decided.
    fn mark_decided(&mut self, e: Epoch)
        requires
            old(self).wf(),
            old(self).buffer().dom().contains(e),
        ensures
            final(self).wf(),
            same_params(*old(self), *final(self)),
            final(self).buffer() == old(self).buffer(),
            final(self).beacons() == old(self).beacons(),
            final(self).decided() == old(self).decided().insert(e),
    {
        if !self.is_decided(e) {
            let ghost before = self.decided_common_core@;
            self.decided_common_core.push(e);
            proof {
                assert(self.decided_common_core@[before.len() as int] == e);
                assert forall|x: Epoch| #[trigger]
                    self.decided_common_core@.contains(x) == (before.contains(x) || x == e) by {
                    if self.decided_common_core@.contains(x) {
                        let k = choose|k: int|
                            0 <= k < self.decided_common_core@.len()
                                && self.decided_common_core@[k] == x;
                        if k < before.len() {
                            assert(before[k] == x);
                        }
                    }
                    if before.contains(x) {
                        let k = choose|k: int| 0 <= k < before.len() && before[k] == x;
                        assert(self.decided_common_core@[k] == x);
                    }
                }
                assert(self.decided() =~= old(self).decided().insert(e));
            }
        } else {
            assert(self.decided() =~= old(self).decided().insert(e));
        }
    }

    /// Stores the common core of epoch 0.
    fn set_common_core(&mut self, cc: Vec<BreezeCertificate>)
        requires
            old(self).wf(),
            certs_distinct(cc@),
        ensures
            final(self).wf(),
            same_params(*old(self), *final(self)),
            final(self).buffer() == old(self).buffer().insert(0, cc@),
            final(self).beacons() == old(self).beacons(),
            final(self).decided() == old(self).decided().insert(0),
    {
        let ghost cv = cc@;
        match self.buffer_index(0) {
            Some(i) => {
                proof {
                    lemma_assoc_update(self.certificate_buffer@, i as int, cc);
                }
                self.certificate_buffer[i] = (0, cc);
            },
            None => {
                proof {
                    lemma_assoc_push(self.certificate_buffer@, 0, cc);
                }
                self.certificate_buffer.push((0, cc));
            },
        }
        proof {
            assert(self.buffer() =~= old(self).buffer().insert(0, cv));
            assert forall|i: int| 0 <= i < self.certificate_buffer@.len() implies certs_distinct(
                (#[trigger] self.certificate_buffer@[i]).1@,
            ) by {
                if self.certificate_buffer@[i].0 != 0 {
                    let j = choose|j: int|
                        0 <= j < old(self).certificate_buffer@.len()
                            && old(self).certificate_buffer@[j].0 == self.certificate_buffer@[i].0;
                    lemma_assoc_at(old(self).certificate_buffer@, j);
                    lemma_assoc_at(self.certificate_buffer@, i);
                } else {
                    lemma_assoc_at(self.certificate_buffer@, i);
                }
            }
        }
        self.mark_decided(0);
    }
}

impl Coordinator {
    /// Adds a certificate ordered by the consensus to its epoch; when the
    /// epoch holds `fault_tolerance + 1` certificates its common core is
    /// decided and sharing for the next epoch starts.
    fn decide(&mut self, cer: BreezeCertificate) -> (a: Option<CoordinatorAction>)
        requires
            old(self).wf(),
            cer.epoch < u64::MAX,
        ensures
            final(self).wf(),
            step_spec(*old(self), CoordinatorEvent::CertificateDecided(cer), *final(self), a),
    {
        let e = cer.epoch;
        let ghost c0 = cer;
        let ghost certs = cert_set_insert(certs_of(*self, e), c0);
        if self.is_decided(e) {
            return None;
        }
        let len: usize;
        match self.buffer_index(e) {
            Some(i) => {
                let (k, mut list) = self.certificate_buffer.remove(i);
                let ghost before = list@;
                if !holds_same(&list, &cer) {
                    list.push(cer);
                    proof {
                        assert forall|a: int, b: int|
                            0 <= a < list@.len() && 0 <= b < list@.len() && a != b implies !list@[a].spec_same(
                            &list@[b],
                        ) by {
                            if a < before.len() && b < before.len() {
                                assert(list@[a] == before[a] && list@[b] == before[b]);
                            } else if a < before.len() {
                                assert(list@[a] == before[a]);
                            } else {
                                assert(list@[b] == before[b]);
                            }
                        }
                    }
                }
                assert(list@ == certs);
                len = list.len();
                let ghost lv = list;
                self.certificate_buffer.insert(i, (k, list));
                proof {
                    assert(self.certificate_buffer@ =~= old(self).certificate_buffer@.update(
                        i as int,
                        (e, lv),
                    ));
                    lemma_assoc_update(old(self).certificate_buffer@, i as int, lv);
                }
            },
            None => {
                let mut list: Vec<BreezeCertificate> = Vec::new();
                list.push(cer);
                assert(list@ =~= certs);
                len = 1;
                proof {
                    lemma_assoc_push(self.certificate_buffer@, e, list);
                }
                self.certificate_buffer.push((e, list));
            },
        }
        proof {
            assert(self.buffer() =~= old(self).buffer().insert(e, certs));
            assert(self.decided() =~= old(self).decided());
            assert forall|i: int| 0 <= i < self.certificate_buffer@.len() implies certs_distinct(
                (#[trigger] self.certificate_buffer@[i]).1@,
            ) by {
                lemma_assoc_at(self.certificate_buffer@, i);
                if self.certificate_buffer@[i].0 != e {
                    let j = choose|j: int|
                        0 <= j < old(self).certificate_buffer@.len()
                            && old(self).certificate_buffer@[j].0 == self.certificate_buffer@[i].0;
                    lemma_assoc_at(old(self).certificate_buffer@, j);
                }
            }
        }
        if len >= self.fault_tolerance + 1 {
            self.mark_decided(e);
            Some(CoordinatorAction::ShareCommand(e + 1))
        } else {
            None
        }
    }
}

impl Coordinator {
    /// Records a reconstructed value and answers whoever asked for it: the
    /// first `max_epoch` slots of an epoch are global coins of the next
    /// epoch, the following `beacon_per_epoch` slots are beacon values.
    fn recon_result(&mut self, epoch: Epoch, index: usize, value: RandomNum) -> (a: Option<
        CoordinatorAction,
    >)
        requires
            old(self).wf(),
            index <= old(self).spec_max_epoch() ==> epoch * (2 * old(self).spec_max_epoch())
                + index <= u64::MAX,
        ensures
            final(self).wf(),
            step_spec(
                *old(self),
                CoordinatorEvent::ReconResult(epoch, index, value),
                *final(self),
                a,
            ),
    {
        self.record(epoch, index, value);
        let max_epoch = self.max_epoch;
        if index <= max_epoch as usize {
            assert(epoch + 1 <= u64::MAX) by (nonlinear_arith)
                requires
                    epoch * (2 * max_epoch) + index <= u64::MAX,
                    max_epoch >= 1,
            ;
            let round = epoch_index_to_round(epoch + 1, index, max_epoch);
            Some(CoordinatorAction::CoinResult(round, Ok(value)))
        } else if index <= (max_epoch + self.beacon_per_epoch) as usize {
            Some(CoordinatorAction::BeaconResult((epoch, index - max_epoch as usize), Ok(value)))
        } else {
            None
        }
    }

    /// One step: handles `event` and gives the action to perform, if any.
    pub fn step(&mut self, event: CoordinatorEvent) -> (a: Option<CoordinatorAction>)
        requires
            old(self).wf(),
            old(self).event_ok(&event),
        ensures
            final(self).wf(),
            step_spec(*old(self), event, *final(self), a),
    {
        match event {
            CoordinatorEvent::CertificateFromBreeze(cer) => {
                if cer.epoch == 0 {
                    Some(CoordinatorAction::ToInitConsensus(cer))
                } else {
                    Some(CoordinatorAction::ToConsensus(cer))
                }
            },
            CoordinatorEvent::CommonCoreFromInit(cc) => {
                self.set_common_core(cc);
                Some(CoordinatorAction::ShareCommand(1))
            },
            CoordinatorEvent::CertificateDecided(cer) => self.decide(cer),
            CoordinatorEvent::GlobalCoinRequest(round) => Some(self.coin_request(round)),
            CoordinatorEvent::BeaconRequest(epoch, index) => Some(
                self.beacon_request(epoch, index),
            ),
            CoordinatorEvent::ReconResult(epoch, index, value) => self.recon_result(
                epoch,
                index,
                value,
            ),
        }
    }
}

/// Law: the set of decided epochs only grows, and apart from a new common
/// core for epoch 0 no event changes the certificates of a decided epoch.
pub proof fn lemma_decided_epochs_stay(
    s: Coordinator,
    event: CoordinatorEvent,
    t: Coordinator,
    action: Option<CoordinatorAction>,
    e: Epoch,
)
    requires
        s.wf(),
        step_spec(s, event, t, action),
        s.decided().contains(e),
    ensures
        t.decided().contains(e),
        !(event is CommonCoreFromInit) ==> t.buffer().dom().contains(e) && t.buffer()[e]
            == s.buffer()[e],
{
    assert(s.decided_common_core@.contains(e));
}

/// Law: sharing for epoch `n` is started by a decided certificate only when
/// epoch `n - 1` becomes decided by it; as decided epochs stay decided, no
/// epoch is started twice this way.
pub proof fn lemma_share_command_once(
    s: Coordinator,
    cer: BreezeCertificate,
    t: Coordinator,
    n: Epoch,
)
    requires
        cer.epoch < u64::MAX,
        step_spec(
            s,
            CoordinatorEvent::CertificateDecided(cer),
            t,
            Some(CoordinatorAction::ShareCommand(n)),
        ),
    ensures
        n >= 1,
        !s.decided().contains((n - 1) as u64),
        t.decided().contains((n - 1) as u64),
{
}

/// Law: once slot `index` of epoch `epoch` is reconstructed, the global coin
/// of the round it stands for is answered with that value, at once and on
/// any later request while the epoch is decided.
pub proof fn lemma_coin_after_reconstruction(
    s: Coordinator,
    epoch: Epoch,
    index: usize,
    value: RandomNum,
    t: Coordinator,
    a1: Option<CoordinatorAction>,
    u: Coordinator,
    a2: Option<CoordinatorAction>,
)
    requires
        s.wf(),
        1 <= index <= s.spec_max_epoch(),
        epoch * (2 * s.spec_max_epoch()) + index <= u64::MAX,
        step_spec(s, CoordinatorEvent::ReconResult(epoch, index, value), t, a1),
        t.decided().contains(epoch),
        step_spec(
            t,
            CoordinatorEvent::GlobalCoinRequest(
                (epoch * (2 * s.spec_max_epoch()) + index) as u64,
            ),
            u,
            a2,
        ),
    ensures
        ({
            let round = (epoch * (2 * s.spec_max_epoch()) + index) as u64;
            &&& a1 == Some(CoordinatorAction::CoinResult(round, Ok(value)))
            &&& a2 == Some(CoordinatorAction::CoinResult(round, Ok(value)))
        }),
{
    let m = s.spec_max_epoch() as int;
    let round = epoch * (2 * m) + index;
    lemma_round_index_roundtrip(round, epoch + 1, index as int, m);
    assert(t.beacons().dom().contains((epoch, index)));
}

/// Law: a global coin request that asks for reconstruction is answered, once
/// the requested slot is reconstructed, with a coin for the same round.
pub proof fn lemma_coin_request_answered(
    s: Coordinator,
    round: Round,
    t: Coordinator,
    req: BreezeReconRequest,
    value: RandomNum,
    u: Coordinator,
    a: Option<CoordinatorAction>,
)
    requires
        s.wf(),
        round > 0,
        step_spec(
            s,
            CoordinatorEvent::GlobalCoinRequest(round),
            t,
            Some(CoordinatorAction::ReconRequest(req)),
        ),
        step_spec(t, CoordinatorEvent::ReconResult(req.epoch, req.index, value), u, a),
    ensures
        a == Some(CoordinatorAction::CoinResult(round, Ok(value))),
{
    let m = s.spec_max_epoch() as int;
    let e = (round - 1) / (2 * m) + 1;
    let i = (round - 1) % (2 * m) + 1;
    lemma_round_index_roundtrip(round as int, e, i, m);
    assert(req.epoch == e - 1 && req.index == i);
}

/// Law: a beacon request for a slot counted from 1 that asks for
/// reconstruction is answered, once that slot is reconstructed, with the
/// beacon value for the same (epoch, index).
pub proof fn lemma_beacon_request_answered(
    s: Coordinator,
    epoch: Epoch,
    index: usize,
    t: Coordinator,
    req: BreezeReconRequest,
    value: RandomNum,
    u: Coordinator,
    a: Option<CoordinatorAction>,
)
    requires
        s.wf(),
        index >= 1,
        step_spec(
            s,
            CoordinatorEvent::BeaconRequest(epoch, index),
            t,
            Some(CoordinatorAction::ReconRequest(req)),
        ),
        step_spec(t, CoordinatorEvent::ReconResult(req.epoch, req.index, value), u, a),
    ensures
        a == Some(CoordinatorAction::BeaconResult((epoch, index), Ok(value))),
{
}

} // verus!
