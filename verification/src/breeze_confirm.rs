//! The confirm phase of a dealer: it collects the parties' signatures on
//! its digest for each epoch into a certificate and hands the certificate
//! on, once, as soon as it holds a quorum of signatures.
//!
//! [`BreezeConfirm::step`] takes the state and one incoming event and
//! gives the next state and the certificate to hand on, if any.

use vstd::prelude::*;
use crate::assoc::{assoc_map, keys_distinct, lemma_assoc_at, lemma_assoc_absent, lemma_assoc_push, lemma_assoc_update};
use crate::crypto::{Digest, PublicKey, Signature, spec_dilithium_open, spec_verify};
use crate::model::{BreezeCertificate, BreezeContent, BreezeMessage, vote_index, vote_view};
use crate::types_and_const::Epoch;

verus! {

/// What reaches the confirm phase.
pub enum ConfirmEvent {
    /// The share phase dealt epoch `.0` under digest `.1`.
    DealerDigest(Epoch, Digest),
    /// A message from a party, expected to be a reply.
    Message(BreezeMessage),
}

/// State of the confirm phase of this dealer.
pub struct BreezeConfirm {
    my_pk: PublicKey,
    quorum_threshold: usize,
    my_dealer_shares: Vec<(Epoch, Digest)>,
    certificates: Vec<(Epoch, BreezeCertificate)>,
    delivered_certificates: Vec<Epoch>,
}

impl BreezeConfirm {
    /// This dealer's key.
    pub closed spec fn spec_my_pk(&self) -> PublicKey {
        self.my_pk
    }

    /// Signatures needed for a certificate.
    pub closed spec fn spec_quorum(&self) -> usize {
        self.quorum_threshold
    }

    /// The digest dealt in each epoch.
    pub closed spec fn digests(&self) -> Map<Epoch, Digest> {
        assoc_map(self.my_dealer_shares@)
    }

    /// The certificates being collected, by epoch.
    pub closed spec fn certs(&self) -> Map<Epoch, BreezeCertificate> {
        assoc_map(self.certificates@)
    }

    /// The epochs whose certificate was handed on.
    pub closed spec fn delivered(&self) -> Set<Epoch> {
        Set::new(|e: Epoch| self.delivered_certificates@.contains(e))
    }

    /// Keys occur once, and every certificate being collected is of its
    /// epoch and holds each vote once.
    pub closed spec fn wf(&self) -> bool {
        &&& keys_distinct(self.my_dealer_shares@)
        &&& keys_distinct(self.certificates@)
        &&& forall|i: int|
            0 <= i < self.certificates@.len() ==> {
                let (e, cert) = #[trigger] self.certificates@[i];
                &&& cert.epoch == e
                &&& cert.wf()
            }
    }

    /// Holds of an event that can be taken in: a reply to
    /// this dealer for a dealt epoch carries a signed message that can be
    /// opened with the sender's key.
    pub open spec fn event_ok(&self, event: &ConfirmEvent) -> bool {
        match event {
            ConfirmEvent::Message(m) => match m.content {
                BreezeContent::Reply(rm) => rm.dealer@ == self.spec_my_pk()@ && self.digests().dom().contains(
                    rm.epoch,
                ) ==> spec_dilithium_open(rm.signature@, m.sender@) is Some,
                _ => true,
            },
            _ => true,
        }
    }

    /// A confirm phase with nothing collected.
    pub fn new(my_pk: PublicKey, quorum_threshold: usize) -> (s: Self)
        ensures
            s.wf(),
            s.spec_my_pk() == my_pk,
            s.spec_quorum() == quorum_threshold,
            s.digests() == Map::<Epoch, Digest>::empty(),
            s.certs() == Map::<Epoch, BreezeCertificate>::empty(),
            s.delivered() == Set::<Epoch>::empty(),
    {
        let s = BreezeConfirm {
            my_pk,
            quorum_threshold,
            my_dealer_shares: Vec::new(),
            certificates: Vec::new(),
            delivered_certificates: Vec::new(),
        };
        assert(s.digests() =~= Map::<Epoch, Digest>::empty());
        assert(s.certs() =~= Map::<Epoch, BreezeCertificate>::empty());
        assert(s.delivered() =~= Set::<Epoch>::empty());
        s
    }
}

/// The message is a reply to this dealer for a dealt epoch whose signature
/// signs the digest dealt in that epoch.
pub open spec fn reply_accepted(s: BreezeConfirm, m: BreezeMessage) -> bool {
    match m.content {
        BreezeContent::Reply(rm) => {
            &&& rm.dealer@ == s.spec_my_pk()@
            &&& s.digests().dom().contains(rm.epoch)
            &&& spec_verify(rm.signature@, s.digests()[rm.epoch].0@, m.sender@)
        },
        _ => false,
    }
}

/// `new` is the certificate of `epoch` after the vote `(pk, sig)` is added
/// to `old` (or, with no certificate yet, one holding that vote alone under
/// digest `c`).
pub open spec fn cert_extended(
    old: Option<BreezeCertificate>,
    c: Digest,
    epoch: Epoch,
    pk: PublicKey,
    sig: Signature,
    new: BreezeCertificate,
) -> bool {
    let vote = (pk@, sig@);
    &&& new.epoch == epoch
    &&& match old {
        Some(o) => {
            &&& new.c == o.c
            &&& new.vote_set() == o.vote_set().insert(vote)
            &&& new.certificates@.len() == if vote_index(o.certificates@, vote) >= 0 {
                o.certificates@.len()
            } else {
                o.certificates@.len() + 1
            }
        },
        None => {
            &&& new.c == c
            &&& new.certificates@.len() == 1
            &&& vote_view(new.certificates@[0]) == vote
        },
    }
}

/// The certificate of epoch `e`, if one is being collected.
pub open spec fn cert_of(s: BreezeConfirm, e: Epoch) -> Option<BreezeCertificate> {
    if s.certs().dom().contains(e) {
        Some(s.certs()[e])
    } else {
        None
    }
}

/// The certificates of the epochs after `e`.
pub open spec fn certs_after(m: Map<Epoch, BreezeCertificate>, e: Epoch) -> Map<Epoch, BreezeCertificate> {
    m.restrict(Set::new(|k: Epoch| k > e))
}

/// One step of the confirm phase: from `s`, on `event`, to `t`, handing on
/// `out`.
pub open spec fn confirm_step(
    s: BreezeConfirm,
    event: ConfirmEvent,
    t: BreezeConfirm,
    out: Option<BreezeCertificate>,
) -> bool {
    &&& t.spec_my_pk() == s.spec_my_pk()
    &&& t.spec_quorum() == s.spec_quorum()
    &&& match event {
        ConfirmEvent::DealerDigest(e, c) => {
            &&& t.digests() == s.digests().insert(e, c)
            &&& t.certs() == s.certs()
            &&& t.delivered() == s.delivered()
            &&& out is None
        },
        ConfirmEvent::Message(m) => {
            &&& t.digests() == s.digests()
            &&& if !reply_accepted(s, m) {
                &&& t.certs() == s.certs()
                &&& t.delivered() == s.delivered()
                &&& out is None
            } else {
                let rm = m.content->Reply_0;
                let e = rm.epoch;
                let old = cert_of(s, e);
                if out is Some {
                    &&& cert_extended(old, s.digests()[e], e, m.sender, rm.signature, out->0)
                    &&& out->0.certificates@.len() >= s.spec_quorum()
                    &&& !s.delivered().contains(e)
                    &&& t.delivered() == s.delivered().insert(e)
                    &&& t.certs() == certs_after(s.certs(), e)
                } else {
                    &&& t.dom_has(e)
                    &&& cert_extended(old, s.digests()[e], e, m.sender, rm.signature, t.certs()[e])
                    &&& (t.certs()[e].certificates@.len() < s.spec_quorum() || s.delivered().contains(e))
                    &&& t.certs() == s.certs().insert(e, t.certs()[e])
                    &&& t.delivered() == s.delivered()
                }
            }
        },
    }
}

impl BreezeConfirm {
    /// A certificate is being collected for epoch `e`.
    pub open spec fn dom_has(&self, e: Epoch) -> bool {
        self.certs().dom().contains(e)
    }
}

impl BreezeConfirm {
    /// Position of epoch `e` among the dealt digests.
    fn digest_index(&self, e: Epoch) -> (r: Option<usize>)
        requires
            keys_distinct(self.my_dealer_shares@),
        ensures
            match r {
                Some(i) => i < self.my_dealer_shares@.len() && self.my_dealer_shares@[i as int].0 == e
                    && self.digests().dom().contains(e) && self.digests()[e]
                    == self.my_dealer_shares@[i as int].1,
                None => !self.digests().dom().contains(e),
            },
    {
        let mut i: usize = 0;
        while i < self.my_dealer_shares.len()
            invariant
                i <= self.my_dealer_shares.len(),
                keys_distinct(self.my_dealer_shares@),
                forall|j: int| 0 <= j < i ==> (#[trigger] self.my_dealer_shares@[j]).0 != e,
            decreases self.my_dealer_shares.len() - i,
        {
            if self.my_dealer_shares[i].0 == e {
                proof {
                    lemma_assoc_at(self.my_dealer_shares@, i as int);
                }
                return Some(i);
            }
            i = i + 1;
        }
        proof {
            lemma_assoc_absent(self.my_dealer_shares@, e);
        }
        None
    }

    /// Position of epoch `e` among the certificates being collected.
    fn cert_index(&self, e: Epoch) -> (r: Option<usize>)
        requires
            keys_distinct(self.certificates@),
        ensures
            match r {
                Some(i) => i < self.certificates@.len() && self.certificates@[i as int].0 == e
                    && self.certs().dom().contains(e) && self.certs()[e]
                    == self.certificates@[i as int].1,
                None => !self.certs().dom().contains(e),
            },
    {
        let mut i: usize = 0;
        while i < self.certificates.len()
            invariant
                i <= self.certificates.len(),
                keys_distinct(self.certificates@),
                forall|j: int| 0 <= j < i ==> (#[trigger] self.certificates@[j]).0 != e,
            decreases self.certificates.len() - i,
        {
            if self.certificates[i].0 == e {
                proof {
                    lemma_assoc_at(self.certificates@, i as int);
                }
                return Some(i);
            }
            i = i + 1;
        }
        proof {
            lemma_assoc_absent(self.certificates@, e);
        }
        None
    }

    /// Whether the certificate of epoch `e` was handed on.
    fn is_delivered(&self, e: Epoch) -> (r: bool)
        ensures
            r == self.delivered().contains(e),
    {
        let mut i: usize = 0;
        while i < self.delivered_certificates.len()
            invariant
                i <= self.delivered_certificates.len(),
                forall|j: int| 0 <= j < i ==> self.delivered_certificates@[j] != e,
            decreases self.delivered_certificates.len() - i,
        {
            if self.delivered_certificates[i] == e {
                assert(self.delivered_certificates@[i as int] == e);
                return true;
            }
            i = i + 1;
        }
        false
    }

    /// Records the digest dealt in epoch `e`.
    fn set_digest(&mut self, e: Epoch, c: Digest)
        requires
            old(self).wf(),
        ensures
            final(self).wf(),
            final(self).spec_my_pk() == old(self).spec_my_pk(),
            final(self).spec_quorum() == old(self).spec_quorum(),
            final(self).digests() == old(self).digests().insert(e, c),
            final(self).certs() == old(self).certs(),
            final(self).delivered() == old(self).delivered(),
    {
        match self.digest_index(e) {
            Some(i) => {
                proof {
                    lemma_assoc_update(self.my_dealer_shares@, i as int, c);
                }
                self.my_dealer_shares[i] = (e, c);
            },
            None => {
                proof {
                    lemma_assoc_push(self.my_dealer_shares@, e, c);
                }
                self.my_dealer_shares.push((e, c));
            },
        }
    }

    /// Drops the certificates of epoch `e` and of all earlier epochs.
    fn retain_after(&mut self, e: Epoch)
        requires
            old(self).wf(),
        ensures
            final(self).wf(),
            final(self).spec_my_pk() == old(self).spec_my_pk(),
            final(self).spec_quorum() == old(self).spec_quorum(),
            final(self).digests() == old(self).digests(),
            final(self).certs() == certs_after(old(self).certs(), e),
            final(self).delivered() == old(self).delivered(),
    {
        let mut kept: Vec<(Epoch, BreezeCertificate)> = Vec::new();
        let ghost orig = self.certificates@;
        while self.certificates.len() > 0
            invariant
                self.my_pk == old(self).my_pk,
                self.quorum_threshold == old(self).quorum_threshold,
                self.my_dealer_shares == old(self).my_dealer_shares,
                self.delivered_certificates == old(self).delivered_certificates,
                keys_distinct(self.my_dealer_shares@),
                keys_distinct(orig),
                keys_distinct(kept@),
                forall|i: int|
                    0 <= i < kept@.len() ==> {
                        let (k, cert) = #[trigger] kept@[i];
                        &&& cert.epoch == k
                        &&& cert.wf()
                    },
                forall|i: int|
                    0 <= i < self.certificates@.len() ==> (#[trigger] self.certificates@[i]) == orig[i],
                self.certificates@.len() <= orig.len(),
                forall|k: Epoch| #[trigger] assoc_map(kept@).dom().contains(k) ==> k > e,
                forall|k: Epoch|
                    #[trigger] assoc_map(kept@).dom().contains(k) ==> exists|j: int|
                        self.certificates@.len() <= j < orig.len() && orig[j].0 == k,
                forall|j: int|
                    self.certificates@.len() <= j < orig.len() && orig[j].0 > e ==> #[trigger] assoc_map(kept@).dom().contains(orig[j].0)
                        && assoc_map(kept@)[orig[j].0] == orig[j].1,
                forall|i: int|
                    0 <= i < orig.len() ==> {
                        let (k, cert) = #[trigger] orig[i];
                        &&& cert.epoch == k
                        &&& cert.wf()
                    },
            decreases self.certificates@.len(),
        {
            let ghost kept_before = kept@;
            let ghost len_before = self.certificates@.len();
            let item = self.certificates.pop().unwrap();
            let j = self.certificates.len();
            assert(item == orig[j as int]);
            proof {
                assert forall|jj: int|
                    len_before <= jj < orig.len() && orig[jj].0 > e implies assoc_map(kept_before).dom().contains(orig[jj].0)
                        && assoc_map(kept_before)[orig[jj].0] == orig[jj].1 by {
                    assert(assoc_map(kept_before).dom().contains(orig[jj].0));
                }
            }
            if item.0 > e {
                proof {
                    assert forall|z: int| 0 <= z < kept@.len() implies (#[trigger] kept@[z]).0 != item.0 by {
                        let k = kept@[z].0;
                        lemma_assoc_at(kept@, z);
                        let jj = choose|jj: int| self.certificates@.len() + 1 <= jj < orig.len() && orig[jj].0 == k;
                        assert(jj != j);
                    }
                    lemma_assoc_absent(kept@, item.0);
                    lemma_assoc_push(kept@, item.0, item.1);
                }
                kept.push(item);
            }
            proof {
                assert forall|jj: int|
                    self.certificates@.len() <= jj < orig.len() && orig[jj].0 > e implies #[trigger] assoc_map(kept@).dom().contains(orig[jj].0)
                        && assoc_map(kept@)[orig[jj].0] == orig[jj].1 by {
                    if jj == j {
                    } else {
                        assert(assoc_map(kept_before).dom().contains(orig[jj].0));
                        if orig[j as int].0 > e {
                            assert(orig[jj].0 != orig[j as int].0);
                        }
                    }
                }
            }
        }
        proof {
            assert forall|k: Epoch| #[trigger] assoc_map(kept@).dom().contains(k) == certs_after(assoc_map(orig), e).dom().contains(k) by {
                if assoc_map(kept@).dom().contains(k) {
                    let jj = choose|jj: int| 0 <= jj < orig.len() && orig[jj].0 == k;
                    lemma_assoc_at(orig, jj);
                }
                if certs_after(assoc_map(orig), e).dom().contains(k) {
                    let jj = choose|jj: int| 0 <= jj < orig.len() && (#[trigger] orig[jj]).0 == k;
                }
            }
            assert forall|k: Epoch| #[trigger] assoc_map(kept@).dom().contains(k) implies assoc_map(kept@)[k] == certs_after(assoc_map(orig), e)[k] by {
                let jj = choose|jj: int| 0 <= jj < orig.len() && (#[trigger] orig[jj]).0 == k;
                lemma_assoc_at(orig, jj);
            }
            assert(assoc_map(kept@) =~= certs_after(assoc_map(orig), e));
        }
        self.certificates = kept;
    }
}

impl BreezeConfirm {
    /// Handles one event and gives the certificate to hand on, if any.
    pub fn step(&mut self, event: ConfirmEvent) -> (out: Option<BreezeCertificate>)
        requires
            old(self).wf(),
            old(self).event_ok(&event),
        ensures
            final(self).wf(),
            confirm_step(*old(self), event, *final(self), out),
    {
        match event {
            ConfirmEvent::DealerDigest(e, c) => {
                self.set_digest(e, c);
                None
            },
            ConfirmEvent::Message(m) => {
                let sender = m.sender;
                let rm = match m.content {
                    BreezeContent::Reply(rm) => rm,
                    _ => {
                        return None;
                    },
                };
                if !rm.dealer.same(&self.my_pk) {
                    return None;
                }
                let epoch = rm.epoch;
                let c = match self.digest_index(epoch) {
                    Some(i) => self.my_dealer_shares[i].1,
                    None => {
                        return None;
                    },
                };
                let signature = rm.signature;
                match signature.verify(&c, &sender) {
                    Ok(()) => {},
                    Err(_) => {
                        return None;
                    },
                }
                let ghost old_cert = cert_of(*self, epoch);
                let i: usize;
                match self.cert_index(epoch) {
                    Some(k) => {
                        let (key, mut cert) = self.certificates.remove(k);
                        let ghost before = cert;
                        cert.insert(sender, signature);
                        let ghost cv = cert;
                        self.certificates.insert(k, (key, cert));
                        proof {
                            assert(self.certificates@ =~= old(self).certificates@.update(k as int, (epoch, cv)));
                            lemma_assoc_update(old(self).certificates@, k as int, cv);
                        }
                        i = k;
                    },
                    None => {
                        let cert = BreezeCertificate::new(c, sender, epoch, signature);
                        proof {
                            lemma_assoc_push(self.certificates@, epoch, cert);
                        }
                        i = self.certificates.len();
                        self.certificates.push((epoch, cert));
                    },
                }
                proof {
                    lemma_assoc_at(self.certificates@, i as int);
                    assert forall|z: int| 0 <= z < self.certificates@.len() implies {
                        let (e2, cert2) = #[trigger] self.certificates@[z];
                        &&& cert2.epoch == e2
                        &&& cert2.wf()
                    } by {
                        if z != i {
                            let k2 = self.certificates@[z].0;
                            lemma_assoc_at(self.certificates@, z);
                            let w = choose|w: int| 0 <= w < old(self).certificates@.len() && (#[trigger] old(self).certificates@[w]).0 == k2;
                            lemma_assoc_at(old(self).certificates@, w);
                        }
                    }
                }
                let len = self.certificates[i].1.get_len();
                if len >= self.quorum_threshold && !self.is_delivered(epoch) {
                    let out = self.certificates[i].1.clone();
                    let ghost cur = self.certificates@[i as int].1;
                    proof {
                        assert(out.vote_set() =~= cur.vote_set());
                    }
                    let ghost before_del = self.delivered_certificates@;
                    self.delivered_certificates.push(epoch);
                    proof {
                        assert(self.delivered_certificates@ == before_del.push(epoch));
                        assert forall|x: Epoch| #[trigger] self.delivered().contains(x) == old(self).delivered().insert(epoch).contains(x) by {
                            if self.delivered_certificates@.contains(x) && x != epoch {
                                let w = choose|w: int| 0 <= w < self.delivered_certificates@.len() && self.delivered_certificates@[w] == x;
                                assert(before_del[w] == x);
                            }
                            if before_del.contains(x) {
                                let w = choose|w: int| 0 <= w < before_del.len() && before_del[w] == x;
                                assert(self.delivered_certificates@[w] == x);
                            }
                            assert(self.delivered_certificates@[before_del.len() as int] == epoch);
                        }
                        assert(self.delivered() =~= old(self).delivered().insert(epoch));
                    }
                    let ghost pre_retain = self.certs();
                    self.retain_after(epoch);
                    proof {
                        assert(pre_retain == old(self).certs().insert(epoch, cur));
                        assert(certs_after(pre_retain, epoch) =~= certs_after(old(self).certs(), epoch));
                    }
                    Some(out)
                } else {
                    None
                }
            },
        }
    }
}

/// Law: the epochs whose certificate was handed on only grow, and a
/// certificate is handed on only for an epoch that had none handed on
/// before; so each epoch's certificate is handed on at most once.
pub proof fn lemma_certificate_handed_on_once(
    s: BreezeConfirm,
    event: ConfirmEvent,
    t: BreezeConfirm,
    out: Option<BreezeCertificate>,
)
    requires
        confirm_step(s, event, t, out),
    ensures
        s.delivered().subset_of(t.delivered()),
        out matches Some(cert) ==> !s.delivered().contains(cert.epoch) && t.delivered().contains(
            cert.epoch,
        ),
{
}

/// Law: a certificate handed on holds at least a quorum of signatures, one
/// of them the reply just accepted, whose signature signs the digest this
/// dealer dealt in that epoch.
pub proof fn lemma_certificate_has_quorum(
    s: BreezeConfirm,
    m: BreezeMessage,
    t: BreezeConfirm,
    cert: BreezeCertificate,
)
    requires
        confirm_step(s, ConfirmEvent::Message(m), t, Some(cert)),
    ensures
        cert.certificates@.len() >= s.spec_quorum(),
        m.content is Reply,
        cert.epoch == m.content->Reply_0.epoch,
        s.digests().dom().contains(cert.epoch),
        spec_verify(m.content->Reply_0.signature@, s.digests()[cert.epoch].0@, m.sender@),
{
}

/// In a run, the epochs handed on only grow.
proof fn lemma_delivered_grows(
    states: Seq<BreezeConfirm>,
    events: Seq<ConfirmEvent>,
    outs: Seq<Option<BreezeCertificate>>,
    a: int,
    b: int,
)
    requires
        states.len() == events.len() + 1,
        outs.len() == events.len(),
        forall|k: int| 0 <= k < events.len() ==> confirm_step(states[k], events[k], #[trigger] states[k + 1], outs[k]),
        0 <= a <= b < states.len(),
    ensures
        states[a].delivered().subset_of(states[b].delivered()),
    decreases b - a,
{
    if a < b {
        assert(confirm_step(states[a], events[a], states[a + 1], outs[a]));
        lemma_certificate_handed_on_once(states[a], events[a], states[a + 1], outs[a]);
        lemma_delivered_grows(states, events, outs, a + 1, b);
    }
}

/// Law: over a run of steps, the certificates handed on are for distinct
/// epochs: at most one certificate per epoch.
pub proof fn lemma_one_certificate_per_epoch_in_run(
    states: Seq<BreezeConfirm>,
    events: Seq<ConfirmEvent>,
    outs: Seq<Option<BreezeCertificate>>,
)
    requires
        states.len() == events.len() + 1,
        outs.len() == events.len(),
        forall|k: int| 0 <= k < events.len() ==> confirm_step(states[k], events[k], #[trigger] states[k + 1], outs[k]),
    ensures
        forall|a: int, b: int|
            0 <= a < b < outs.len() && (#[trigger] outs[a]) is Some && (#[trigger] outs[b]) is Some ==> outs[a]->0.epoch
                != outs[b]->0.epoch,
{
    assert forall|a: int, b: int|
        0 <= a < b < outs.len() && (#[trigger] outs[a]) is Some && (#[trigger] outs[b]) is Some implies outs[a]->0.epoch
            != outs[b]->0.epoch by {
        assert(confirm_step(states[a], events[a], states[a + 1], outs[a]));
        assert(confirm_step(states[b], events[b], states[b + 1], outs[b]));
        lemma_certificate_handed_on_once(states[a], events[a], states[a + 1], outs[a]);
        lemma_certificate_handed_on_once(states[b], events[b], states[b + 1], outs[b]);
        lemma_delivered_grows(states, events, outs, a + 1, b);
    }
}

/// Every vote of the certificate signs its digest.
pub open spec fn votes_sign(cert: BreezeCertificate) -> bool {
    forall|v: (Seq<u8>, Seq<u8>)| #[trigger] cert.vote_set().contains(v) ==> spec_verify(v.1, cert.c.0@, v.0)
}

/// Every certificate being collected is for its epoch, under this dealer's
/// digest of that epoch, and holds only votes that sign that digest.
pub open spec fn certs_signed(s: BreezeConfirm) -> bool {
    forall|e: Epoch|
        #[trigger] s.certs().dom().contains(e) ==> {
            &&& s.certs()[e].epoch == e
            &&& s.digests().dom().contains(e)
            &&& s.certs()[e].c == s.digests()[e]
            &&& votes_sign(s.certs()[e])
        }
}

/// The event does not change a digest this dealer already dealt.
pub open spec fn digest_kept(s: BreezeConfirm, event: ConfirmEvent) -> bool {
    event matches ConfirmEvent::DealerDigest(e, c) ==> (s.digests().dom().contains(e) ==> s.digests()[e] == c)
}

/// Law of one step: the certificates being collected, and the one handed
/// on, hold only votes of accepted replies: signatures of this dealer's
/// digest for the certificate's epoch.
pub proof fn lemma_certificate_votes_signed(
    s: BreezeConfirm,
    event: ConfirmEvent,
    t: BreezeConfirm,
    out: Option<BreezeCertificate>,
)
    requires
        confirm_step(s, event, t, out),
        certs_signed(s),
        digest_kept(s, event),
    ensures
        certs_signed(t),
        out matches Some(cert) ==> s.digests().dom().contains(cert.epoch) && cert.c == s.digests()[cert.epoch]
            && votes_sign(cert),
{
    match event {
        ConfirmEvent::DealerDigest(e, c) => {
            assert forall|x: Epoch| #[trigger] t.certs().dom().contains(x) implies {
                &&& t.certs()[x].epoch == x
                &&& t.digests().dom().contains(x)
                &&& t.certs()[x].c == t.digests()[x]
                &&& votes_sign(t.certs()[x])
            } by {
                assert(s.certs().dom().contains(x));
            }
        },
        ConfirmEvent::Message(m) => {
            if reply_accepted(s, m) {
                let rm = m.content->Reply_0;
                let e = rm.epoch;
                let old = cert_of(s, e);
                let new = if out is Some { out->0 } else { t.certs()[e] };
                let vote = (m.sender@, rm.signature@);
                assert(cert_extended(old, s.digests()[e], e, m.sender, rm.signature, new));
                assert(new.c == s.digests()[e]) by {
                    if old is Some {
                        assert(s.certs().dom().contains(e));
                    }
                }
                assert(votes_sign(new)) by {
                    assert forall|v: (Seq<u8>, Seq<u8>)| #[trigger] new.vote_set().contains(v) implies spec_verify(v.1, new.c.0@, v.0) by {
                        match old {
                            Some(o) => {
                                assert(s.certs().dom().contains(e));
                                if v != vote {
                                    assert(o.vote_set().contains(v));
                                }
                            },
                            None => {
                                let i = choose|i: int| 0 <= i < new.certificates@.len() && vote_view(#[trigger] new.certificates@[i]) == v;
                                assert(i == 0);
                            },
                        }
                    }
                }
                assert forall|x: Epoch| #[trigger] t.certs().dom().contains(x) implies {
                    &&& t.certs()[x].epoch == x
                    &&& t.digests().dom().contains(x)
                    &&& t.certs()[x].c == t.digests()[x]
                    &&& votes_sign(t.certs()[x])
                } by {
                    if out is Some {
                        assert(s.certs().dom().contains(x));
                    } else if x != e {
                        assert(s.certs().dom().contains(x));
                    }
                }
            } else {
                assert forall|x: Epoch| #[trigger] t.certs().dom().contains(x) implies {
                    &&& t.certs()[x].epoch == x
                    &&& t.digests().dom().contains(x)
                    &&& t.certs()[x].c == t.digests()[x]
                    &&& votes_sign(t.certs()[x])
                } by {
                    assert(s.certs().dom().contains(x));
                }
            }
        },
    }
}

/// In a run that keeps the dealt digests, every state's certificates hold
/// only signing votes.
proof fn lemma_run_certs_signed(
    states: Seq<BreezeConfirm>,
    events: Seq<ConfirmEvent>,
    outs: Seq<Option<BreezeCertificate>>,
    k: int,
)
    requires
        states.len() == events.len() + 1,
        outs.len() == events.len(),
        forall|j: int| 0 <= j < events.len() ==> confirm_step(states[j], events[j], #[trigger] states[j + 1], outs[j]),
        forall|j: int| 0 <= j < events.len() ==> digest_kept(#[trigger] states[j], events[j]),
        certs_signed(states[0]),
        0 <= k < states.len(),
    ensures
        certs_signed(states[k]),
    decreases k,
{
    if k > 0 {
        let j = k - 1;
        lemma_run_certs_signed(states, events, outs, j);
        assert(confirm_step(states[j], events[j], states[j + 1], outs[j]));
        assert(digest_kept(states[j], events[j]));
        lemma_certificate_votes_signed(states[j], events[j], states[j + 1], outs[j]);
        assert(states[j + 1] == states[k]);
    }
}

/// Law: over a run that starts with no certificate (as a new confirm phase
/// does) and never changes a dealt digest, every certificate handed on is
/// under this dealer's digest of its epoch and holds only the signatures of
/// accepted replies, each signing that digest.
pub proof fn lemma_handed_on_certificates_signed(
    states: Seq<BreezeConfirm>,
    events: Seq<ConfirmEvent>,
    outs: Seq<Option<BreezeCertificate>>,
)
    requires
        states.len() == events.len() + 1,
        outs.len() == events.len(),
        forall|j: int| 0 <= j < events.len() ==> confirm_step(states[j], events[j], #[trigger] states[j + 1], outs[j]),
        forall|j: int| 0 <= j < events.len() ==> digest_kept(#[trigger] states[j], events[j]),
        states[0].certs().dom() == Set::<Epoch>::empty(),
    ensures
        forall|j: int|
            0 <= j < outs.len() && (#[trigger] outs[j]) is Some ==> states[j].digests().dom().contains(outs[j]->0.epoch)
                && outs[j]->0.c == states[j].digests()[outs[j]->0.epoch] && votes_sign(outs[j]->0),
{
    assert(certs_signed(states[0]));
    assert forall|j: int| 0 <= j < outs.len() && (#[trigger] outs[j]) is Some implies states[j].digests().dom().contains(outs[j]->0.epoch)
        && outs[j]->0.c == states[j].digests()[outs[j]->0.epoch] && votes_sign(outs[j]->0) by {
        lemma_run_certs_signed(states, events, outs, j);
        assert(confirm_step(states[j], events[j], states[j + 1], outs[j]));
        assert(digest_kept(states[j], events[j]));
        lemma_certificate_votes_signed(states[j], events[j], states[j + 1], outs[j]);
    }
}

} // verus!
