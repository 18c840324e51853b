//! The reply phase of a party: it keeps the shares dealt to it that carry
//! an accepted evaluation proof and the dealers' Merkle roots, and signs the
//! digest of every share whose Merkle proofs check, replying to its dealer
//! and keeping the share for reconstruction.
//!
//! [`BreezeReply::step`] takes the state and one incoming message and gives
//! the next state, the replies to send (each with its dealer) and, for a
//! message of roots, the epoch to report.

use vstd::prelude::*;
use crate::breeze_share_dealer::{PQCrs, Shares, crs_verify_ok, share_accepted};
use crate::crypto::{PublicKey, SecretKey, Signature, spec_dilithium_sign};
use crate::model::{BreezeContent, BreezeMessage, Share, share_view, MerkleRoots};
use crate::types_and_const::{Epoch, Id};
use crate::crypto::Digest;

verus! {

/// The Merkle proofs of the share can be checked against the roots and all
/// of them parse (what the check of a batch of proofs looks at).
pub open spec fn merkle_batch_ok(sh: Share, roots: Seq<Digest>, id: Id) -> bool {
    &&& id >= 1
    &&& sh.merkle_proofs@.len() >= sh.y_k@.len()
    &&& roots.len() >= sh.y_k@.len()
    &&& forall|i: int| 0 <= i < sh.y_k@.len() ==> (#[trigger] sh.merkle_proofs@[i])@.len() % 32 == 0
}

/// The share stored last under (epoch, key), if any.
pub open spec fn find_share(list: Seq<(Epoch, PublicKey, Share)>, e: Epoch, k: Seq<u8>) -> Option<Share>
    decreases list.len(),
{
    if list.len() == 0 {
        None
    } else if list.last().0 == e && list.last().1@ == k {
        Some(list.last().2)
    } else {
        find_share(list.drop_last(), e, k)
    }
}

/// The roots stored last under (epoch, key), if any.
pub open spec fn find_roots(list: Seq<(Epoch, PublicKey, Vec<Digest>)>, e: Epoch, k: Seq<u8>) -> Option<Seq<Digest>>
    decreases list.len(),
{
    if list.len() == 0 {
        None
    } else if list.last().0 == e && list.last().1@ == k {
        Some(list.last().2@)
    } else {
        find_roots(list.drop_last(), e, k)
    }
}

/// A share kept under (epoch, dealer) is answered: its dealer's roots for
/// that epoch are known and it is this party's own share or its Merkle
/// proofs check.
pub open spec fn answered(
    e: Epoch,
    dealer: PublicKey,
    sh: Share,
    roots: Seq<(Epoch, PublicKey, Vec<Digest>)>,
    me: PublicKey,
    my_id: Id,
) -> bool {
    &&& find_roots(roots, e, dealer@) is Some
    &&& (dealer@ == me@ || merkle_batch_ok(sh, find_roots(roots, e, dealer@)->0, my_id))
}

/// The replies owed, in the order the shares were kept: (epoch, dealer,
/// share) for each answered share.
pub open spec fn replies_owed(
    recv: Seq<(Epoch, PublicKey, Share)>,
    roots: Seq<(Epoch, PublicKey, Vec<Digest>)>,
    me: PublicKey,
    my_id: Id,
) -> Seq<(Epoch, PublicKey, Share)>
    decreases recv.len(),
{
    if recv.len() == 0 {
        Seq::empty()
    } else {
        let prev = replies_owed(recv.drop_last(), roots, me, my_id);
        let (e, pk, sh) = recv.last();
        if answered(e, pk, sh, roots, me, my_id) {
            prev.push((e, pk, sh))
        } else {
            prev
        }
    }
}

/// `out` is the reply of this party `me` to the owed reply `owed`, signed
/// with `sk`.
pub open spec fn is_reply(out: (PublicKey, BreezeMessage), owed: (Epoch, PublicKey, Share), me: PublicKey, sk: SecretKey) -> bool {
    let (e, dealer, sh) = owed;
    &&& out.0@ == dealer@
    &&& out.1.sender == me
    &&& out.1.content is Reply
    &&& out.1.content->Reply_0.epoch == e
    &&& out.1.content->Reply_0.c == sh.c
    &&& out.1.content->Reply_0.dealer@ == dealer@
    &&& out.1.content->Reply_0.signature@ == spec_dilithium_sign(sh.c.0@, sk@)
}

/// What reaches the reply phase.
pub enum ReplyEvent {
    /// A message expected to carry a share for this party.
    ShareMessage(BreezeMessage),
    /// A message expected to carry a dealer's Merkle roots.
    MerkleMessage(BreezeMessage),
}

/// State of the reply phase of one party.
pub struct BreezeReply {
    node_id: (PublicKey, Id),
    signing_key: SecretKey,
    common_reference_string: PQCrs,
    shares_received: Vec<(Epoch, PublicKey, Share)>,
    merkle_roots_received: Vec<(Epoch, PublicKey, Vec<Digest>)>,
    valid_shares: Vec<(Epoch, PublicKey, Share)>,
}

impl BreezeReply {
    /// This party's key.
    pub closed spec fn me(&self) -> PublicKey {
        self.node_id.0
    }

    /// This party's id.
    pub closed spec fn my_id(&self) -> Id {
        self.node_id.1
    }

    /// This party's signing key.
    pub closed spec fn sk(&self) -> SecretKey {
        self.signing_key
    }

    /// The reference string.
    pub closed spec fn crs(&self) -> &PQCrs {
        &self.common_reference_string
    }

    /// The shares kept, with their epoch and dealer.
    pub closed spec fn received(&self) -> Seq<(Epoch, PublicKey, Share)> {
        self.shares_received@
    }

    /// The roots kept, with their epoch and dealer.
    pub closed spec fn roots(&self) -> Seq<(Epoch, PublicKey, Vec<Digest>)> {
        self.merkle_roots_received@
    }

    /// The shares answered, by epoch and dealer.
    pub closed spec fn valid(&self) -> Seq<(Epoch, PublicKey, Share)> {
        self.valid_shares@
    }

    /// The reference string lets this party's shares be checked.
    pub open spec fn wf(&self) -> bool {
        &&& self.crs().q % 2 == 1
        &&& crs_verify_ok(self.crs(), self.my_id())
    }

    /// A reply phase with nothing kept.
    pub fn new(node_id: (PublicKey, Id), signing_key: SecretKey, common_reference_string: PQCrs) -> (s: Self)
        requires
            common_reference_string.q % 2 == 1,
            crs_verify_ok(&common_reference_string, node_id.1),
        ensures
            s.wf(),
            s.me() == node_id.0,
            s.my_id() == node_id.1,
            s.sk() == signing_key,
            *s.crs() == common_reference_string,
            s.received().len() == 0,
            s.roots().len() == 0,
            s.valid().len() == 0,
    {
        BreezeReply {
            node_id,
            signing_key,
            common_reference_string,
            shares_received: Vec::new(),
            merkle_roots_received: Vec::new(),
            valid_shares: Vec::new(),
        }
    }

    /// The Merkle roots received, by epoch and dealer.
    pub fn merkle_roots_ref(&self) -> (v: &Vec<(Epoch, PublicKey, Vec<Digest>)>)
        ensures
            v@ == self.roots(),
    {
        &self.merkle_roots_received
    }

    /// The shares answered, by epoch and dealer.
    pub fn valid_shares_ref(&self) -> (v: &Vec<(Epoch, PublicKey, Share)>)
        ensures
            v@ == self.valid(),
    {
        &self.valid_shares
    }
}

/// A share as plain sequences.
pub type ShareView = (Seq<u128>, Seq<u8>, Seq<u128>, Seq<Seq<u8>>, Seq<(Seq<u128>, Seq<u128>)>, Epoch, usize);

/// A list of kept shares as plain values.
pub open spec fn view_list(l: Seq<(Epoch, PublicKey, Share)>) -> Seq<(Epoch, Seq<u8>, ShareView)> {
    l.map_values(|x: (Epoch, PublicKey, Share)| (x.0, x.1@, share_view(x.2)))
}

/// Something is kept under (epoch, key).
pub open spec fn has_key(l: Seq<(Epoch, Seq<u8>, ShareView)>, e: Epoch, k: Seq<u8>) -> bool {
    exists|i: int| 0 <= i < l.len() && (#[trigger] l[i]).0 == e && l[i].1 == k
}

/// The kept shares after each owed share is kept, unless one is kept under
/// its key already.
pub open spec fn valid_after(
    vv: Seq<(Epoch, Seq<u8>, ShareView)>,
    owed: Seq<(Epoch, PublicKey, Share)>,
) -> Seq<(Epoch, Seq<u8>, ShareView)>
    decreases owed.len(),
{
    if owed.len() == 0 {
        vv
    } else {
        let acc = valid_after(vv, owed.drop_last());
        let (e, pk, sh) = owed.last();
        if has_key(acc, e, pk@) {
            acc
        } else {
            acc.push((e, pk@, share_view(sh)))
        }
    }
}

/// The message carries a share that this party keeps: its own, or one
/// whose evaluation proof is accepted.
pub open spec fn share_kept(s: BreezeReply, m: BreezeMessage) -> bool {
    &&& m.content is Share
    &&& (m.sender@ == s.me()@ || share_accepted(s.crs(), &m.content->Share_0, s.my_id()))
}

/// One step of the reply phase.
pub open spec fn reply_step(
    s: BreezeReply,
    event: ReplyEvent,
    t: BreezeReply,
    replies: Seq<(PublicKey, BreezeMessage)>,
    watch: Option<Epoch>,
) -> bool {
    &&& t.me() == s.me()
    &&& t.my_id() == s.my_id()
    &&& t.sk() == s.sk()
    &&& t.crs() == s.crs()
    &&& match event {
        ReplyEvent::ShareMessage(m) => {
            &&& t.roots() == s.roots()
            &&& watch is None
            &&& if share_kept(s, m) {
                let sh = m.content->Share_0;
                &&& t.received() == if find_share(s.received(), sh.epoch, m.sender@) is None {
                    s.received().push((sh.epoch, m.sender, sh))
                } else {
                    s.received()
                }
                &&& replies_sent(s, t, replies)
            } else {
                &&& t.received() == s.received()
                &&& t.valid() == s.valid()
                &&& replies.len() == 0
            }
        },
        ReplyEvent::MerkleMessage(m) => {
            &&& t.received() == s.received()
            &&& if m.content is Merkle {
                let mr = m.content->Merkle_0;
                &&& t.roots() == if find_roots(s.roots(), mr.epoch, m.sender@) is None {
                    s.roots().push((mr.epoch, m.sender, mr.roots))
                } else {
                    s.roots()
                }
                &&& watch == Some(mr.epoch)
                &&& replies_sent(s, t, replies)
            } else {
                &&& t.roots() == s.roots()
                &&& t.valid() == s.valid()
                &&& replies.len() == 0
                &&& watch is None
            }
        },
    }
}

/// The replies are those owed in state `t`, in order, and the answered
/// shares are kept.
pub open spec fn replies_sent(s: BreezeReply, t: BreezeReply, replies: Seq<(PublicKey, BreezeMessage)>) -> bool {
    let owed = replies_owed(t.received(), t.roots(), t.me(), t.my_id());
    &&& replies.len() == owed.len()
    &&& forall|i: int| 0 <= i < owed.len() ==> is_reply(#[trigger] replies[i], owed[i], t.me(), t.sk())
    &&& view_list(t.valid()) == valid_after(view_list(s.valid()), owed)
}

/// Nothing is found under a key that no entry has.
proof fn lemma_find_share_none(l: Seq<(Epoch, PublicKey, Share)>, e: Epoch, k: Seq<u8>)
    ensures
        find_share(l, e, k) is None <==> forall|i: int| 0 <= i < l.len() ==> !((#[trigger] l[i]).0 == e && l[i].1@ == k),
    decreases l.len(),
{
    if l.len() > 0 {
        lemma_find_share_none(l.drop_last(), e, k);
        assert forall|i: int| 0 <= i < l.len() - 1 implies l.drop_last()[i] == l[i] by {}
    }
}

/// The roots found under a key are those of its last entry.
proof fn lemma_find_roots_last(l: Seq<(Epoch, PublicKey, Vec<Digest>)>, j: int, e: Epoch, k: Seq<u8>)
    requires
        0 <= j <= l.len(),
        forall|i: int| j <= i < l.len() ==> !((#[trigger] l[i]).0 == e && l[i].1@ == k),
    ensures
        find_roots(l, e, k) == find_roots(l.subrange(0, j), e, k),
    decreases l.len() - j,
{
    if j < l.len() {
        let d = l.drop_last();
        assert forall|i: int| j <= i < d.len() implies !((#[trigger] d[i]).0 == e && d[i].1@ == k) by {
            assert(d[i] == l[i]);
        }
        lemma_find_roots_last(d, j, e, k);
        assert(d.subrange(0, j) =~= l.subrange(0, j));
    } else {
        assert(l.subrange(0, j) =~= l);
    }
}

/// Position of the last roots kept under (epoch, key).
pub(crate) fn roots_index(list: &Vec<(Epoch, PublicKey, Vec<Digest>)>, e: Epoch, pk: &PublicKey) -> (r: Option<usize>)
    ensures
        match r {
            Some(i) => i < list@.len() && list@[i as int].0 == e && list@[i as int].1@ == pk@
                && find_roots(list@, e, pk@) == Some(list@[i as int].2@),
            None => find_roots(list@, e, pk@) is None,
        },
{
    let mut j: usize = list.len();
    while j > 0
        invariant
            j <= list@.len(),
            forall|i: int| j <= i < list@.len() ==> !((#[trigger] list@[i]).0 == e && list@[i].1@ == pk@),
        decreases j,
    {
        let i = j - 1;
        if list[i].0 == e && list[i].1.same(pk) {
            proof {
                lemma_find_roots_last(list@, j as int, e, pk@);
                let sub = list@.subrange(0, j as int);
                assert(sub.last() == list@[i as int]);
            }
            return Some(i);
        }
        j = i;
    }
    proof {
        lemma_find_roots_last(list@, 0, e, pk@);
    }
    None
}

/// Whether a share is kept under (epoch, key).
fn share_kept_under(list: &Vec<(Epoch, PublicKey, Share)>, e: Epoch, pk: &PublicKey) -> (r: bool)
    ensures
        r == !(find_share(list@, e, pk@) is None),
        r == has_key(view_list(list@), e, pk@),
{
    proof {
        lemma_find_share_none(list@, e, pk@);
    }
    let mut i: usize = 0;
    while i < list.len()
        invariant
            i <= list@.len(),
            forall|z: int| 0 <= z < i ==> !((#[trigger] list@[z]).0 == e && list@[z].1@ == pk@),
        decreases list@.len() - i,
    {
        if list[i].0 == e && list[i].1.same(pk) {
            assert(view_list(list@)[i as int].0 == e && view_list(list@)[i as int].1 == pk@);
            assert(list@[i as int].0 == e && list@[i as int].1@ == pk@);
            proof {
                lemma_find_share_none(list@, e, pk@);
            }
            return true;
        }
        i = i + 1;
    }
    assert forall|z: int| 0 <= z < view_list(list@).len() implies !((#[trigger] view_list(list@)[z]).0 == e && view_list(list@)[z].1 == pk@) by {
        assert(view_list(list@)[z] == (list@[z].0, list@[z].1@, share_view(list@[z].2)));
    }
    false
}

impl BreezeReply {
    /// Replies to every answered share and keeps those shares.
    fn answer_all(&mut self) -> (replies: Vec<(PublicKey, BreezeMessage)>)
        requires
            old(self).wf(),
        ensures
            final(self).wf(),
            final(self).me() == old(self).me(),
            final(self).my_id() == old(self).my_id(),
            final(self).sk() == old(self).sk(),
            final(self).crs() == old(self).crs(),
            final(self).received() == old(self).received(),
            final(self).roots() == old(self).roots(),
            replies_sent(*old(self), *final(self), replies@),
    {
        let ghost recv = self.shares_received@;
        let ghost roots = self.merkle_roots_received@;
        let ghost me = self.node_id.0;
        let ghost my_id = self.node_id.1;
        let ghost v0 = view_list(self.valid_shares@);
        let mut replies: Vec<(PublicKey, BreezeMessage)> = Vec::new();
        let mut i: usize = 0;
        while i < self.shares_received.len()
            invariant
                i <= recv.len(),
                recv == self.shares_received@,
                roots == self.merkle_roots_received@,
                me == self.node_id.0,
                my_id == self.node_id.1,
                self.signing_key == old(self).signing_key,
                self.common_reference_string == old(self).common_reference_string,
                self.node_id == old(self).node_id,
                self.shares_received == old(self).shares_received,
                self.merkle_roots_received == old(self).merkle_roots_received,
                v0 == view_list(old(self).valid_shares@),
                ({
                    let owed = replies_owed(recv.subrange(0, i as int), roots, me, my_id);
                    &&& replies@.len() == owed.len()
                    &&& forall|z: int| 0 <= z < owed.len() ==> is_reply(#[trigger] replies@[z], owed[z], me, self.signing_key)
                    &&& view_list(self.valid_shares@) == valid_after(v0, owed)
                }),
            decreases recv.len() - i,
        {
            let ghost sub = recv.subrange(0, i + 1);
            assert(sub.drop_last() =~= recv.subrange(0, i as int));
            assert(sub.last() == recv[i as int]);
            let e = self.shares_received[i].0;
            let pk = self.shares_received[i].1;
            let answer = match roots_index(&self.merkle_roots_received, e, &pk) {
                Some(ri) => {
                    if pk.same(&self.node_id.0) {
                        true
                    } else {
                        let sh = &self.shares_received[i].2;
                        if self.node_id.1 >= 1 && sh.merkle_proofs.len() >= sh.y_k.len()
                            && self.merkle_roots_received[ri].2.len() >= sh.y_k.len() {
                            Shares::verify_merkle_batch(self.node_id.1, sh, &self.merkle_roots_received[ri].2)
                        } else {
                            false
                        }
                    }
                },
                None => false,
            };
            assert(answer == answered(e, pk, recv[i as int].2, roots, me, my_id));
            if answer {
                let c = self.shares_received[i].2.c;
                let sig = Signature::new(&c, &self.signing_key);
                let msg = BreezeMessage::new_reply_message(pk, self.node_id.0, c, sig, e);
                let ghost rb = replies@;
                replies.push((pk, msg));
                assert(replies@ == rb.push((pk, msg)));
                let ghost vb = view_list(self.valid_shares@);
                if !share_kept_under(&self.valid_shares, e, &pk) {
                    let copy = self.shares_received[i].2.duplicate();
                    let ghost cv = copy;
                    self.valid_shares.push((e, pk, copy));
                    proof {
                        assert(view_list(self.valid_shares@) =~= vb.push((e, pk@, share_view(cv))));
                    }
                }
                proof {
                    let owed_prev = replies_owed(recv.subrange(0, i as int), roots, me, my_id);
                    assert(replies_owed(sub, roots, me, my_id) == owed_prev.push(recv[i as int]));
                    assert(owed_prev.push(recv[i as int]).drop_last() =~= owed_prev);
                    assert(valid_after(v0, owed_prev.push(recv[i as int])) == (if has_key(vb, e, pk@) {
                        vb
                    } else {
                        vb.push((e, pk@, share_view(recv[i as int].2)))
                    }));
                    assert forall|z: int| 0 <= z < owed_prev.len() + 1 implies is_reply(#[trigger] replies@[z], owed_prev.push(recv[i as int])[z], me, self.signing_key) by {
                        if z < owed_prev.len() {
                        }
                    }
                }
            } else {
                proof {
                    assert(replies_owed(sub, roots, me, my_id) == replies_owed(recv.subrange(0, i as int), roots, me, my_id));
                }
            }
            i = i + 1;
        }
        assert(recv.subrange(0, recv.len() as int) =~= recv);
        replies
    }
}

impl BreezeReply {
    /// Handles one message: keeps the share or the roots it carries, then
    /// answers every answered share.  Gives the replies with their dealers,
    /// and the epoch of a message of roots.
    pub fn step(&mut self, event: ReplyEvent) -> (r: (Vec<(PublicKey, BreezeMessage)>, Option<Epoch>))
        requires
            old(self).wf(),
        ensures
            final(self).wf(),
            reply_step(*old(self), event, *final(self), r.0@, r.1),
    {
        match event {
            ReplyEvent::ShareMessage(m) => {
                let sender = m.sender;
                let share = match m.content {
                    BreezeContent::Share(share) => share,
                    _ => {
                        return (Vec::new(), None);
                    },
                };
                if !sender.same(&self.node_id.0) {
                    if !Shares::check_shares(&self.common_reference_string, &share, self.node_id.1) {
                        return (Vec::new(), None);
                    }
                }
                let e = share.epoch;
                if !share_kept_under(&self.shares_received, e, &sender) {
                    self.shares_received.push((e, sender, share));
                }
                let replies = self.answer_all();
                (replies, None)
            },
            ReplyEvent::MerkleMessage(m) => {
                let sender = m.sender;
                let mr = match m.content {
                    BreezeContent::Merkle(mr) => mr,
                    _ => {
                        return (Vec::new(), None);
                    },
                };
                let e = mr.epoch;
                match roots_index(&self.merkle_roots_received, e, &sender) {
                    Some(_) => {},
                    None => {
                        self.merkle_roots_received.push((e, sender, mr.roots));
                    },
                }
                let replies = self.answer_all();
                (replies, Some(e))
            },
        }
    }
}

} // verus!
