//! Messages and certificates exchanged by the beacon protocol.

use vstd::prelude::*;
use crate::crypto::{Digest, PublicKey, Signature, CryptoError, bytes_eq, spec_dilithium_open, spec_verify};
use crate::types_and_const::{Epoch, ZqMod};

verus! {

/// Errors reported to consumers of reconstructed randomness.
#[derive(Debug, Clone, Copy, PartialEq, Eq, Structural)]
pub enum DagError {
    /// Common core has not been decided.
    NoCommonCore,
    /// Index out of bound.
    InvalidIndex,
}

/// A (key, signature) pair taken as bytes.
pub open spec fn vote_view(v: (PublicKey, Signature)) -> (Seq<u8>, Seq<u8>) {
    (v.0@, v.1@)
}

/// No vote occurs twice.
pub open spec fn votes_distinct(s: Seq<(PublicKey, Signature)>) -> bool {
    forall|i: int, j: int|
        0 <= i < s.len() && 0 <= j < s.len() && i != j ==> vote_view(s[i]) != vote_view(s[j])
}

/// A quorum certificate: signatures of parties over the dealer's digest
/// `c` for one epoch.  The signatures form a set.
#[derive(Debug, Hash, PartialEq, Eq, PartialOrd, Ord)]
pub struct BreezeCertificate {
    pub c: Digest,
    pub epoch: Epoch,
    pub certificates: Vec<(PublicKey, Signature)>,
}

/// Position of a vote in a sequence of votes, or -1.
pub open spec fn vote_index(s: Seq<(PublicKey, Signature)>, v: (Seq<u8>, Seq<u8>)) -> int
    decreases s.len(),
{
    if s.len() == 0 {
        -1
    } else if vote_view(s.last()) == v {
        s.len() - 1
    } else {
        vote_index(s.drop_last(), v)
    }
}

proof fn lemma_vote_index(s: Seq<(PublicKey, Signature)>, v: (Seq<u8>, Seq<u8>))
    ensures
        -1 <= vote_index(s, v) < s.len(),
        vote_index(s, v) >= 0 ==> vote_view(s[vote_index(s, v)]) == v,
        vote_index(s, v) < 0 ==> forall|i: int| 0 <= i < s.len() ==> vote_view(s[i]) != v,
    decreases s.len(),
{
    if s.len() > 0 {
        let b = s.drop_last();
        lemma_vote_index(b, v);
        assert forall|i: int| 0 <= i < b.len() implies s[i] == b[i] by {}
    }
}

impl BreezeCertificate {
    /// The set of (key, signature) pairs, as bytes.
    pub open spec fn vote_set(&self) -> Set<(Seq<u8>, Seq<u8>)> {
        Set::new(
            |v: (Seq<u8>, Seq<u8>)|
                exists|i: int|
                    0 <= i < self.certificates@.len() && vote_view(
                        #[trigger] self.certificates@[i],
                    ) == v,
        )
    }

    /// No vote is held twice.
    pub open spec fn wf(&self) -> bool {
        votes_distinct(self.certificates@)
    }

    /// A certificate holding one signature.
    pub fn new(c: Digest, pk: PublicKey, epoch: Epoch, signature: Signature) -> (cert: Self)
        ensures
            cert.wf(),
            cert.c == c,
            cert.epoch == epoch,
            cert.certificates@.len() == 1,
            vote_view(cert.certificates@[0]) == (pk@, signature@),
    {
        let mut certificates = Vec::new();
        certificates.push((pk, signature));
        BreezeCertificate { c, epoch, certificates }
    }

    /// Adds a signature; a pair already held is not added again.
    pub fn insert(&mut self, pk: PublicKey, signature: Signature)
        requires
            old(self).wf(),
        ensures
            final(self).wf(),
            final(self).c == old(self).c,
            final(self).epoch == old(self).epoch,
            final(self).vote_set() == old(self).vote_set().insert((pk@, signature@)),
            vote_index(old(self).certificates@, (pk@, signature@)) >= 0
                ==> final(self).certificates@ == old(self).certificates@,
            vote_index(old(self).certificates@, (pk@, signature@)) < 0
                ==> final(self).certificates@.len() == old(self).certificates@.len() + 1,
    {
        proof {
            lemma_vote_index(self.certificates@, (pk@, signature@));
        }
        let mut i: usize = 0;
        while i < self.certificates.len()
            invariant
                i <= self.certificates.len(),
                self.certificates@ == old(self).certificates@,
                self.wf(),
                self.c == old(self).c,
                self.epoch == old(self).epoch,
                forall|j: int| 0 <= j < i ==> vote_view(self.certificates@[j]) != (pk@, signature@),
            decreases self.certificates.len() - i,
        {
            if self.certificates[i].0.same(&pk) && bytes_eq(
                self.certificates[i].1.0.as_slice(),
                signature.0.as_slice(),
            ) {
                proof {
                    lemma_vote_index(self.certificates@, (pk@, signature@));
                    assert(vote_view(self.certificates@[i as int]) == (pk@, signature@));
                    assert(self.vote_set().insert((pk@, signature@)) =~= self.vote_set());
                }
                return ;
            }
            i = i + 1;
        }
        let ghost old_certs = self.certificates@;
        self.certificates.push((pk, signature));
        proof {
            assert(self.certificates@[old_certs.len() as int] == (pk, signature));
            assert forall|v: (Seq<u8>, Seq<u8>)|
                old(self).vote_set().insert((pk@, signature@)).contains(v) implies #[trigger] self.vote_set().contains(v) by {
                if v == (pk@, signature@) {
                    assert(vote_view(self.certificates@[old_certs.len() as int]) == v);
                } else {
                    let k = choose|k: int|
                        0 <= k < old_certs.len() && vote_view(#[trigger] old_certs[k]) == v;
                    assert(self.certificates@[k] == old_certs[k]);
                }
            }
            assert forall|v: (Seq<u8>, Seq<u8>)|
                #[trigger] self.vote_set().contains(v) implies old(self).vote_set().insert(
                (pk@, signature@),
            ).contains(v) by {
                let k = choose|k: int|
                    0 <= k < self.certificates@.len() && vote_view(
                        #[trigger] self.certificates@[k],
                    ) == v;
                if k < old_certs.len() {
                    assert(self.certificates@[k] == old_certs[k]);
                }
            }
            assert(self.vote_set() =~= old(self).vote_set().insert((pk@, signature@)));
            assert forall|a: int, b: int|
                0 <= a < self.certificates@.len() && 0 <= b < self.certificates@.len() && a
                    != b implies vote_view(self.certificates@[a]) != vote_view(
                self.certificates@[b],
            ) by {
                if a < old_certs.len() && b < old_certs.len() {
                } else if a == old_certs.len() {
                    assert(vote_view(old_certs[b]) != (pk@, signature@));
                } else {
                    assert(vote_view(old_certs[a]) != (pk@, signature@));
                }
            }
        }
    }

    /// The two certificates are equal: same digest, same epoch and the same
    /// set of signatures.
    pub open spec fn spec_same(&self, other: &BreezeCertificate) -> bool {
        &&& self.c.0@ == other.c.0@
        &&& self.epoch == other.epoch
        &&& self.vote_set() == other.vote_set()
    }

    /// Whether the vote is held.
    fn holds(&self, v: &(PublicKey, Signature)) -> (r: bool)
        ensures
            r == self.vote_set().contains(vote_view(*v)),
    {
        let mut i: usize = 0;
        while i < self.certificates.len()
            invariant
                i <= self.certificates.len(),
                forall|j: int| 0 <= j < i ==> vote_view(self.certificates@[j]) != vote_view(*v),
            decreases self.certificates.len() - i,
        {
            if self.certificates[i].0.same(&v.0) && bytes_eq(
                self.certificates[i].1.0.as_slice(),
                v.1.0.as_slice(),
            ) {
                assert(vote_view(self.certificates@[i as int]) == vote_view(*v));
                return true;
            }
            i = i + 1;
        }
        false
    }

    /// Every vote of `self` is held by `other`.
    fn votes_within(&self, other: &BreezeCertificate) -> (r: bool)
        ensures
            r == self.vote_set().subset_of(other.vote_set()),
    {
        let mut i: usize = 0;
        while i < self.certificates.len()
            invariant
                i <= self.certificates.len(),
                forall|j: int|
                    0 <= j < i ==> other.vote_set().contains(vote_view(self.certificates@[j])),
            decreases self.certificates.len() - i,
        {
            if !other.holds(&self.certificates[i]) {
                assert(self.vote_set().contains(vote_view(self.certificates@[i as int])));
                return false;
            }
            i = i + 1;
        }
        assert forall|v| self.vote_set().contains(v) implies other.vote_set().contains(v) by {
            let k = choose|k: int|
                0 <= k < self.certificates@.len() && vote_view(#[trigger] self.certificates@[k])
                    == v;
        }
        true
    }

    /// Equality of certificates (see [`BreezeCertificate::spec_same`]).
    pub fn same_as(&self, other: &BreezeCertificate) -> (r: bool)
        ensures
            r == self.spec_same(other),
    {
        if !self.c.same(&other.c) || self.epoch != other.epoch {
            return false;
        }
        let a = self.votes_within(other);
        let b = other.votes_within(self);
        proof {
            if a && b {
                assert(self.vote_set() =~= other.vote_set());
            }
        }
        a && b
    }

    /// Number of signatures held.
    pub fn get_len(&self) -> (n: usize)
        ensures
            n == self.certificates@.len(),
    {
        self.certificates.len()
    }

    /// No signature is held.
    pub fn empty(&self) -> (b: bool)
        ensures
            b == (self.certificates@.len() == 0),
    {
        self.certificates.len() == 0
    }

    /// Every held signature can be opened with its key.
    pub open spec fn all_openable(&self) -> bool {
        forall|i: int|
            0 <= i < self.certificates@.len() ==> spec_dilithium_open(
                (#[trigger] self.certificates@[i]).1@,
                self.certificates@[i].0@,
            ) is Some
    }

    /// The certificate holds at least `quorum_threshold` (and at least one)
    /// signatures and every one of them signs `c`.
    pub open spec fn spec_valid(&self, quorum_threshold: usize) -> bool {
        &&& self.certificates@.len() != 0
        &&& self.certificates@.len() >= quorum_threshold
        &&& forall|i: int|
            0 <= i < self.certificates@.len() ==> spec_verify(
                (#[trigger] self.certificates@[i]).1@,
                self.c.0@,
                self.certificates@[i].0@,
            )
    }

    /// Whether no vote is held twice.
    pub fn votes_are_distinct(&self) -> (r: bool)
        ensures
            r == self.wf(),
    {
        let n = self.certificates.len();
        let mut i: usize = 0;
        while i < n
            invariant
                i <= n,
                n == self.certificates@.len(),
                forall|a: int, b: int|
                    0 <= a < i && 0 <= b < i && a != b ==> vote_view(self.certificates@[a]) != vote_view(
                        self.certificates@[b],
                    ),
            decreases n - i,
        {
            let mut j: usize = 0;
            while j < i
                invariant
                    j <= i,
                    i < n,
                    n == self.certificates@.len(),
                    forall|b: int| 0 <= b < j ==> vote_view(self.certificates@[i as int]) != vote_view(self.certificates@[b]),
                decreases i - j,
            {
                if self.certificates[i].0.same(&self.certificates[j].0) && bytes_eq(
                    self.certificates[i].1.0.as_slice(),
                    self.certificates[j].1.0.as_slice(),
                ) {
                    assert(vote_view(self.certificates@[i as int]) == vote_view(self.certificates@[j as int]));
                    return false;
                }
                j = j + 1;
            }
            i = i + 1;
        }
        true
    }

    /// Checks the certificate against a quorum: at least that many distinct
    /// votes (the votes form a set), every one signing `c`; for
    /// certificates whose signatures can be opened once the size check
    /// passed (see [`BreezeCertificate::check`] for any certificate).
    pub fn verify(&self, quorum_threshold: usize) -> (r: bool)
        requires
            self.wf(),
            self.certificates@.len() != 0 && self.certificates@.len() >= quorum_threshold
                ==> self.all_openable(),
        ensures
            r == self.spec_valid(quorum_threshold),
    {
        if self.certificates.len() == 0 || self.certificates.len() < quorum_threshold {
            return false;
        }
        let mut i: usize = 0;
        while i < self.certificates.len()
            invariant
                i <= self.certificates.len(),
                self.all_openable(),
                forall|j: int|
                    0 <= j < i ==> spec_verify(
                        (#[trigger] self.certificates@[j]).1@,
                        self.c.0@,
                        self.certificates@[j].0@,
                    ),
            decreases self.certificates.len() - i,
        {
            let pk = &self.certificates[i].0;
            let signature = &self.certificates[i].1;
            match signature.verify(&self.c, pk) {
                Ok(()) => {},
                Err(_) => {
                    return false;
                },
            }
            i = i + 1;
        }
        true
    }

    /// [`BreezeCertificate::verify`] on every input: `None` where a
    /// signature that cannot be opened is met before any failing signature
    /// or a vote is held twice, otherwise the outcome of `verify`.
    pub fn check(&self, quorum_threshold: usize) -> (r: Option<bool>)
        ensures
            r matches Some(b) ==> b == self.spec_valid(quorum_threshold),
            r is None ==> !self.all_openable() || !self.wf(),
            self.all_openable() && self.wf() ==> r is Some,
            (self.certificates@.len() == 0 || self.certificates@.len() < quorum_threshold) ==> r
                == Some(false),
    {
        if self.certificates.len() == 0 || self.certificates.len() < quorum_threshold {
            return Some(false);
        }
        let mut i: usize = 0;
        while i < self.certificates.len()
            invariant
                i <= self.certificates.len(),
                self.certificates@.len() != 0,
                self.certificates@.len() >= quorum_threshold,
                forall|j: int|
                    0 <= j < i ==> spec_dilithium_open(
                        (#[trigger] self.certificates@[j]).1@,
                        self.certificates@[j].0@,
                    ) is Some,
            decreases self.certificates.len() - i,
        {
            let pk = &self.certificates[i].0;
            let signature = &self.certificates[i].1;
            match signature.check(&self.c, pk) {
                Some(_) => {},
                None => {
                    return None;
                },
            }
            i = i + 1;
        }
        if !self.votes_are_distinct() {
            return None;
        }
        Some(self.verify(quorum_threshold))
    }
}

impl Clone for BreezeCertificate {
    fn clone(&self) -> (r: Self)
        ensures
            r.c == self.c,
            r.epoch == self.epoch,
            r.certificates@.len() == self.certificates@.len(),
            forall|i: int|
                0 <= i < r.certificates@.len() ==> vote_view(r.certificates@[i]) == vote_view(
                    self.certificates@[i],
                ),
    {
        let mut certificates: Vec<(PublicKey, Signature)> = Vec::new();
        let mut i: usize = 0;
        while i < self.certificates.len()
            invariant
                i <= self.certificates.len(),
                certificates@.len() == i,
                forall|j: int|
                    0 <= j < i ==> vote_view(certificates@[j]) == vote_view(self.certificates@[j]),
            decreases self.certificates.len() - i,
        {
            certificates.push((self.certificates[i].0, self.certificates[i].1.clone()));
            i = i + 1;
        }
        BreezeCertificate { c: self.c, epoch: self.epoch, certificates }
    }
}

/// A request to reconstruct slot `index` of `epoch` from the dealers whose
/// digests are listed.
#[derive(Debug)]
pub struct BreezeReconRequest {
    pub c: Vec<Digest>,
    pub epoch: Epoch,
    pub index: usize,
}

/// One dealer's share of one slot, sent for reconstruction.
#[derive(Debug)]
pub struct SingleShare {
    pub dealer: PublicKey,
    pub c: Digest,
    pub y: Vec<ZqMod>,
    pub merkle_proof: (usize, Vec<Vec<u8>>),
    pub total_party_num: usize,
}

/// The shares a party sends for reconstruction of one slot.
#[derive(Debug)]
pub struct ReconstructShare {
    pub secrets: Vec<SingleShare>,
    pub epoch: Epoch,
    pub index: usize,
}

impl ReconstructShare {
    pub fn new(secrets: Vec<SingleShare>, epoch: Epoch, index: usize) -> (r: Self)
        ensures
            r.secrets == secrets,
            r.epoch == epoch,
            r.index == index,
    {
        ReconstructShare { secrets, epoch, index }
    }
}

/// A dealer's share for one party.
#[derive(Debug)]
pub struct Share {
    /// The commitment.
    pub t: Vec<ZqMod>,
    /// Digest of the commitment.
    pub c: Digest,
    /// The evaluations for this party.
    pub y_k: Vec<ZqMod>,
    /// Merkle proofs of the evaluations.
    pub merkle_proofs: Vec<Vec<u8>>,
    /// Evaluation proof.
    pub eval_proof: Vec<(Vec<ZqMod>, Vec<ZqMod>)>,
    pub epoch: Epoch,
    pub total_party_num: usize,
}

/// The Merkle roots of a dealer's evaluations.
#[derive(Debug)]
pub struct MerkleRoots {
    pub roots: Vec<Digest>,
    pub epoch: Epoch,
}

/// A party's signature on a dealer's digest.
#[derive(Debug)]
pub struct ReplyMessage {
    pub epoch: Epoch,
    pub c: Digest,
    pub signature: Signature,
    pub dealer: PublicKey,
}

/// A dealer's certificate for an epoch.
#[derive(Debug)]
pub struct ConfirmMessage {
    pub epoch: Epoch,
    pub cer: BreezeCertificate,
}

/// The contents of a beacon message.
#[derive(Debug)]
pub enum BreezeContent {
    Share(Share),
    Merkle(MerkleRoots),
    Reply(ReplyMessage),
    Confirm(ConfirmMessage),
    Reconstruct(ReconstructShare),
}

/// A beacon message.
#[derive(Debug)]
pub struct BreezeMessage {
    pub sender: PublicKey,
    pub content: BreezeContent,
}

impl BreezeMessage {
    pub fn new_share_message(pk: PublicKey, share: Share) -> (m: Self)
        ensures
            m.sender == pk,
            m.content == BreezeContent::Share(share),
    {
        BreezeMessage { sender: pk, content: BreezeContent::Share(share) }
    }

    pub fn new_merkle_message(pk: PublicKey, roots: Vec<Digest>, epoch: Epoch) -> (m: Self)
        ensures
            m.sender == pk,
            m.content == BreezeContent::Merkle(MerkleRoots { roots, epoch }),
    {
        BreezeMessage { sender: pk, content: BreezeContent::Merkle(MerkleRoots { roots, epoch }) }
    }

    /// The reply of `receiver` to `dealer`; the sender is the receiver.
    pub fn new_reply_message(
        dealer: PublicKey,
        receiver: PublicKey,
        c: Digest,
        signature: Signature,
        epoch: Epoch,
    ) -> (m: Self)
        ensures
            m.sender == receiver,
            m.content == BreezeContent::Reply(ReplyMessage { epoch, c, signature, dealer }),
    {
        BreezeMessage {
            sender: receiver,
            content: BreezeContent::Reply(ReplyMessage { epoch, c, signature, dealer }),
        }
    }

    pub fn new_confirm_message(pk: PublicKey, epoch: Epoch, cer: BreezeCertificate) -> (m: Self)
        ensures
            m.sender == pk,
            m.content == BreezeContent::Confirm(ConfirmMessage { epoch, cer }),
    {
        BreezeMessage { sender: pk, content: BreezeContent::Confirm(ConfirmMessage { epoch, cer }) }
    }

    pub fn new_reconstruct_message(pk: PublicKey, share: ReconstructShare) -> (m: Self)
        ensures
            m.sender == pk,
            m.content == BreezeContent::Reconstruct(share),
    {
        BreezeMessage { sender: pk, content: BreezeContent::Reconstruct(share) }
    }

    /// The epoch a message belongs to; reconstruction messages carry none.
    pub fn get_epoch(&self) -> (e: Option<Epoch>)
        ensures
            e == match self.content {
                BreezeContent::Share(s) => Some(s.epoch),
                BreezeContent::Merkle(m) => Some(m.epoch),
                BreezeContent::Reply(r) => Some(r.epoch),
                BreezeContent::Confirm(c) => Some(c.epoch),
                BreezeContent::Reconstruct(_) => None::<Epoch>,
            },
    {
        match &self.content {
            BreezeContent::Share(share) => Some(share.epoch),
            BreezeContent::Merkle(rm) => Some(rm.epoch),
            BreezeContent::Reply(rm) => Some(rm.epoch),
            BreezeContent::Confirm(rm) => Some(rm.epoch),
            BreezeContent::Reconstruct(_) => None,
        }
    }
}

/// The contents of a message of the initial agreement.
#[derive(Debug)]
pub enum DumboContent {
    Certificate(BreezeCertificate),
    Vote((Vec<BreezeCertificate>, Signature)),
    Decided((Vec<BreezeCertificate>, Vec<(PublicKey, Signature)>)),
}

/// A message of the initial agreement.
#[derive(Debug)]
pub struct DumboMessage {
    pub sender: PublicKey,
    pub content: DumboContent,
}

/// The contents of a share, as plain sequences.
pub open spec fn share_view(sh: Share) -> (Seq<ZqMod>, Seq<u8>, Seq<ZqMod>, Seq<Seq<u8>>, Seq<(Seq<ZqMod>, Seq<ZqMod>)>, Epoch, usize) {
    (
        sh.t@,
        sh.c.0@,
        sh.y_k@,
        sh.merkle_proofs@.map_values(|p: Vec<u8>| p@),
        sh.eval_proof@.map_values(|p: (Vec<ZqMod>, Vec<ZqMod>)| (p.0@, p.1@)),
        sh.epoch,
        sh.total_party_num,
    )
}

/// A copy of a vector of residues.
fn copy_u128s(v: &Vec<ZqMod>) -> (out: Vec<ZqMod>)
    ensures
        out@ == v@,
{
    let mut out: Vec<ZqMod> = Vec::new();
    let mut i: usize = 0;
    while i < v.len()
        invariant
            i <= v.len(),
            out@ == v@.subrange(0, i as int),
        decreases v.len() - i,
    {
        out.push(v[i]);
        i = i + 1;
        assert(out@ =~= v@.subrange(0, i as int));
    }
    assert(out@ =~= v@);
    out
}

/// A copy of a byte vector.
fn copy_bytes(v: &Vec<u8>) -> (out: Vec<u8>)
    ensures
        out@ == v@,
{
    crate::crypto::bytes_to_vec(v.as_slice())
}

impl Share {
    /// A copy of the share.
    pub fn duplicate(&self) -> (out: Share)
        ensures
            share_view(out) == share_view(*self),
            out.c == self.c,
    {
        let mut proofs: Vec<Vec<u8>> = Vec::new();
        let mut i: usize = 0;
        while i < self.merkle_proofs.len()
            invariant
                i <= self.merkle_proofs.len(),
                proofs@.len() == i,
                forall|k: int| 0 <= k < i ==> (#[trigger] proofs@[k])@ == self.merkle_proofs@[k]@,
            decreases self.merkle_proofs.len() - i,
        {
            proofs.push(copy_bytes(&self.merkle_proofs[i]));
            i = i + 1;
        }
        let mut eval: Vec<(Vec<ZqMod>, Vec<ZqMod>)> = Vec::new();
        let mut j: usize = 0;
        while j < self.eval_proof.len()
            invariant
                j <= self.eval_proof.len(),
                eval@.len() == j,
                forall|k: int|
                    0 <= k < j ==> (#[trigger] eval@[k]).0@ == self.eval_proof@[k].0@ && eval@[k].1@
                        == self.eval_proof@[k].1@,
            decreases self.eval_proof.len() - j,
        {
            eval.push((copy_u128s(&self.eval_proof[j].0), copy_u128s(&self.eval_proof[j].1)));
            j = j + 1;
        }
        let out = Share {
            t: copy_u128s(&self.t),
            c: self.c,
            y_k: copy_u128s(&self.y_k),
            merkle_proofs: proofs,
            eval_proof: eval,
            epoch: self.epoch,
            total_party_num: self.total_party_num,
        };
        assert(share_view(out).3 =~= share_view(*self).3);
        assert(share_view(out).4 =~= share_view(*self).4);
        out
    }
}

} // verus!
