//! The initial agreement on the common core of epoch 0: parties propose
//! certificates, vote on sets of `f + 1` certificates, converge on one set
//! and announce it once a quorum voted for it.
//!
//! [`InitBFT::step`] takes the state and one event and gives the next state
//! and the actions to perform.  Encoding a set of certificates for hashing
//! is left to the caller, who hands the encoding in with each vote.

use vstd::prelude::*;
use crate::config::{Committee, index_of, quorum_size};
use crate::crypto::{Digest, PublicKey, SecretKey, Signature, spec_dilithium_open, spec_dilithium_sign, spec_verify};
use crate::hashing::{sha256, spec_sha256};
use crate::model::{BreezeCertificate, DumboContent, DumboMessage, vote_view};
use crate::types_and_const::Id;

verus! {

/// `b` is a copy of the certificate `a`.
pub open spec fn cert_copy(a: BreezeCertificate, b: BreezeCertificate) -> bool {
    &&& b.c == a.c
    &&& b.epoch == a.epoch
    &&& b.certificates@.len() == a.certificates@.len()
    &&& forall|i: int|
        0 <= i < a.certificates@.len() ==> vote_view(#[trigger] b.certificates@[i]) == vote_view(
            a.certificates@[i],
        )
}

/// `b` is a copy of the list `a`.
pub open spec fn certs_copy(a: Seq<BreezeCertificate>, b: Seq<BreezeCertificate>) -> bool {
    &&& b.len() == a.len()
    &&& forall|i: int| 0 <= i < a.len() ==> cert_copy(#[trigger] a[i], b[i])
}

/// A certificate equal to `c` is in the list.
pub open spec fn cert_in(s: Seq<BreezeCertificate>, c: BreezeCertificate) -> bool {
    exists|i: int| 0 <= i < s.len() && (#[trigger] s[i]).spec_same(&c)
}

/// The two lists hold the same certificates, as sets.
pub open spec fn cert_sets_eq(a: Seq<BreezeCertificate>, b: Seq<BreezeCertificate>) -> bool {
    &&& forall|i: int| 0 <= i < a.len() ==> cert_in(b, #[trigger] a[i])
    &&& forall|j: int| 0 <= j < b.len() ==> cert_in(a, #[trigger] b[j])
}

/// A copy of a list of certificates.
pub fn clone_certs(a: &Vec<BreezeCertificate>) -> (b: Vec<BreezeCertificate>)
    ensures
        certs_copy(a@, b@),
{
    let mut b: Vec<BreezeCertificate> = Vec::new();
    let mut i: usize = 0;
    while i < a.len()
        invariant
            i <= a.len(),
            b@.len() == i,
            forall|k: int| 0 <= k < i ==> cert_copy(#[trigger] a@[k], b@[k]),
        decreases a.len() - i,
    {
        let c = a[i].clone();
        b.push(c);
        i = i + 1;
    }
    b
}

/// Whether a certificate equal to `c` is in the list.
fn holds_cert(s: &Vec<BreezeCertificate>, c: &BreezeCertificate) -> (r: bool)
    ensures
        r == cert_in(s@, *c),
{
    let mut i: usize = 0;
    while i < s.len()
        invariant
            i <= s.len(),
            forall|k: int| 0 <= k < i ==> !(#[trigger] s@[k]).spec_same(c),
        decreases s.len() - i,
    {
        if s[i].same_as(c) {
            return true;
        }
        i = i + 1;
    }
    false
}

/// Whether the two lists hold the same certificates, as sets.
pub fn same_cert_set(a: &Vec<BreezeCertificate>, b: &Vec<BreezeCertificate>) -> (r: bool)
    ensures
        r == cert_sets_eq(a@, b@),
{
    let mut i: usize = 0;
    while i < a.len()
        invariant
            i <= a.len(),
            forall|k: int| 0 <= k < i ==> cert_in(b@, #[trigger] a@[k]),
        decreases a.len() - i,
    {
        if !holds_cert(b, &a[i]) {
            return false;
        }
        i = i + 1;
    }
    let mut j: usize = 0;
    while j < b.len()
        invariant
            j <= b.len(),
            forall|k: int| 0 <= k < a@.len() ==> cert_in(b@, #[trigger] a@[k]),
            forall|k: int| 0 <= k < j ==> cert_in(a@, #[trigger] b@[k]),
        decreases b.len() - j,
    {
        if !holds_cert(a, &b[j]) {
            return false;
        }
        j = j + 1;
    }
    true
}

/// A vote: a set of certificates with the voter's signature on its digest.
pub type VoteEntry = (PublicKey, (Vec<BreezeCertificate>, Signature));

/// Every voter voted for the same set as the first voter.
pub open spec fn votes_agree(map: Seq<VoteEntry>) -> bool {
    forall|i: int| 0 <= i < map.len() ==> cert_sets_eq((#[trigger] map[i]).1.0@, map[0].1.0@)
}

/// The number of voters among the first `len` that voted for the set `s`.
pub open spec fn count_votes(map: Seq<VoteEntry>, s: Seq<BreezeCertificate>, len: int) -> nat
    decreases len,
{
    if len <= 0 {
        0
    } else {
        count_votes(map, s, len - 1) + if cert_sets_eq(map[len - 1].1.0@, s) {
            1nat
        } else {
            0nat
        }
    }
}

/// SHA-256 of the encoding of a set of certificates.
pub fn hash_breeze_certificates(serialized: &Vec<u8>) -> (h: [u8; 32])
    ensures
        h@ == spec_sha256(serialized@),
{
    sha256(serialized)
}

/// The lowest (id, key) of a voter with an id below the committee size,
/// scanning the first `len` voters; `(size, me)` when there is none.
pub open spec fn lowest_voter(map: Seq<VoteEntry>, committee: Committee, me: PublicKey, len: int) -> (int, PublicKey)
    decreases len,
{
    if len <= 0 {
        (committee.authorities@.len() as int, me)
    } else {
        let prev = lowest_voter(map, committee, me, len - 1);
        let id = index_of(committee.authorities@, map[len - 1].0@) + 1;
        if id < prev.0 {
            (id, map[len - 1].0)
        } else {
            prev
        }
    }
}

/// Every voter is a member of the committee.
pub open spec fn voters_members(map: Seq<VoteEntry>, committee: Committee) -> bool {
    forall|i: int| 0 <= i < map.len() ==> index_of(committee.authorities@, (#[trigger] map[i]).0@) >= 0
}

/// The first voter from position `j` on whose set has at least `target`
/// votes, or -1.
pub open spec fn first_popular_from(map: Seq<VoteEntry>, target: int, j: int) -> int
    decreases map.len() - j,
{
    if j < 0 || j >= map.len() {
        -1
    } else if count_votes(map, map[j].1.0@, map.len() as int) >= target {
        j
    } else {
        first_popular_from(map, target, j + 1)
    }
}

/// The first voter whose set has at least `target` votes, or -1.
pub open spec fn first_popular(map: Seq<VoteEntry>, target: int) -> int {
    first_popular_from(map, target, 0)
}

/// The first voter from position `i` on with the given key, or -1.
pub open spec fn voter_index_from(map: Seq<VoteEntry>, k: Seq<u8>, i: int) -> int
    decreases map.len() - i,
{
    if i < 0 || i >= map.len() {
        -1
    } else if map[i].0@ == k {
        i
    } else {
        voter_index_from(map, k, i + 1)
    }
}

/// The first voter with the given key, or -1.
pub open spec fn voter_index(map: Seq<VoteEntry>, k: Seq<u8>) -> int {
    voter_index_from(map, k, 0)
}

/// A copy of a certificate is the same certificate.
pub proof fn lemma_copy_same(a: BreezeCertificate, b: BreezeCertificate)
    requires
        cert_copy(a, b),
    ensures
        a.spec_same(&b),
        forall|c: BreezeCertificate| a.spec_same(&c) <==> b.spec_same(&c),
{
    assert forall|v: (Seq<u8>, Seq<u8>)| a.vote_set().contains(v) <==> b.vote_set().contains(v) by {
        if a.vote_set().contains(v) {
            let i = choose|i: int| 0 <= i < a.certificates@.len() && vote_view(#[trigger] a.certificates@[i]) == v;
            assert(vote_view(b.certificates@[i]) == v);
        }
        if b.vote_set().contains(v) {
            let i = choose|i: int| 0 <= i < b.certificates@.len() && vote_view(#[trigger] b.certificates@[i]) == v;
            assert(vote_view(a.certificates@[i]) == v);
        }
    }
    assert(a.vote_set() =~= b.vote_set());
}

/// Membership is the same in a list and in a copy of it.
pub proof fn lemma_copy_cert_in(a: Seq<BreezeCertificate>, b: Seq<BreezeCertificate>, c: BreezeCertificate)
    requires
        certs_copy(a, b),
    ensures
        cert_in(a, c) <==> cert_in(b, c),
{
    if cert_in(a, c) {
        let i = choose|i: int| 0 <= i < a.len() && (#[trigger] a[i]).spec_same(&c);
        lemma_copy_same(a[i], b[i]);
        assert(b[i].spec_same(&c));
    }
    if cert_in(b, c) {
        let i = choose|i: int| 0 <= i < b.len() && (#[trigger] b[i]).spec_same(&c);
        lemma_copy_same(a[i], b[i]);
        assert(a[i].spec_same(&c));
    }
}

/// The check of certificate `c` against the quorum does not abort.
pub open spec fn cert_checkable(c: BreezeCertificate, quorum_threshold: usize) -> bool {
    &&& c.wf()
    &&& c.certificates@.len() != 0 && c.certificates@.len() >= quorum_threshold ==> c.all_openable()
}

/// Checking the certificates one by one, stopping at the first invalid
/// one, does not abort.
pub open spec fn certs_checkable(cs: Seq<BreezeCertificate>, quorum_threshold: usize) -> bool {
    forall|i: int|
        0 <= i < cs.len() && (forall|j: int| 0 <= j < i ==> (#[trigger] cs[j]).spec_valid(quorum_threshold))
            ==> cert_checkable(#[trigger] cs[i], quorum_threshold)
}

/// Every certificate is valid for the quorum.
pub open spec fn all_valid(cs: Seq<BreezeCertificate>, quorum_threshold: usize) -> bool {
    forall|i: int| 0 <= i < cs.len() ==> (#[trigger] cs[i]).spec_valid(quorum_threshold)
}

/// Checking the signatures one by one, stopping at the first failure, does
/// not abort.
pub open spec fn sigs_checkable(sigs: Seq<(PublicKey, Signature)>, digest: Seq<u8>) -> bool {
    forall|i: int|
        0 <= i < sigs.len() && (forall|j: int| 0 <= j < i ==> spec_verify((#[trigger] sigs[j]).1@, digest, sigs[j].0@))
            ==> spec_dilithium_open((#[trigger] sigs[i]).1@, sigs[i].0@) is Some
}

/// Every signature signs the digest under its key.
pub open spec fn all_signed(sigs: Seq<(PublicKey, Signature)>, digest: Seq<u8>) -> bool {
    forall|i: int| 0 <= i < sigs.len() ==> spec_verify((#[trigger] sigs[i]).1@, digest, sigs[i].0@)
}

/// Whether every certificate is valid for the quorum.
fn certs_valid(cs: &Vec<BreezeCertificate>, quorum_threshold: usize) -> (r: bool)
    requires
        certs_checkable(cs@, quorum_threshold),
    ensures
        r == all_valid(cs@, quorum_threshold),
{
    let mut i: usize = 0;
    while i < cs.len()
        invariant
            i <= cs.len(),
            certs_checkable(cs@, quorum_threshold),
            forall|j: int| 0 <= j < i ==> (#[trigger] cs@[j]).spec_valid(quorum_threshold),
        decreases cs.len() - i,
    {
        assert(cert_checkable(cs@[i as int], quorum_threshold));
        if !cs[i].verify(quorum_threshold) {
            return false;
        }
        i = i + 1;
    }
    true
}

/// Whether every signature signs the digest under its key.
fn sigs_valid(sigs: &Vec<(PublicKey, Signature)>, digest: &Digest) -> (r: bool)
    requires
        sigs_checkable(sigs@, digest.0@),
    ensures
        r == all_signed(sigs@, digest.0@),
{
    let mut i: usize = 0;
    while i < sigs.len()
        invariant
            i <= sigs.len(),
            sigs_checkable(sigs@, digest.0@),
            forall|j: int| 0 <= j < i ==> spec_verify((#[trigger] sigs@[j]).1@, digest.0@, sigs@[j].0@),
        decreases sigs.len() - i,
    {
        assert(spec_dilithium_open(sigs@[i as int].1@, sigs@[i as int].0@) is Some);
        if sigs[i].1.verify(digest, &sigs[i].0).is_err() {
            return false;
        }
        i = i + 1;
    }
    true
}

/// The distinct certificates among the first `len` entries of the buffer,
/// in order of first occurrence.
pub open spec fn distinct_certs(buf: Seq<(PublicKey, BreezeCertificate)>, len: int) -> Seq<BreezeCertificate>
    decreases len,
{
    if len <= 0 {
        Seq::empty()
    } else {
        let prev = distinct_certs(buf, len - 1);
        if cert_in(prev, buf[len - 1].1) {
            prev
        } else {
            prev.push(buf[len - 1].1)
        }
    }
}

/// The buffer holds an entry with the same sender and certificate.
pub open spec fn entry_in(buf: Seq<(PublicKey, BreezeCertificate)>, e: (PublicKey, BreezeCertificate)) -> bool {
    exists|i: int| 0 <= i < buf.len() && (#[trigger] buf[i]).0@ == e.0@ && buf[i].1.spec_same(&e.1)
}

/// The buffer after receiving the entry: unchanged when it holds an equal
/// entry, the entry appended otherwise.
pub open spec fn put_entry(buf: Seq<(PublicKey, BreezeCertificate)>, e: (PublicKey, BreezeCertificate)) -> Seq<(PublicKey, BreezeCertificate)> {
    if entry_in(buf, e) {
        buf
    } else {
        buf.push(e)
    }
}

/// The votes after receiving a vote: the voter's earlier vote replaced, or
/// the vote appended.
pub open spec fn put_vote(votes: Seq<VoteEntry>, e: VoteEntry) -> Seq<VoteEntry> {
    let k = voter_index(votes, e.0@);
    if k >= 0 {
        votes.update(k, e)
    } else {
        votes.push(e)
    }
}

/// The votes among the first `len` whose set is `s`, in order.
pub open spec fn votes_for(votes: Seq<VoteEntry>, s: Seq<BreezeCertificate>, len: int) -> Seq<VoteEntry>
    decreases len,
{
    if len <= 0 {
        Seq::empty()
    } else {
        let prev = votes_for(votes, s, len - 1);
        if cert_sets_eq(votes[len - 1].1.0@, s) {
            prev.push(votes[len - 1])
        } else {
            prev
        }
    }
}

/// An input of the initial agreement.
pub enum InitEvent {
    /// A certificate completed by this party's own dealing.
    OwnCertificate(BreezeCertificate),
    /// A message from a party, expected to carry a certificate.
    CertificateMessage(DumboMessage),
    /// A message from a party, expected to carry a vote, with the encoding
    /// of the voted set.
    VoteMessage(DumboMessage, Vec<u8>),
    /// A message from a party, expected to carry a decision, with the
    /// encoding of the decided set.
    DecidedMessage(DumboMessage, Vec<u8>),
}

/// An output of the initial agreement.
pub enum InitAction {
    /// Send the message to every party.
    Broadcast(DumboMessage),
    /// Sign a vote for this set and send it to every party (see
    /// [`InitBFT::vote_message`]).
    Vote(Vec<BreezeCertificate>),
    /// Hand the decided common core on.
    CommonCore(Vec<BreezeCertificate>),
}

proof fn lemma_voter_index_from(map: Seq<VoteEntry>, k: Seq<u8>, i: int)
    requires
        0 <= i,
    ensures
        -1 <= voter_index_from(map, k, i) < map.len(),
        voter_index_from(map, k, i) >= 0 ==> voter_index_from(map, k, i) >= i && map[voter_index_from(map, k, i)].0@ == k,
        voter_index_from(map, k, i) < 0 ==> forall|j: int| i <= j < map.len() ==> (#[trigger] map[j]).0@ != k,
    decreases map.len() - i,
{
    if i < map.len() && map[i].0@ != k {
        lemma_voter_index_from(map, k, i + 1);
    }
}

/// Sets equal to a list are those equal to a copy of it.
proof fn lemma_copy_sets_eq(a: Seq<BreezeCertificate>, b: Seq<BreezeCertificate>, x: Seq<BreezeCertificate>)
    requires
        certs_copy(a, b),
    ensures
        cert_sets_eq(x, a) <==> cert_sets_eq(x, b),
{
    assert forall|i: int| 0 <= i < x.len() implies cert_in(a, #[trigger] x[i]) <==> cert_in(b, x[i]) by {
        lemma_copy_cert_in(a, b, x[i]);
    }
    assert forall|j: int| 0 <= j < a.len() implies cert_in(x, #[trigger] a[j]) <==> cert_in(x, b[j]) by {
        lemma_copy_same(a[j], b[j]);
        if cert_in(x, a[j]) {
            let i = choose|i: int| 0 <= i < x.len() && (#[trigger] x[i]).spec_same(&a[j]);
            assert(x[i].spec_same(&b[j]));
        }
        if cert_in(x, b[j]) {
            let i = choose|i: int| 0 <= i < x.len() && (#[trigger] x[i]).spec_same(&b[j]);
            assert(x[i].spec_same(&a[j]));
        }
    }
    if cert_sets_eq(x, a) {
        assert forall|j: int| 0 <= j < b.len() implies cert_in(x, #[trigger] b[j]) by {
            assert(cert_in(x, a[j]));
        }
    }
    if cert_sets_eq(x, b) {
        assert forall|j: int| 0 <= j < a.len() implies cert_in(x, #[trigger] a[j]) by {
            assert(cert_in(x, b[j]));
        }
    }
}

/// The votes kept for a set are those kept for a copy of it.
proof fn lemma_votes_for_copy(votes: Seq<VoteEntry>, a: Seq<BreezeCertificate>, b: Seq<BreezeCertificate>, len: int)
    requires
        certs_copy(a, b),
    ensures
        votes_for(votes, a, len) == votes_for(votes, b, len),
    decreases len,
{
    if len > 0 {
        lemma_votes_for_copy(votes, a, b, len - 1);
        lemma_copy_sets_eq(a, b, votes[len - 1].1.0@);
    }
}

/// The votes kept come from the first `len`, in order, with their keys.
proof fn lemma_votes_for_keys(votes: Seq<VoteEntry>, s: Seq<BreezeCertificate>, len: int)
    requires
        0 <= len <= votes.len(),
        forall|i: int, j: int|
            0 <= i < votes.len() && 0 <= j < votes.len() && i != j ==> votes[i].0@ != votes[j].0@,
    ensures
        votes_for(votes, s, len).len() <= len,
        forall|i: int| 0 <= i < votes_for(votes, s, len).len() ==> exists|j: int| 0 <= j < len && #[trigger] votes_for(votes, s, len)[i] == votes[j],
        forall|i: int, j: int|
            0 <= i < votes_for(votes, s, len).len() && 0 <= j < votes_for(votes, s, len).len() && i != j
                ==> votes_for(votes, s, len)[i].0@ != votes_for(votes, s, len)[j].0@,
    decreases len,
{
    if len > 0 {
        lemma_votes_for_keys(votes, s, len - 1);
        let prev = votes_for(votes, s, len - 1);
        let cur = votes_for(votes, s, len);
        if cert_sets_eq(votes[len - 1].1.0@, s) {
            assert forall|i: int| 0 <= i < cur.len() implies exists|j: int| 0 <= j < len && #[trigger] cur[i] == votes[j] by {
                if i < prev.len() {
                    assert(cur[i] == prev[i]);
                    let j = choose|j: int| 0 <= j < len - 1 && #[trigger] prev[i] == votes[j];
                    assert(cur[i] == votes[j]);
                } else {
                    assert(cur[i] == votes[len - 1]);
                }
            }
            assert forall|i: int, j: int|
                0 <= i < cur.len() && 0 <= j < cur.len() && i != j implies cur[i].0@ != cur[j].0@ by {
                if i < prev.len() && j < prev.len() {
                    assert(cur[i] == prev[i] && cur[j] == prev[j]);
                } else if i < prev.len() {
                    let a = choose|a: int| 0 <= a < len - 1 && #[trigger] prev[i] == votes[a];
                    assert(cur[i] == votes[a]);
                    assert(cur[j] == votes[len - 1]);
                } else {
                    let a = choose|a: int| 0 <= a < len - 1 && #[trigger] prev[j] == votes[a];
                    assert(cur[j] == votes[a]);
                    assert(cur[i] == votes[len - 1]);
                }
            }
        } else {
            assert forall|i: int| 0 <= i < cur.len() implies exists|j: int| 0 <= j < len && #[trigger] cur[i] == votes[j] by {
                let j = choose|j: int| 0 <= j < len - 1 && #[trigger] prev[i] == votes[j];
            }
        }
    }
}

/// State of the initial agreement of one party.
pub struct InitBFT {
    pk: PublicKey,
    sk: SecretKey,
    committee: Committee,
    quorum_threshold: usize,
    fault_tolerance: usize,
    certificate_buffer: Vec<(PublicKey, BreezeCertificate)>,
    cc_buffer: Vec<VoteEntry>,
    init_cc_decided: bool,
}

impl InitBFT {
    /// This party's key.
    pub closed spec fn spec_pk(&self) -> PublicKey {
        self.pk
    }

    /// This party's signing key.
    pub closed spec fn spec_sk(&self) -> SecretKey {
        self.sk
    }

    /// The committee.
    pub closed spec fn spec_committee(&self) -> Committee {
        self.committee
    }

    /// Signatures needed for a certificate, and votes needed to decide.
    pub closed spec fn spec_quorum(&self) -> usize {
        self.quorum_threshold
    }

    /// Faulty parties tolerated.
    pub closed spec fn spec_ft(&self) -> usize {
        self.fault_tolerance
    }

    /// The certificates received, with their senders.
    pub closed spec fn cert_buffer(&self) -> Seq<(PublicKey, BreezeCertificate)> {
        self.certificate_buffer@
    }

    /// The votes received, by voter.
    pub closed spec fn votes(&self) -> Seq<VoteEntry> {
        self.cc_buffer@
    }

    /// Whether the common core was handed on.
    pub closed spec fn decided(&self) -> bool {
        self.init_cc_decided
    }

    /// Voters occur once and the fault bound leaves room for `f + 1`.
    pub closed spec fn wf(&self) -> bool {
        &&& self.fault_tolerance < usize::MAX
        &&& self.quorum_threshold >= 1
        &&& forall|i: int, j: int|
            0 <= i < self.cc_buffer@.len() && 0 <= j < self.cc_buffer@.len() && i != j
                ==> self.cc_buffer@[i].0@ != self.cc_buffer@[j].0@
    }

    /// An agreement with nothing received, for the given committee.
    pub fn new(pk: PublicKey, sk: SecretKey, committee: Committee) -> (s: Self)
        requires
            committee.authorities@.len() >= 1,
        ensures
            s.wf(),
            s.spec_pk() == pk,
            s.spec_sk() == sk,
            s.spec_committee() == committee,
            s.spec_quorum() == quorum_size(committee.authorities@.len()),
            s.spec_ft() == (committee.authorities@.len() - 1) / 3,
            s.cert_buffer().len() == 0,
            s.votes().len() == 0,
            !s.decided(),
    {
        let quorum_threshold = committee.authorities_quorum_threshold();
        let fault_tolerance = committee.authorities_fault_tolerance();
        InitBFT {
            pk,
            sk,
            committee,
            quorum_threshold,
            fault_tolerance,
            certificate_buffer: Vec::new(),
            cc_buffer: Vec::new(),
            init_cc_decided: false,
        }
    }

    /// The decision when every voter voted for the same set: that set with
    /// the first voter's signature; `None` when the votes differ.
    pub fn find_result(map: &Vec<VoteEntry>) -> (r: Option<(Vec<BreezeCertificate>, Signature)>)
        requires
            map@.len() > 0,
        ensures
            r is Some <==> votes_agree(map@),
            r matches Some(res) ==> certs_copy(map@[0].1.0@, res.0@) && res.1@ == map@[0].1.1@,
    {
        let mut i: usize = 0;
        while i < map.len()
            invariant
                i <= map.len(),
                map@.len() > 0,
                forall|k: int| 0 <= k < i ==> cert_sets_eq((#[trigger] map@[k]).1.0@, map@[0].1.0@),
            decreases map.len() - i,
        {
            if !same_cert_set(&map[i].1.0, &map[0].1.0) {
                return None;
            }
            i = i + 1;
        }
        Some((clone_certs(&map[0].1.0), map[0].1.1.clone()))
    }

    /// The set to vote for when the votes differ: the first set voted for
    /// by at least `f + 1` voters; otherwise the set of the voter with the
    /// lowest id below the committee size (this party itself when there is
    /// none).  A voter outside the committee, or no vote from the chosen
    /// voter, is ruled out (there is no set to vote for then).
    pub fn find_vote_subset(&self, ccs: &Vec<VoteEntry>, fault_tolerance: usize) -> (r: Option<Vec<BreezeCertificate>>)
        requires
            fault_tolerance < usize::MAX,
            !subset_aborts(ccs@, self.spec_committee(), self.spec_pk(), fault_tolerance),
        ensures
            r is Some,
            first_popular(ccs@, fault_tolerance + 1) >= 0 ==> r is Some && certs_copy(
                ccs@[first_popular(ccs@, fault_tolerance + 1)].1.0@,
                r->0@,
            ),
            first_popular(ccs@, fault_tolerance + 1) < 0 ==> {
                let low = lowest_voter(ccs@, self.spec_committee(), self.spec_pk(), ccs@.len() as int);
                let k = voter_index(ccs@, low.1@);
                &&& r is Some <==> (voters_members(ccs@, self.spec_committee()) && k >= 0)
                &&& r matches Some(v) ==> certs_copy(ccs@[k].1.0@, v@)
            },
    {
        let target = fault_tolerance + 1;
        let n = ccs.len();
        let mut j: usize = 0;
        while j < n
            invariant
                j <= n,
                n == ccs@.len(),
                target == fault_tolerance + 1,
                first_popular(ccs@, target as int) == first_popular_from(ccs@, target as int, j as int),
            decreases n - j,
        {
            let mut count: usize = 0;
            let mut i: usize = 0;
            while i < n
                invariant
                    i <= n,
                    j < n,
                    n == ccs@.len(),
                    count == count_votes(ccs@, ccs@[j as int].1.0@, i as int),
                    count <= i,
                decreases n - i,
            {
                if same_cert_set(&ccs[i].1.0, &ccs[j].1.0) {
                    count = count + 1;
                }
                i = i + 1;
            }
            if count >= target {
                return Some(clone_certs(&ccs[j].1.0));
            }
            j = j + 1;
        }
        let mut lowest_id: usize = self.committee.size();
        let mut lowest_pk: PublicKey = self.pk;
        let mut i: usize = 0;
        while i < n
            invariant
                i <= n,
                n == ccs@.len(),
                first_popular(ccs@, target as int) < 0,
                target == fault_tolerance + 1,
                (lowest_id as int, lowest_pk) == lowest_voter(ccs@, self.committee, self.pk, i as int),
                forall|z: int| 0 <= z < i ==> index_of(self.committee.authorities@, (#[trigger] ccs@[z]).0@) >= 0,
                voters_members(ccs@, self.committee),
            decreases n - i,
        {
            let id = match self.committee.get_id(&ccs[i].0) {
                Some(id) => id,
                None => {
                    proof {
                        assert(index_of(self.committee.authorities@, ccs@[i as int].0@) >= 0);
                    }
                    return None;
                },
            };
            let ghost prev = lowest_voter(ccs@, self.committee, self.pk, i as int);
            if id < lowest_id {
                lowest_id = id;
                lowest_pk = ccs[i].0;
            }
            proof {
                assert(lowest_voter(ccs@, self.committee, self.pk, i + 1) == (if index_of(self.committee.authorities@, ccs@[i as int].0@) + 1 < prev.0 {
                    (index_of(self.committee.authorities@, ccs@[i as int].0@) + 1, ccs@[i as int].0)
                } else {
                    prev
                }));
            }
            i = i + 1;
        }
        let mut k: usize = 0;
        while k < n
            invariant
                k <= n,
                n == ccs@.len(),
                first_popular(ccs@, target as int) < 0,
                target == fault_tolerance + 1,
                voters_members(ccs@, self.committee),
                (lowest_id as int, lowest_pk) == lowest_voter(ccs@, self.committee, self.pk, n as int),
                voter_index(ccs@, lowest_pk@) == voter_index_from(ccs@, lowest_pk@, k as int),
                voter_index(ccs@, lowest_pk@) >= 0,
            decreases n - k,
        {
            if ccs[k].0.same(&lowest_pk) {
                return Some(clone_certs(&ccs[k].1.0));
            }
            k = k + 1;
        }
        None
    }
}

/// A certificate message carries a valid certificate.
pub open spec fn cert_accepted(s: InitBFT, m: DumboMessage) -> bool {
    m.content matches DumboContent::Certificate(c) && c.spec_valid(s.spec_quorum())
}

/// A vote message carries valid certificates, signed by its sender over
/// the hash of the encoding.
pub open spec fn vote_accepted(s: InitBFT, m: DumboMessage, encoding: Seq<u8>) -> bool {
    &&& m.content matches DumboContent::Vote(v)
    &&& all_valid(v.0@, s.spec_quorum())
    &&& spec_verify(v.1@, spec_sha256(encoding), m.sender@)
}

/// A decision message carries valid certificates and signatures over the
/// hash of the encoding.
pub open spec fn decided_accepted(s: InitBFT, m: DumboMessage, encoding: Seq<u8>) -> bool {
    &&& m.content matches DumboContent::Decided(d)
    &&& all_valid(d.0@, s.spec_quorum())
    &&& all_signed(d.1@, spec_sha256(encoding))
}

/// The certificates received, after the event.
pub open spec fn event_certs(s: InitBFT, e: InitEvent) -> Seq<(PublicKey, BreezeCertificate)> {
    match e {
        InitEvent::CertificateMessage(m) => if cert_accepted(s, m) {
            put_entry(s.cert_buffer(), (m.sender, m.content->Certificate_0))
        } else {
            s.cert_buffer()
        },
        _ => s.cert_buffer(),
    }
}

/// The votes received, after the event.
pub open spec fn event_votes(s: InitBFT, e: InitEvent) -> Seq<VoteEntry> {
    match e {
        InitEvent::VoteMessage(m, enc) => if vote_accepted(s, m, enc@) {
            put_vote(s.votes(), (m.sender, m.content->Vote_0))
        } else {
            s.votes()
        },
        _ => s.votes(),
    }
}

/// Whether the common core was handed on, after the event.
pub open spec fn event_decided(s: InitBFT, e: InitEvent) -> bool {
    match e {
        InitEvent::DecidedMessage(m, enc) => s.decided() || decided_accepted(s, m, enc@),
        _ => s.decided(),
    }
}

/// What the event itself asks to do.
pub open spec fn event_actions(s: InitBFT, e: InitEvent) -> Seq<InitAction> {
    match e {
        InitEvent::OwnCertificate(c) => seq![
            InitAction::Broadcast(
                DumboMessage { sender: s.spec_pk(), content: DumboContent::Certificate(c) },
            ),
        ],
        InitEvent::DecidedMessage(m, enc) => if decided_accepted(s, m, enc@) && !s.decided() {
            seq![InitAction::CommonCore(m.content->Decided_0.0)]
        } else {
            Seq::empty()
        },
        _ => Seq::empty(),
    }
}

/// The voter whose set is voted for when the votes differ: the first whose
/// set has at least `f + 1` votes, otherwise the voter with the lowest id.
pub open spec fn subset_index(votes: Seq<VoteEntry>, committee: Committee, me: PublicKey, ft: usize) -> int {
    let p = first_popular(votes, ft + 1);
    if p >= 0 {
        p
    } else {
        voter_index(votes, lowest_voter(votes, committee, me, votes.len() as int).1@)
    }
}

/// Where the choice of a set to vote for aborts: no popular set, and a
/// voter outside the committee or no vote from the lowest voter.
pub open spec fn subset_aborts(votes: Seq<VoteEntry>, committee: Committee, me: PublicKey, ft: usize) -> bool {
    &&& first_popular(votes, ft + 1) < 0
    &&& !(voters_members(votes, committee) && subset_index(votes, committee, me, ft) >= 0)
}

/// The action is a vote for a copy of `cs`.
pub open spec fn is_vote_for(a: InitAction, cs: Seq<BreezeCertificate>) -> bool {
    a matches InitAction::Vote(v) && certs_copy(cs, v@)
}

/// The action hands on a copy of `cs`.
pub open spec fn is_core_of(a: InitAction, cs: Seq<BreezeCertificate>) -> bool {
    a matches InitAction::CommonCore(v) && certs_copy(cs, v@)
}

/// The action broadcasts the decision on the first voter's set, with every
/// voter's key and signature.
pub open spec fn is_decision(a: InitAction, me: PublicKey, votes: Seq<VoteEntry>) -> bool {
    &&& a matches InitAction::Broadcast(m)
    &&& m.sender == me
    &&& m.content matches DumboContent::Decided(d)
    &&& certs_copy(votes[0].1.0@, d.0@)
    &&& d.1@.len() == votes.len()
    &&& forall|i: int| 0 <= i < votes.len() ==> (#[trigger] d.1@[i]).0 == votes[i].0 && d.1@[i].1@ == votes[i].1.1@
}

/// The actions of one step: those of the event, then a vote on `f + 1`
/// received certificates when there are that many, then, once a quorum
/// voted, the decision or a new vote.
pub open spec fn step_actions(s: InitBFT, e: InitEvent, acts: Seq<InitAction>) -> bool {
    let first = event_actions(s, e);
    let c1 = event_certs(s, e);
    let v1 = event_votes(s, e);
    let d1 = event_decided(s, e);
    let p: int = if c1.len() >= s.spec_ft() + 1 { 1 } else { 0 };
    let rest = acts.subrange(first.len() + p, acts.len() as int);
    &&& acts.len() >= first.len() + p
    &&& acts.subrange(0, first.len() as int) == first
    &&& p == 1 ==> is_vote_for(acts[first.len() as int], distinct_certs(c1, s.spec_ft() + 1))
    &&& if v1.len() < s.spec_quorum() {
        rest.len() == 0
    } else if votes_agree(v1) {
        if !d1 {
            rest.len() == 2 && is_core_of(rest[0], v1[0].1.0@) && is_decision(rest[1], s.spec_pk(), v1)
        } else {
            rest.len() == 1 && is_decision(rest[0], s.spec_pk(), v1)
        }
    } else {
        rest.len() == 1 && is_vote_for(
            rest[0],
            v1[subset_index(v1, s.spec_committee(), s.spec_pk(), s.spec_ft())].1.0@,
        )
    }
}

/// The state after one step.
pub open spec fn step_state(s: InitBFT, e: InitEvent, t: InitBFT) -> bool {
    let c1 = event_certs(s, e);
    let v1 = event_votes(s, e);
    &&& t.spec_pk() == s.spec_pk()
    &&& t.spec_sk() == s.spec_sk()
    &&& t.spec_committee() == s.spec_committee()
    &&& t.spec_quorum() == s.spec_quorum()
    &&& t.spec_ft() == s.spec_ft()
    &&& t.cert_buffer() == if c1.len() >= s.spec_ft() + 1 {
        Seq::empty()
    } else {
        c1
    }
    &&& t.votes() == if v1.len() >= s.spec_quorum() && !votes_agree(v1) {
        votes_for(
            v1,
            v1[subset_index(v1, s.spec_committee(), s.spec_pk(), s.spec_ft())].1.0@,
            v1.len() as int,
        )
    } else {
        v1
    }
    &&& t.decided() == (event_decided(s, e) || (v1.len() >= s.spec_quorum() && votes_agree(v1)))
}

impl InitBFT {
    /// What `step` needs of an event: the checks it makes on certificates
    /// and signatures do not abort, and the choice of a set to vote for
    /// does not abort.
    pub open spec fn event_ok(&self, e: &InitEvent) -> bool {
        &&& match *e {
            InitEvent::CertificateMessage(m) => m.content matches DumboContent::Certificate(c)
                ==> cert_checkable(c, self.spec_quorum()),
            InitEvent::VoteMessage(m, _) => m.content matches DumboContent::Vote(v) ==> certs_checkable(
                v.0@,
                self.spec_quorum(),
            ) && spec_dilithium_open(v.1@, m.sender@) is Some,
            InitEvent::DecidedMessage(m, enc) => m.content matches DumboContent::Decided(d)
                ==> certs_checkable(d.0@, self.spec_quorum()) && sigs_checkable(d.1@, spec_sha256(enc@)),
            _ => true,
        }
        &&& !(event_votes(*self, *e).len() >= self.spec_quorum() && !votes_agree(event_votes(*self, *e))
            && subset_aborts(event_votes(*self, *e), self.spec_committee(), self.spec_pk(), self.spec_ft()))
    }

    /// Position of the vote of `k`.
    fn voter_pos(&self, k: &PublicKey) -> (r: Option<usize>)
        ensures
            r matches Some(i) ==> i as int == voter_index(self.votes(), k@),
            r is None ==> voter_index(self.votes(), k@) < 0,
    {
        let mut i: usize = 0;
        while i < self.cc_buffer.len()
            invariant
                i <= self.cc_buffer@.len(),
                voter_index(self.cc_buffer@, k@) == voter_index_from(self.cc_buffer@, k@, i as int),
            decreases self.cc_buffer.len() - i,
        {
            if self.cc_buffer[i].0.same(k) {
                return Some(i);
            }
            i = i + 1;
        }
        None
    }

    /// Records a vote, replacing the voter's earlier one.
    fn put_vote_entry(&mut self, e: VoteEntry)
        requires
            old(self).wf(),
        ensures
            final(self).wf(),
            final(self).votes() == put_vote(old(self).votes(), e),
            final(self).cert_buffer() == old(self).cert_buffer(),
            final(self).decided() == old(self).decided(),
            final(self).pk == old(self).pk,
            final(self).sk == old(self).sk,
            final(self).committee == old(self).committee,
            final(self).quorum_threshold == old(self).quorum_threshold,
            final(self).fault_tolerance == old(self).fault_tolerance,
    {
        let ghost before = self.cc_buffer@;
        proof {
            lemma_voter_index_from(before, e.0@, 0);
        }
        match self.voter_pos(&e.0) {
            Some(i) => {
                self.cc_buffer.set(i, e);
                proof {
                    let after = self.cc_buffer@;
                    assert forall|a: int, b: int|
                        0 <= a < after.len() && 0 <= b < after.len() && a != b implies after[a].0@ != after[b].0@ by {
                        if a != i && b != i {
                            assert(after[a] == before[a] && after[b] == before[b]);
                        } else if a == i {
                            assert(after[b] == before[b]);
                        } else {
                            assert(after[a] == before[a]);
                        }
                    }
                }
            },
            None => {
                self.cc_buffer.push(e);
                proof {
                    let after = self.cc_buffer@;
                    assert forall|a: int, b: int|
                        0 <= a < after.len() && 0 <= b < after.len() && a != b implies after[a].0@ != after[b].0@ by {
                        if a < before.len() && b < before.len() {
                            assert(after[a] == before[a] && after[b] == before[b]);
                        } else if a < before.len() {
                            assert(after[a] == before[a]);
                        } else {
                            assert(after[b] == before[b]);
                        }
                    }
                }
            },
        }
    }

    /// Records a certificate from `sender` unless an equal entry is held.
    fn put_cert_entry(&mut self, sender: PublicKey, c: BreezeCertificate)
        ensures
            final(self).cert_buffer() == put_entry(old(self).cert_buffer(), (sender, c)),
            final(self).cc_buffer == old(self).cc_buffer,
            final(self).decided() == old(self).decided(),
            final(self).pk == old(self).pk,
            final(self).sk == old(self).sk,
            final(self).committee == old(self).committee,
            final(self).quorum_threshold == old(self).quorum_threshold,
            final(self).fault_tolerance == old(self).fault_tolerance,
    {
        let mut i: usize = 0;
        while i < self.certificate_buffer.len()
            invariant
                i <= self.certificate_buffer@.len(),
                forall|j: int|
                    0 <= j < i ==> !((#[trigger] self.certificate_buffer@[j]).0@ == sender@
                        && self.certificate_buffer@[j].1.spec_same(&c)),
            decreases self.certificate_buffer.len() - i,
        {
            if self.certificate_buffer[i].0.same(&sender) && self.certificate_buffer[i].1.same_as(&c) {
                return;
            }
            i = i + 1;
        }
        self.certificate_buffer.push((sender, c));
    }

    /// Takes the distinct certificates among the first `f + 1` received,
    /// and forgets all received certificates.
    fn take_proposal(&mut self) -> (r: Vec<BreezeCertificate>)
        requires
            old(self).wf(),
            old(self).cert_buffer().len() >= old(self).spec_ft() + 1,
        ensures
            final(self).wf(),
            certs_copy(distinct_certs(old(self).cert_buffer(), old(self).spec_ft() + 1), r@),
            final(self).cert_buffer() == Seq::<(PublicKey, BreezeCertificate)>::empty(),
            final(self).cc_buffer == old(self).cc_buffer,
            final(self).decided() == old(self).decided(),
            final(self).pk == old(self).pk,
            final(self).sk == old(self).sk,
            final(self).committee == old(self).committee,
            final(self).quorum_threshold == old(self).quorum_threshold,
            final(self).fault_tolerance == old(self).fault_tolerance,
    {
        let n = self.fault_tolerance + 1;
        let mut out: Vec<BreezeCertificate> = Vec::new();
        let mut i: usize = 0;
        while i < n
            invariant
                i <= n,
                n <= self.certificate_buffer@.len(),
                certs_copy(distinct_certs(self.certificate_buffer@, i as int), out@),
            decreases n - i,
        {
            let ghost prev = distinct_certs(self.certificate_buffer@, i as int);
            proof {
                lemma_copy_cert_in(prev, out@, self.certificate_buffer@[i as int].1);
            }
            if !holds_cert(&out, &self.certificate_buffer[i].1) {
                let c = self.certificate_buffer[i].1.clone();
                out.push(c);
            }
            i = i + 1;
        }
        self.certificate_buffer = Vec::new();
        out
    }

    /// Forgets the votes for sets other than `set`.
    fn keep_votes(&mut self, set: &Vec<BreezeCertificate>)
        requires
            old(self).wf(),
        ensures
            final(self).wf(),
            final(self).votes() == votes_for(old(self).votes(), set@, old(self).votes().len() as int),
            final(self).certificate_buffer == old(self).certificate_buffer,
            final(self).decided() == old(self).decided(),
            final(self).pk == old(self).pk,
            final(self).sk == old(self).sk,
            final(self).committee == old(self).committee,
            final(self).quorum_threshold == old(self).quorum_threshold,
            final(self).fault_tolerance == old(self).fault_tolerance,
    {
        let ghost orig = self.cc_buffer@;
        let total = self.cc_buffer.len();
        let ghost n = total as int;
        let mut i: usize = 0;
        let mut j: usize = 0;
        while i < self.cc_buffer.len()
            invariant
                0 <= j <= n,
                n == orig.len(),
                n == total,
                i == votes_for(orig, set@, j as int).len(),
                self.cc_buffer@ == votes_for(orig, set@, j as int) + orig.subrange(j as int, n),
                self.cc_buffer@.len() == i + (n - j),
                orig == old(self).cc_buffer@,
                old(self).wf(),
                self.certificate_buffer == old(self).certificate_buffer,
                self.init_cc_decided == old(self).init_cc_decided,
                self.pk == old(self).pk,
                self.sk == old(self).sk,
                self.committee == old(self).committee,
                self.quorum_threshold == old(self).quorum_threshold,
                self.fault_tolerance == old(self).fault_tolerance,
            decreases self.cc_buffer.len() - i,
        {
            let ghost kept = votes_for(orig, set@, j as int);
            assert(j < n);
            assert(self.cc_buffer@[i as int] == orig[j as int]);
            if same_cert_set(&self.cc_buffer[i].1.0, set) {
                proof {
                    assert(votes_for(orig, set@, j + 1) == kept.push(orig[j as int]));
                    assert(self.cc_buffer@ =~= kept.push(orig[j as int]) + orig.subrange(j + 1, n));
                }
                i = i + 1;
            } else {
                self.cc_buffer.remove(i);
                proof {
                    assert(votes_for(orig, set@, j + 1) == kept);
                    assert(self.cc_buffer@ =~= kept + orig.subrange(j + 1, n));
                }
            }
            j = j + 1;
        }
        proof {
            assert(self.cc_buffer@ =~= votes_for(orig, set@, n));
            lemma_votes_for_keys(orig, set@, n);
        }
    }

    /// The decision on the first voter's set, with every voter's key and
    /// signature.
    fn decision_message(&self) -> (m: DumboMessage)
        requires
            self.votes().len() > 0,
        ensures
            is_decision(InitAction::Broadcast(m), self.spec_pk(), self.votes()),
    {
        let set = clone_certs(&self.cc_buffer[0].1.0);
        let mut sigs: Vec<(PublicKey, Signature)> = Vec::new();
        let mut i: usize = 0;
        while i < self.cc_buffer.len()
            invariant
                i <= self.cc_buffer@.len(),
                sigs@.len() == i,
                forall|k: int| 0 <= k < i ==> (#[trigger] sigs@[k]).0 == self.cc_buffer@[k].0 && sigs@[k].1@ == self.cc_buffer@[k].1.1@,
            decreases self.cc_buffer.len() - i,
        {
            sigs.push((self.cc_buffer[i].0, self.cc_buffer[i].1.1.clone()));
            i = i + 1;
        }
        DumboMessage { sender: self.pk, content: DumboContent::Decided((set, sigs)) }
    }
}

impl InitBFT {
    /// The signed vote of this party for `set`, whose encoding is given.
    pub fn vote_message(&self, set: Vec<BreezeCertificate>, encoding: &Vec<u8>) -> (m: DumboMessage)
        ensures
            m.sender == self.spec_pk(),
            m.content matches DumboContent::Vote(v) && v.0 == set && v.1@ == spec_dilithium_sign(
                spec_sha256(encoding@),
                self.spec_sk()@,
            ),
    {
        let digest = Digest(hash_breeze_certificates(encoding));
        let sig = Signature::new(&digest, &self.sk);
        DumboMessage { sender: self.pk, content: DumboContent::Vote((set, sig)) }
    }

    /// Applies the event itself.
    fn apply_event(&mut self, event: InitEvent) -> (acts: Vec<InitAction>)
        requires
            old(self).wf(),
            old(self).event_ok(&event),
        ensures
            final(self).wf(),
            final(self).cert_buffer() == event_certs(*old(self), event),
            final(self).votes() == event_votes(*old(self), event),
            final(self).decided() == event_decided(*old(self), event),
            final(self).pk == old(self).pk,
            final(self).sk == old(self).sk,
            final(self).committee == old(self).committee,
            final(self).quorum_threshold == old(self).quorum_threshold,
            final(self).fault_tolerance == old(self).fault_tolerance,
            acts@ == event_actions(*old(self), event),
    {
        let mut acts: Vec<InitAction> = Vec::new();
        match event {
            InitEvent::OwnCertificate(c) => {
                acts.push(
                    InitAction::Broadcast(
                        DumboMessage { sender: self.pk, content: DumboContent::Certificate(c) },
                    ),
                );
                proof {
                    assert(acts@ =~= event_actions(*old(self), event));
                }
            },
            InitEvent::CertificateMessage(m) => {
                let sender = m.sender;
                match m.content {
                    DumboContent::Certificate(c) => {
                        if c.verify(self.quorum_threshold) {
                            self.put_cert_entry(sender, c);
                        }
                    },
                    _ => {},
                }
                proof {
                    assert(acts@ =~= event_actions(*old(self), event));
                }
            },
            InitEvent::VoteMessage(m, enc) => {
                let sender = m.sender;
                match m.content {
                    DumboContent::Vote(v) => {
                        let certs_ok = certs_valid(&v.0, self.quorum_threshold);
                        let digest = Digest(hash_breeze_certificates(&enc));
                        let sig_ok = v.1.verify(&digest, &sender).is_ok();
                        if certs_ok && sig_ok {
                            self.put_vote_entry((sender, v));
                        }
                    },
                    _ => {},
                }
                proof {
                    assert(acts@ =~= event_actions(*old(self), event));
                }
            },
            InitEvent::DecidedMessage(m, enc) => {
                match m.content {
                    DumboContent::Decided(d) => {
                        let certs_ok = certs_valid(&d.0, self.quorum_threshold);
                        let digest = Digest(hash_breeze_certificates(&enc));
                        let sigs_ok = sigs_valid(&d.1, &digest);
                        if certs_ok && sigs_ok {
                            if !self.init_cc_decided {
                                acts.push(InitAction::CommonCore(d.0));
                            }
                            self.init_cc_decided = true;
                        }
                    },
                    _ => {},
                }
                proof {
                    assert(acts@ =~= event_actions(*old(self), event));
                }
            },
        }
        acts
    }

    /// Takes one event: records what it carries, votes on `f + 1`
    /// received certificates once there are that many, and once a quorum
    /// voted either decides (when all voted for the same set) or votes for
    /// the chosen set and forgets the votes for other sets.
    pub fn step(&mut self, event: InitEvent) -> (acts: Vec<InitAction>)
        requires
            old(self).wf(),
            old(self).event_ok(&event),
        ensures
            final(self).wf(),
            step_state(*old(self), event, *final(self)),
            step_actions(*old(self), event, acts@),
    {
        let ghost s0 = *old(self);
        let mut acts = self.apply_event(event);
        let ghost first = acts@;
        let ghost c1 = self.certificate_buffer@;
        let ghost v1 = self.cc_buffer@;
        let ghost d1 = self.init_cc_decided;
        if self.certificate_buffer.len() >= self.fault_tolerance + 1 {
            let my = self.take_proposal();
            acts.push(InitAction::Vote(my));
        }
        let ghost mid = acts@;
        proof {
            assert(mid.subrange(0, first.len() as int) =~= first);
        }
        if self.cc_buffer.len() >= self.quorum_threshold {
            match Self::find_result(&self.cc_buffer) {
                Some(res) => {
                    if !self.init_cc_decided {
                        acts.push(InitAction::CommonCore(res.0));
                    }
                    let msg = self.decision_message();
                    acts.push(InitAction::Broadcast(msg));
                    self.init_cc_decided = true;
                },
                None => {
                    let ft = self.fault_tolerance;
                    let vote = match self.find_vote_subset(&self.cc_buffer, ft) {
                        Some(v) => v,
                        None => {
                            return acts;
                        },
                    };
                    let ghost k = subset_index(v1, s0.spec_committee(), s0.spec_pk(), s0.spec_ft());
                    self.keep_votes(&vote);
                    proof {
                        lemma_votes_for_copy(v1, v1[k].1.0@, vote@, v1.len() as int);
                    }
                    acts.push(InitAction::Vote(vote));
                },
            }
        }
        proof {
            let p: int = if c1.len() >= s0.spec_ft() + 1 { 1 } else { 0 };
            assert(acts@.subrange(0, first.len() as int) =~= first);
            assert(acts@.subrange(0, mid.len() as int) =~= mid);
            assert(mid.len() == first.len() + p);
            if p == 1 {
                assert(acts@[first.len() as int] == mid[first.len() as int]);
            }
        }
        acts
    }
}

/// Law: once the common core was handed on, it stays decided and no later
/// step hands a common core on again.
pub proof fn lemma_common_core_once(s: InitBFT, e: InitEvent, t: InitBFT, acts: Seq<InitAction>)
    requires
        step_state(s, e, t),
        step_actions(s, e, acts),
        s.decided(),
    ensures
        t.decided(),
        forall|i: int| 0 <= i < acts.len() ==> !(#[trigger] acts[i] is CommonCore),
{
    let first = event_actions(s, e);
    let c1 = event_certs(s, e);
    let p: int = if c1.len() >= s.spec_ft() + 1 { 1 } else { 0 };
    let rest = acts.subrange(first.len() + p, acts.len() as int);
    assert forall|i: int| 0 <= i < acts.len() implies !(#[trigger] acts[i] is CommonCore) by {
        if i < first.len() {
            assert(acts.subrange(0, first.len() as int)[i] == acts[i]);
        } else if i >= first.len() + p {
            assert(rest[i - first.len() - p] == acts[i]);
        }
    }
}

/// Law: a decision is announced only with the signatures of a quorum of
/// voters, all of whom voted for the announced set.
pub proof fn lemma_decision_has_quorum(s: InitBFT, e: InitEvent, acts: Seq<InitAction>, i: int)
    requires
        step_actions(s, e, acts),
        0 <= i < acts.len(),
        acts[i] matches InitAction::Broadcast(m) && m.content is Decided,
    ensures
        ({
            let v1 = event_votes(s, e);
            &&& v1.len() >= s.spec_quorum()
            &&& votes_agree(v1)
            &&& is_decision(acts[i], s.spec_pk(), v1)
        }),
{
    let first = event_actions(s, e);
    let c1 = event_certs(s, e);
    let p: int = if c1.len() >= s.spec_ft() + 1 { 1 } else { 0 };
    let rest = acts.subrange(first.len() + p, acts.len() as int);
    if i < first.len() {
        assert(acts.subrange(0, first.len() as int)[i] == acts[i]);
    } else if i >= first.len() + p {
        assert(rest[i - first.len() - p] == acts[i]);
    }
}

/// One step hands the common core on at most once, and only a step that
/// decides (from undecided) hands it on.
pub proof fn lemma_step_common_core_unique(s: InitBFT, e: InitEvent, t: InitBFT, acts: Seq<InitAction>)
    requires
        step_state(s, e, t),
        step_actions(s, e, acts),
    ensures
        s.decided() ==> t.decided(),
        forall|i: int, j: int|
            0 <= i < acts.len() && 0 <= j < acts.len() && #[trigger] acts[i] is CommonCore
                && #[trigger] acts[j] is CommonCore ==> i == j,
        forall|i: int| 0 <= i < acts.len() && #[trigger] acts[i] is CommonCore ==> t.decided() && !s.decided(),
{
    let first = event_actions(s, e);
    let c1 = event_certs(s, e);
    let v1 = event_votes(s, e);
    let d1 = event_decided(s, e);
    let p: int = if c1.len() >= s.spec_ft() + 1 { 1 } else { 0 };
    let rest = acts.subrange(first.len() + p, acts.len() as int);
    assert forall|i: int| 0 <= i < acts.len() && #[trigger] acts[i] is CommonCore implies {
        &&& t.decided() && !s.decided()
        &&& (i < first.len() ==> i == 0 && first.len() == 1 && d1)
        &&& (i >= first.len() ==> i == first.len() + p && !d1)
    } by {
        if i < first.len() {
            assert(acts.subrange(0, first.len() as int)[i] == acts[i]);
        } else if i >= first.len() + p {
            assert(rest[i - first.len() - p] == acts[i]);
        } else {
            assert(acts[first.len() as int] == acts[i]);
        }
    }
}

/// In a run, a decided state stays decided.
proof fn lemma_decided_persists(states: Seq<InitBFT>, events: Seq<InitEvent>, acts: Seq<Seq<InitAction>>, a: int, b: int)
    requires
        states.len() == events.len() + 1,
        acts.len() == events.len(),
        forall|k: int|
            0 <= k < events.len() ==> step_state(states[k], events[k], #[trigger] states[k + 1])
                && step_actions(states[k], events[k], acts[k]),
        0 <= a <= b < states.len(),
        states[a].decided(),
    ensures
        states[b].decided(),
    decreases b - a,
{
    if a < b {
        assert(step_state(states[a], events[a], states[a + 1]));
        lemma_step_common_core_unique(states[a], events[a], states[a + 1], acts[a]);
        lemma_decided_persists(states, events, acts, a + 1, b);
    }
}

/// Law: over a run of steps, the common core is
/// handed on at most once: in at most one step, at one position.
#[verifier::spinoff_prover]
pub proof fn lemma_common_core_at_most_once_in_run(
    states: Seq<InitBFT>,
    events: Seq<InitEvent>,
    acts: Seq<Seq<InitAction>>,
)
    requires
        states.len() == events.len() + 1,
        acts.len() == events.len(),
        forall|k: int|
            0 <= k < events.len() ==> step_state(states[k], events[k], #[trigger] states[k + 1])
                && step_actions(states[k], events[k], acts[k]),
    ensures
        forall|a: int, i: int, b: int, j: int|
            0 <= a < acts.len() && 0 <= b < acts.len() && 0 <= i < acts[a].len() && 0 <= j < acts[b].len()
                && #[trigger] acts[a][i] is CommonCore && #[trigger] acts[b][j] is CommonCore ==> a == b && i == j,
{
    assert forall|a: int, i: int, b: int, j: int|
        0 <= a < acts.len() && 0 <= b < acts.len() && 0 <= i < acts[a].len() && 0 <= j < acts[b].len()
            && #[trigger] acts[a][i] is CommonCore && #[trigger] acts[b][j] is CommonCore implies a == b && i == j by {
        assert(step_state(states[a], events[a], states[a + 1]));
        assert(step_state(states[b], events[b], states[b + 1]));
        lemma_step_common_core_unique(states[a], events[a], states[a + 1], acts[a]);
        lemma_step_common_core_unique(states[b], events[b], states[b + 1], acts[b]);
        if a < b {
            lemma_decided_persists(states, events, acts, a + 1, b);
        } else if b < a {
            lemma_decided_persists(states, events, acts, b + 1, a);
        }
    }
}

/// Every held vote is for a set of valid certificates.
pub open spec fn votes_valid(s: InitBFT) -> bool {
    forall|i: int| 0 <= i < s.votes().len() ==> all_valid((#[trigger] s.votes()[i]).1.0@, s.spec_quorum())
}

/// The votes kept for a set are among the votes.
proof fn lemma_votes_for_among(votes: Seq<VoteEntry>, cs: Seq<BreezeCertificate>, len: int)
    requires
        0 <= len <= votes.len(),
    ensures
        forall|k: int|
            0 <= k < votes_for(votes, cs, len).len() ==> exists|j: int|
                0 <= j < len && #[trigger] votes_for(votes, cs, len)[k] == votes[j],
    decreases len,
{
    if len > 0 {
        lemma_votes_for_among(votes, cs, len - 1);
        let prev = votes_for(votes, cs, len - 1);
        assert forall|k: int|
            0 <= k < votes_for(votes, cs, len).len() implies exists|j: int|
                0 <= j < len && #[trigger] votes_for(votes, cs, len)[k] == votes[j] by {
            if k < prev.len() {
                let j = choose|j: int| 0 <= j < len - 1 && #[trigger] prev[k] == votes[j];
                assert(votes_for(votes, cs, len)[k] == votes[j]);
            } else {
                assert(votes_for(votes, cs, len)[k] == votes[len - 1]);
            }
        }
    }
}

/// A copy of valid certificates is valid.
proof fn lemma_copy_valid(a: Seq<BreezeCertificate>, b: Seq<BreezeCertificate>, q: usize)
    requires
        certs_copy(a, b),
        all_valid(a, q),
    ensures
        all_valid(b, q),
{
    assert forall|i: int| 0 <= i < b.len() implies (#[trigger] b[i]).spec_valid(q) by {
        assert(cert_copy(a[i], b[i]));
        assert(a[i].spec_valid(q));
        assert forall|k: int| 0 <= k < b[i].certificates@.len() implies spec_verify(
            (#[trigger] b[i].certificates@[k]).1@,
            b[i].c.0@,
            b[i].certificates@[k].0@,
        ) by {
            assert(vote_view(b[i].certificates@[k]) == vote_view(a[i].certificates@[k]));
            assert(spec_verify(a[i].certificates@[k].1@, a[i].c.0@, a[i].certificates@[k].0@));
        }
    }
}

/// The votes after an event are for valid certificates when those before
/// were: an accepted vote is.
proof fn lemma_event_votes_valid(s: InitBFT, e: InitEvent)
    requires
        votes_valid(s),
    ensures
        forall|i: int| 0 <= i < event_votes(s, e).len() ==> all_valid((#[trigger] event_votes(s, e)[i]).1.0@, s.spec_quorum()),
{
    let v0 = s.votes();
    match e {
        InitEvent::VoteMessage(m, enc) => {
            if vote_accepted(s, m, enc@) {
                let entry = (m.sender, m.content->Vote_0);
                assert(all_valid(entry.1.0@, s.spec_quorum()));
                lemma_voter_index_from(v0, m.sender@, 0);
                let k = voter_index(v0, m.sender@);
                let v1 = put_vote(v0, entry);
                assert forall|i: int| 0 <= i < v1.len() implies all_valid((#[trigger] v1[i]).1.0@, s.spec_quorum()) by {
                    if k >= 0 {
                        if i != k {
                            assert(v1[i] == v0[i]);
                        }
                    } else if i < v0.len() {
                        assert(v1[i] == v0[i]);
                    }
                }
            }
        },
        _ => {},
    }
}

/// Law: the held votes stay votes for valid certificates, and a common core
/// handed on holds only valid certificates (each with a quorum of distinct
/// signatures over its digest).
#[verifier::spinoff_prover]
pub proof fn lemma_common_core_valid(s: InitBFT, e: InitEvent, t: InitBFT, acts: Seq<InitAction>)
    requires
        step_state(s, e, t),
        step_actions(s, e, acts),
        s.wf(),
        votes_valid(s),
    ensures
        votes_valid(t),
        forall|i: int|
            0 <= i < acts.len() ==> (#[trigger] acts[i] matches InitAction::CommonCore(cs) ==> all_valid(
                cs@,
                s.spec_quorum(),
            )),
{
    let first = event_actions(s, e);
    let c1 = event_certs(s, e);
    let v1 = event_votes(s, e);
    let p: int = if c1.len() >= s.spec_ft() + 1 { 1 } else { 0 };
    let rest = acts.subrange(first.len() + p, acts.len() as int);
    lemma_event_votes_valid(s, e);
    if v1.len() >= s.spec_quorum() && !votes_agree(v1) {
        let cs = v1[subset_index(v1, s.spec_committee(), s.spec_pk(), s.spec_ft())].1.0@;
        lemma_votes_for_among(v1, cs, v1.len() as int);
        assert forall|i: int| 0 <= i < t.votes().len() implies all_valid((#[trigger] t.votes()[i]).1.0@, t.spec_quorum()) by {
            let j = choose|j: int| 0 <= j < v1.len() && #[trigger] votes_for(v1, cs, v1.len() as int)[i] == v1[j];
            assert(all_valid(v1[j].1.0@, s.spec_quorum()));
        }
    } else {
        assert forall|i: int| 0 <= i < t.votes().len() implies all_valid((#[trigger] t.votes()[i]).1.0@, t.spec_quorum()) by {
            assert(t.votes()[i] == v1[i]);
        }
    }
    assert forall|i: int|
        0 <= i < acts.len() implies (#[trigger] acts[i] matches InitAction::CommonCore(cs) ==> all_valid(
            cs@,
            s.spec_quorum(),
        )) by {
        if acts[i] is CommonCore {
            if i < first.len() {
                assert(acts.subrange(0, first.len() as int)[i] == acts[i]);
            } else if i >= first.len() + p {
                assert(rest[i - first.len() - p] == acts[i]);
                assert(v1.len() > 0);
                let cs = acts[i]->CommonCore_0;
                assert(all_valid(v1[0].1.0@, s.spec_quorum()));
                lemma_copy_valid(v1[0].1.0@, cs@, s.spec_quorum());
            } else {
                assert(acts[first.len() as int] == acts[i]);
            }
        }
    }
}

/// Law: two lists of certificates count as the same set exactly when every
/// certificate is in one of them if and only if it is in the other: the
/// relation is set equality, so it is symmetric, and a certificate held by
/// only one of the lists makes them differ.
pub proof fn lemma_cert_sets_eq_is_set_equality(a: Seq<BreezeCertificate>, b: Seq<BreezeCertificate>)
    ensures
        cert_sets_eq(a, b) <==> (forall|c: BreezeCertificate| cert_in(a, c) <==> cert_in(b, c)),
        cert_sets_eq(a, b) <==> cert_sets_eq(b, a),
        (exists|c: BreezeCertificate| cert_in(a, c) && !cert_in(b, c)) ==> !cert_sets_eq(a, b),
        (exists|c: BreezeCertificate| cert_in(b, c) && !cert_in(a, c)) ==> !cert_sets_eq(a, b),
{
    if cert_sets_eq(a, b) {
        assert forall|c: BreezeCertificate| cert_in(a, c) <==> cert_in(b, c) by {
            if cert_in(a, c) {
                let i = choose|i: int| 0 <= i < a.len() && (#[trigger] a[i]).spec_same(&c);
                assert(cert_in(b, a[i]));
                let j = choose|j: int| 0 <= j < b.len() && (#[trigger] b[j]).spec_same(&a[i]);
                assert(b[j].spec_same(&c));
            }
            if cert_in(b, c) {
                let j = choose|j: int| 0 <= j < b.len() && (#[trigger] b[j]).spec_same(&c);
                assert(cert_in(a, b[j]));
                let i = choose|i: int| 0 <= i < a.len() && (#[trigger] a[i]).spec_same(&b[j]);
                assert(a[i].spec_same(&c));
            }
        }
    }
    if forall|c: BreezeCertificate| cert_in(a, c) <==> cert_in(b, c) {
        assert forall|i: int| 0 <= i < a.len() implies cert_in(b, #[trigger] a[i]) by {
            assert(a[i].spec_same(&a[i]));
            assert(cert_in(a, a[i]));
        }
        assert forall|j: int| 0 <= j < b.len() implies cert_in(a, #[trigger] b[j]) by {
            assert(b[j].spec_same(&b[j]));
            assert(cert_in(b, b[j]));
        }
    }
}

/// Law: the votes agree (so `find_result` decides) exactly when every voter
/// voted for a list holding the same certificates as the first voter's.
pub proof fn lemma_votes_agree_same_members(map: Seq<VoteEntry>)
    ensures
        votes_agree(map) <==> (forall|i: int, c: BreezeCertificate|
            #![trigger cert_in(map[i].1.0@, c)]
            0 <= i < map.len() ==> (cert_in(map[i].1.0@, c) <==> cert_in(map[0].1.0@, c))),
{
    assert forall|i: int| 0 <= i < map.len() implies (cert_sets_eq((#[trigger] map[i]).1.0@, map[0].1.0@) <==> (forall|c: BreezeCertificate|
        cert_in(map[i].1.0@, c) <==> cert_in(map[0].1.0@, c))) by {
        lemma_cert_sets_eq_is_set_equality(map[i].1.0@, map[0].1.0@);
    }
}

} // verus!
