//! Reconstruction of beacon values: shares sent for a slot are checked
//! against the dealers' Merkle roots (or kept until the roots are known),
//! and once, for a requested slot, exactly the requested dealers have
//! enough checked shares, the slot is reconstructed by interpolation.
//!
//! The state is changed by four operations: a request for a slot, a message
//! of shares, news of Merkle roots, and the reconciliation that answers the
//! requests that became ready.

use vstd::prelude::*;
use crate::assoc::{key_index_from, keys_distinct, lemma_key_index_from, put_keyed};
use crate::breeze_reconstruct_dealer::{
    BreezeReconResult, column, column_count, ids_mod, interpolation_points_ok, is_rectangular, small_modulus,
    spec_gcd, spec_lagrange_at_zero, spec_secret_to_number,
};
use crate::breeze_reply::{find_roots, roots_index};
use crate::breeze_share_dealer::Shares;
use crate::config::{Committee, index_of, lemma_index_of_bounds};
use crate::crypto::{Digest, PublicKey, bytes_eq};
use crate::model::{BreezeContent, BreezeMessage, ReconstructShare, SingleShare};
use crate::types_and_const::{Epoch, Id, RandomNum, ZqMod};

verus! {

/// A share checked against its dealer's roots: slot, dealer digest, sender
/// and the evaluations.
pub type Verified = (Epoch, usize, Digest, PublicKey, Vec<ZqMod>);

/// A share kept until its dealer's roots are known.
pub type Pending = (Epoch, usize, Digest, PublicKey, SingleShare);

/// A request: the dealers' digests to reconstruct from, and the slot.
pub type Request = (Vec<Digest>, Epoch, usize);

/// Key of a stored share: slot, dealer digest and sender, as plain values.
pub type ShareKey = (Epoch, usize, Seq<u8>, Seq<u8>);

/// A shared secret for reconstruction, as plain values.
pub type SingleView = (Seq<u8>, Seq<u8>, Seq<ZqMod>, usize, Seq<Seq<u8>>, usize);

/// The plain values of a share for reconstruction.
pub open spec fn single_view(ss: SingleShare) -> SingleView {
    (
        ss.dealer@,
        ss.c.0@,
        ss.y@,
        ss.merkle_proof.0,
        ss.merkle_proof.1@.map_values(|p: Vec<u8>| p@),
        ss.total_party_num,
    )
}

/// A checked share as (key, evaluations).
pub open spec fn verified_view(x: Verified) -> (ShareKey, Seq<ZqMod>) {
    ((x.0, x.1, x.2.0@, x.3@), x.4@)
}

/// A kept share as (key, share).
pub open spec fn pending_view(x: Pending) -> (ShareKey, SingleView) {
    ((x.0, x.1, x.2.0@, x.3@), single_view(x.4))
}

/// A request as (digests, epoch, index).
pub open spec fn request_view(r: Request) -> (Seq<Seq<u8>>, Epoch, usize) {
    (r.0@.map_values(|d: Digest| d.0@), r.1, r.2)
}

/// The share's Merkle proofs can be checked against `g` roots and all
/// parse (what the check looks at).
pub open spec fn merkle_ok(ss: SingleView, g: usize) -> bool {
    &&& ss.4.len() == g
    &&& ss.2.len() == g
    &&& forall|i: int| 0 <= i < g ==> (#[trigger] ss.4[i]).len() % 32 == 0
}

/// Any two distinct ids of the committee differ by an invertible residue.
pub open spec fn ids_invertible(n: int, q: int) -> bool {
    forall|a: int, b: int| 1 <= a <= n && 1 <= b <= n && a != b ==> #[trigger] id_diff_ok(a, b, q)
}

/// The difference of the residues of two ids is invertible modulo `q`.
pub open spec fn id_diff_ok(a: int, b: int, q: int) -> bool {
    spec_gcd(((a % q) + q - (b % q)) % q, q) == 1
}

/// State of the reconstruction of one party.
pub struct BreezeResult {
    committee: Committee,
    threshold: usize,
    q: ZqMod,
    g: usize,
    max_index: usize,
    requests: Vec<Request>,
    verified: Vec<Verified>,
    unverified: Vec<Pending>,
    reconstructed: Vec<(Epoch, usize)>,
}

impl BreezeResult {
    /// The committee.
    pub closed spec fn spec_committee(&self) -> Committee {
        self.committee
    }

    /// Checked shares needed per dealer: `f + 1`.
    pub closed spec fn spec_threshold(&self) -> usize {
        self.threshold
    }

    /// The modulus.
    pub closed spec fn spec_q(&self) -> ZqMod {
        self.q
    }

    /// Evaluations per slot.
    pub closed spec fn spec_g(&self) -> usize {
        self.g
    }

    /// The highest slot index taken.
    pub closed spec fn spec_max_index(&self) -> usize {
        self.max_index
    }

    /// The pending requests.
    pub closed spec fn requests_list(&self) -> Seq<(Seq<Seq<u8>>, Epoch, usize)> {
        self.requests@.map_values(|r: Request| request_view(r))
    }

    /// The checked shares.
    pub closed spec fn verified_list(&self) -> Seq<(ShareKey, Seq<ZqMod>)> {
        self.verified@.map_values(|x: Verified| verified_view(x))
    }

    /// The shares waiting for roots.
    pub closed spec fn pending_list(&self) -> Seq<(ShareKey, SingleView)> {
        self.unverified@.map_values(|x: Pending| pending_view(x))
    }

    /// The slots reconstructed.
    pub closed spec fn reconstructed_list(&self) -> Seq<(Epoch, usize)> {
        self.reconstructed@
    }

    /// The parameters are those of `other`.
    pub closed spec fn same_params(&self, other: &BreezeResult) -> bool {
        &&& self.committee == other.committee
        &&& self.threshold == other.threshold
        &&& self.q == other.q
        &&& self.g == other.g
        &&& self.max_index == other.max_index
    }

    /// The invariant: keys occur once; checked evaluations are `g` residues
    /// sent by committee members; the parameters allow interpolation.
    pub open spec fn wf(&self) -> bool {
        &&& keys_distinct(self.verified_list())
        &&& keys_distinct(self.pending_list())
        &&& forall|k: int| 0 <= k < self.verified_list().len() ==> verified_entry_ok(
            #[trigger] self.verified_list()[k],
            self.spec_g(),
            self.spec_q(),
            self.spec_committee(),
        )
        &&& small_modulus(self.spec_q())
        &&& self.spec_threshold() >= 1
        &&& self.spec_committee().authorities@.len() < self.spec_q()
        &&& self.spec_committee().authorities@.len() <= usize::MAX
        &&& ids_invertible(self.spec_committee().authorities@.len() as int, self.spec_q() as int)
    }

    /// A reconstruction with nothing received; `max_index` is the highest
    /// slot index of an epoch.
    pub fn new(committee: Committee, q: ZqMod, g: usize, max_index: usize) -> (s: Self)
        requires
            committee.authorities@.len() >= 1,
            small_modulus(q),
            committee.authorities@.len() < q,
            ids_invertible(committee.authorities@.len() as int, q as int),
        ensures
            s.wf(),
            s.spec_committee() == committee,
            s.spec_threshold() == (committee.authorities@.len() - 1) / 3 + 1,
            s.spec_q() == q,
            s.spec_g() == g,
            s.spec_max_index() == max_index,
            s.requests_list().len() == 0,
            s.verified_list().len() == 0,
            s.pending_list().len() == 0,
            s.reconstructed_list().len() == 0,
    {
        let _n = committee.size();
        let threshold = committee.authorities_fault_tolerance() + 1;
        let s = BreezeResult {
            committee,
            threshold,
            q,
            g,
            max_index,
            requests: Vec::new(),
            verified: Vec::new(),
            unverified: Vec::new(),
            reconstructed: Vec::new(),
        };
        assert(s.verified_list() =~= Seq::empty());
        assert(s.pending_list() =~= Seq::empty());
        assert(s.requests_list() =~= Seq::empty());
        s
    }
}

/// A checked share: `g` residues, sent by a committee member.
pub open spec fn verified_entry_ok(x: (ShareKey, Seq<ZqMod>), g: usize, q: ZqMod, committee: Committee) -> bool {
    &&& x.1.len() == g
    &&& forall|j: int| 0 <= j < g ==> (#[trigger] x.1[j]) < q
    &&& index_of(committee.authorities@, x.0.3) >= 0
}

/// A request for the slot is pending.
pub open spec fn request_held(reqs: Seq<(Seq<Seq<u8>>, Epoch, usize)>, e: Epoch, i: usize) -> bool {
    exists|j: int| 0 <= j < reqs.len() && (#[trigger] reqs[j]).1 == e && reqs[j].2 == i
}

/// Folds the secrets of a message of shares from `sender` for slot
/// `(e, i)` into the checked and the kept shares: a secret whose dealer's
/// roots are known is checked (and dropped when the check fails); the others
/// are kept.  The flag says whether a checked share was stored.
pub open spec fn share_fold(
    vs: Seq<(ShareKey, Seq<ZqMod>)>,
    ps: Seq<(ShareKey, SingleView)>,
    secrets: Seq<SingleView>,
    e: Epoch,
    i: usize,
    sender: Seq<u8>,
    roots: Seq<(Epoch, PublicKey, Vec<Digest>)>,
    g: usize,
    n: int,
) -> (Seq<(ShareKey, Seq<ZqMod>)>, Seq<(ShareKey, SingleView)>, bool)
    decreases n,
{
    if n <= 0 {
        (vs, ps, false)
    } else {
        let prev = share_fold(vs, ps, secrets, e, i, sender, roots, g, n - 1);
        let ss = secrets[n - 1];
        let k = (e, i, ss.1, sender);
        if find_roots(roots, e, ss.0) is Some {
            if merkle_ok(ss, g) {
                (put_keyed(prev.0, k, ss.2), prev.1, true)
            } else {
                prev
            }
        } else {
            (prev.0, put_keyed(prev.1, k, ss), prev.2)
        }
    }
}

/// Checking the secret for slot index `i` does not abort, and a secret
/// that passes is made of residues from a committee member.
pub open spec fn secret_ok(
    ss: SingleView,
    e: Epoch,
    i: usize,
    sender: Seq<u8>,
    roots: Seq<(Epoch, PublicKey, Vec<Digest>)>,
    g: usize,
    q: ZqMod,
    committee: Committee,
) -> bool {
    find_roots(roots, e, ss.0) matches Some(rs) ==> {
        &&& i >= 1
        &&& (i - 1) * g + g <= rs.len()
        &&& merkle_ok(ss, g) ==> (forall|j: int| 0 <= j < g ==> (#[trigger] ss.2[j]) < q) && index_of(
            committee.authorities@,
            sender,
        ) >= 0
    }
}

/// A copy of `v[from..to]`.
fn copy_range(v: &Vec<Digest>, from: usize, to: usize) -> (r: Vec<Digest>)
    requires
        from <= to <= v@.len(),
    ensures
        r@ == v@.subrange(from as int, to as int),
{
    let mut r: Vec<Digest> = Vec::new();
    let mut k: usize = from;
    while k < to
        invariant
            from <= k <= to,
            to <= v@.len(),
            r@ == v@.subrange(from as int, k as int),
        decreases to - k,
    {
        r.push(v[k]);
        proof {
            assert(r@ =~= v@.subrange(from as int, k + 1));
        }
        k = k + 1;
    }
    r
}

impl BreezeResult {
    /// A request for a slot: kept unless the slot was reconstructed or a
    /// request for it is pending.
    pub fn on_request(&mut self, digests: Vec<Digest>, epoch: Epoch, index: usize)
        ensures
            final(self).requests_list() == if old(self).reconstructed_list().contains((epoch, index))
                || request_held(old(self).requests_list(), epoch, index) {
                old(self).requests_list()
            } else {
                old(self).requests_list().push(request_view((digests, epoch, index)))
            },
            final(self).verified_list() == old(self).verified_list(),
            final(self).pending_list() == old(self).pending_list(),
            final(self).reconstructed_list() == old(self).reconstructed_list(),
            final(self).same_params(old(self)),
    {
        let mut k: usize = 0;
        while k < self.reconstructed.len()
            invariant
                k <= self.reconstructed@.len(),
                forall|j: int| 0 <= j < k ==> self.reconstructed@[j] != (epoch, index),
            decreases self.reconstructed.len() - k,
        {
            if self.reconstructed[k].0 == epoch && self.reconstructed[k].1 == index {
                proof {
                    assert(self.reconstructed_list()[k as int] == (epoch, index));
                }
                return;
            }
            k = k + 1;
        }
        let ghost reqs = self.requests_list();
        let mut j: usize = 0;
        while j < self.requests.len()
            invariant
                j <= self.requests@.len(),
                reqs == self.requests_list(),
                forall|x: int| 0 <= x < j ==> !((#[trigger] reqs[x]).1 == epoch && reqs[x].2 == index),
            decreases self.requests.len() - j,
        {
            if self.requests[j].1 == epoch && self.requests[j].2 == index {
                proof {
                    assert(reqs[j as int].1 == epoch && reqs[j as int].2 == index);
                }
                return;
            }
            j = j + 1;
        }
        let ghost before = self.requests@;
        self.requests.push((digests, epoch, index));
        proof {
            assert(self.requests_list() =~= reqs.push(request_view((digests, epoch, index)))) by {
                assert(before.map_values(|r: Request| request_view(r)).len() == before.len());
                assert(reqs =~= before.map_values(|r: Request| request_view(r)));
            }
            if request_held(reqs, epoch, index) {
                let x = choose|x: int| 0 <= x < reqs.len() && (#[trigger] reqs[x]).1 == epoch && reqs[x].2 == index;
                assert(false);
            }
        }
    }

    /// Position of the checked share under the key, if any.
    fn verified_pos(&self, e: Epoch, i: usize, c: &Digest, pk: &PublicKey) -> (r: Option<usize>)
        ensures
            r matches Some(j) ==> j as int == key_index_from(self.verified_list(), (e, i, c.0@, pk@), 0),
            r is None ==> key_index_from(self.verified_list(), (e, i, c.0@, pk@), 0) < 0,
    {
        let ghost vs = self.verified_list();
        let ghost k = (e, i, c.0@, pk@);
        let mut j: usize = 0;
        while j < self.verified.len()
            invariant
                j <= self.verified@.len(),
                vs == self.verified_list(),
                vs.len() == self.verified@.len(),
                k == (e, i, c.0@, pk@),
                key_index_from(vs, k, 0) == key_index_from(vs, k, j as int),
            decreases self.verified.len() - j,
        {
            let x = &self.verified[j];
            assert(vs[j as int] == verified_view(self.verified@[j as int]));
            if x.0 == e && x.1 == i && x.2.same(c) && x.3.same(pk) {
                return Some(j);
            }
            j = j + 1;
        }
        None
    }

    /// Stores the evaluations under the key, replacing what it held.
    fn put_verified(&mut self, e: Epoch, i: usize, c: Digest, pk: PublicKey, y: Vec<ZqMod>)
        requires
            keys_distinct(old(self).verified_list()),
        ensures
            keys_distinct(final(self).verified_list()),
            final(self).verified_list() == put_keyed(old(self).verified_list(), (e, i, c.0@, pk@), y@),
            final(self).unverified == old(self).unverified,
            final(self).requests == old(self).requests,
            final(self).reconstructed == old(self).reconstructed,
            final(self).committee == old(self).committee,
            final(self).threshold == old(self).threshold,
            final(self).q == old(self).q,
            final(self).g == old(self).g,
            final(self).max_index == old(self).max_index,
    {
        let ghost vs = self.verified_list();
        let ghost before = self.verified@;
        let ghost k = (e, i, c.0@, pk@);
        proof {
            crate::assoc::lemma_put_keyed(vs, k, y@);
            lemma_key_index_from(vs, k, 0);
        }
        match self.verified_pos(e, i, &c, &pk) {
            Some(j) => {
                self.verified.set(j, (e, i, c, pk, y));
                proof {
                    assert(self.verified_list() =~= vs.update(j as int, (k, y@)));
                }
            },
            None => {
                self.verified.push((e, i, c, pk, y));
                proof {
                    assert(self.verified_list() =~= vs.push((k, y@)));
                }
            },
        }
    }

    /// Position of the kept share under the key, if any.
    fn pending_pos(&self, e: Epoch, i: usize, c: &Digest, pk: &PublicKey) -> (r: Option<usize>)
        ensures
            r matches Some(j) ==> j as int == key_index_from(self.pending_list(), (e, i, c.0@, pk@), 0),
            r is None ==> key_index_from(self.pending_list(), (e, i, c.0@, pk@), 0) < 0,
    {
        let ghost ps = self.pending_list();
        let ghost k = (e, i, c.0@, pk@);
        let mut j: usize = 0;
        while j < self.unverified.len()
            invariant
                j <= self.unverified@.len(),
                ps == self.pending_list(),
                ps.len() == self.unverified@.len(),
                k == (e, i, c.0@, pk@),
                key_index_from(ps, k, 0) == key_index_from(ps, k, j as int),
            decreases self.unverified.len() - j,
        {
            let x = &self.unverified[j];
            assert(ps[j as int] == pending_view(self.unverified@[j as int]));
            if x.0 == e && x.1 == i && x.2.same(c) && x.3.same(pk) {
                return Some(j);
            }
            j = j + 1;
        }
        None
    }

    /// Keeps the share under the key, replacing what it held.
    fn put_pending(&mut self, e: Epoch, i: usize, c: Digest, pk: PublicKey, ss: SingleShare)
        requires
            keys_distinct(old(self).pending_list()),
        ensures
            keys_distinct(final(self).pending_list()),
            final(self).pending_list() == put_keyed(old(self).pending_list(), (e, i, c.0@, pk@), single_view(ss)),
            final(self).verified == old(self).verified,
            final(self).requests == old(self).requests,
            final(self).reconstructed == old(self).reconstructed,
            final(self).committee == old(self).committee,
            final(self).threshold == old(self).threshold,
            final(self).q == old(self).q,
            final(self).g == old(self).g,
            final(self).max_index == old(self).max_index,
    {
        let ghost ps = self.pending_list();
        let ghost k = (e, i, c.0@, pk@);
        let ghost sv = single_view(ss);
        proof {
            crate::assoc::lemma_put_keyed(ps, k, sv);
            lemma_key_index_from(ps, k, 0);
        }
        match self.pending_pos(e, i, &c, &pk) {
            Some(j) => {
                self.unverified.set(j, (e, i, c, pk, ss));
                proof {
                    assert(self.pending_list() =~= ps.update(j as int, (k, sv)));
                }
            },
            None => {
                self.unverified.push((e, i, c, pk, ss));
                proof {
                    assert(self.pending_list() =~= ps.push((k, sv)));
                }
            },
        }
    }
}

/// Each entry after storing under a key is the new one or the entry that
/// stood there before.
pub proof fn lemma_put_keyed_entries<K, V>(s: Seq<(K, V)>, k: K, v: V)
    ensures
        forall|x: int|
            0 <= x < put_keyed(s, k, v).len() ==> #[trigger] put_keyed(s, k, v)[x] == (k, v) || (x < s.len()
                && put_keyed(s, k, v)[x] == s[x]),
{
    lemma_key_index_from(s, k, 0);
}

/// A message of shares within the slot range.
pub open spec fn share_accepted(s: BreezeResult, m: BreezeMessage) -> bool {
    m.content matches BreezeContent::Reconstruct(sh) && sh.index <= s.spec_max_index()
}

/// The checked shares, the kept shares and whether a checked share was
/// stored, after a message of shares.
pub open spec fn share_outcome(
    s: BreezeResult,
    m: BreezeMessage,
    roots: Seq<(Epoch, PublicKey, Vec<Digest>)>,
) -> (Seq<(ShareKey, Seq<ZqMod>)>, Seq<(ShareKey, SingleView)>, bool) {
    if share_accepted(s, m) {
        let sh = m.content->Reconstruct_0;
        share_fold(
            s.verified_list(),
            s.pending_list(),
            sh.secrets@.map_values(|x: SingleShare| single_view(x)),
            sh.epoch,
            sh.index,
            m.sender@,
            roots,
            s.spec_g(),
            sh.secrets@.len() as int,
        )
    } else {
        (s.verified_list(), s.pending_list(), false)
    }
}

/// Checking the secrets of the message does not abort and those that pass
/// are residues from a committee member.
pub open spec fn share_message_ok(s: BreezeResult, m: BreezeMessage, roots: Seq<(Epoch, PublicKey, Vec<Digest>)>) -> bool {
    share_accepted(s, m) ==> {
        let sh = m.content->Reconstruct_0;
        forall|j: int|
            0 <= j < sh.secrets@.len() ==> secret_ok(
                single_view(#[trigger] sh.secrets@[j]),
                sh.epoch,
                sh.index,
                m.sender@,
                roots,
                s.spec_g(),
                s.spec_q(),
                s.spec_committee(),
            )
    }
}

impl BreezeResult {
    /// A message of shares: within the slot range, each secret whose
    /// dealer's roots are known is checked and stored when it passes, and
    /// each other secret is kept for later.  Says whether a checked share
    /// was stored.
    pub fn on_share_message(&mut self, m: BreezeMessage, roots: &Vec<(Epoch, PublicKey, Vec<Digest>)>) -> (changed: bool)
        requires
            old(self).wf(),
            share_message_ok(*old(self), m, roots@),
        ensures
            final(self).wf(),
            (final(self).verified_list(), final(self).pending_list(), changed) == share_outcome(*old(self), m, roots@),
            final(self).requests_list() == old(self).requests_list(),
            final(self).reconstructed_list() == old(self).reconstructed_list(),
            final(self).same_params(old(self)),
    {
        let ghost s0 = *old(self);
        let sender = m.sender;
        let share = match m.content {
            BreezeContent::Reconstruct(share) => share,
            _ => {
                return false;
            },
        };
        if share.index > self.max_index {
            return false;
        }
        let ReconstructShare { mut secrets, epoch, index } = share;
        let ghost orig = secrets@;
        let ghost views = orig.map_values(|x: SingleShare| single_view(x));
        let total = secrets.len();
        let mut changed = false;
        let mut n: usize = 0;
        while n < total
            invariant
                n <= total,
                total == orig.len(),
                views == orig.map_values(|x: SingleShare| single_view(x)),
                secrets@ == orig.subrange(n as int, total as int),
                forall|j: int|
                    0 <= j < orig.len() ==> secret_ok(
                        single_view(#[trigger] orig[j]),
                        epoch,
                        index,
                        sender@,
                        roots@,
                        self.g,
                        self.q,
                        self.committee,
                    ),
                (self.verified_list(), self.pending_list(), changed) == share_fold(
                    s0.verified_list(),
                    s0.pending_list(),
                    views,
                    epoch,
                    index,
                    sender@,
                    roots@,
                    s0.spec_g(),
                    n as int,
                ),
                self.wf(),
                self.same_params(&s0),
                self.requests == s0.requests,
                self.reconstructed == s0.reconstructed,
            decreases total - n,
        {
            let ss = secrets.remove(0);
            assert(ss == orig[n as int]);
            assert(views[n as int] == single_view(ss));
            assert(secret_ok(single_view(ss), epoch, index, sender@, roots@, self.g, self.q, self.committee));
            let ghost vs = self.verified_list();
            let ghost ps = self.pending_list();
            match roots_index(roots, epoch, &ss.dealer) {
                Some(ri) => {
                    let rs = &roots[ri].2;
                    let rl = rs.len();
                    assert(find_roots(roots@, epoch, ss.dealer@) == Some(rs@));
                    assert(index >= 1 && (index - 1) * self.g + self.g <= rl);
                    let from = (index - 1) * self.g;
                    let to = from + self.g;
                    let root = copy_range(rs, from, to);
                    let SingleShare { dealer, c, y, merkle_proof, total_party_num } = ss;
                    let ghost proof_seq = merkle_proof.1@;
                    let ghost proof_view = proof_seq.map_values(|p: Vec<u8>| p@);
                    assert(views[n as int].4 == proof_view);
                    let ghost yv = y@;
                    assert(views[n as int].2 == yv);
                    if Shares::verify_merkle(&y, merkle_proof, root, total_party_num) {
                        proof {
                            lemma_put_keyed_entries(vs, (epoch, index, c.0@, sender@), y@);
                            assert(merkle_ok(views[n as int], self.g)) by {
                                assert forall|x: int| 0 <= x < self.g implies (#[trigger] views[n as int].4[x]).len()
                                    % 32 == 0 by {
                                    assert(proof_view[x] == proof_seq[x]@);
                                }
                            }
                            assert(verified_entry_ok(((epoch, index, c.0@, sender@), yv), self.g, self.q, self.committee));
                        }
                        self.put_verified(epoch, index, c, sender, y);
                        changed = true;
                        proof {
                            let nv = self.verified_list();
                            assert forall|k: int| 0 <= k < nv.len() implies verified_entry_ok(
                                #[trigger] nv[k],
                                self.spec_g(),
                                self.spec_q(),
                                self.spec_committee(),
                            ) by {
                                if nv[k] != (((epoch, index, c.0@, sender@), y@)) {
                                    assert(nv[k] == vs[k]);
                                }
                            }
                        }
                    } else {
                        proof {
                            if merkle_ok(views[n as int], self.g) {
                                assert forall|i: int| 0 <= i < root@.len() implies (#[trigger] proof_seq[i])@.len() % 32
                                    == 0 by {
                                    assert(proof_view[i] == proof_seq[i]@);
                                }
                            }
                        }
                    }
                },
                None => {
                    let c = ss.c;
                    self.put_pending(epoch, index, c, sender, ss);
                },
            }
            proof {
                assert(orig.subrange(n as int, total as int).drop_first() =~= orig.subrange(n + 1, total as int));
            }
            n = n + 1;
        }
        changed
    }
}

/// Folds the kept shares, in order, into the checked shares once their
/// dealers' roots are known: each one whose check passes is stored (and
/// still kept).  The flag says whether a checked share was stored.
pub open spec fn roots_fold(
    vs: Seq<(ShareKey, Seq<ZqMod>)>,
    ps: Seq<(ShareKey, SingleView)>,
    roots: Seq<(Epoch, PublicKey, Vec<Digest>)>,
    g: usize,
    n: int,
) -> (Seq<(ShareKey, Seq<ZqMod>)>, bool)
    decreases n,
{
    if n <= 0 {
        (vs, false)
    } else {
        let prev = roots_fold(vs, ps, roots, g, n - 1);
        let p = ps[n - 1];
        if find_roots(roots, p.0.0, p.1.0) is Some && merkle_ok(p.1, g) {
            (put_keyed(prev.0, p.0, p.1.2), true)
        } else {
            prev
        }
    }
}

/// Checking the kept shares against the roots does not abort and those
/// that pass are residues from committee members.
pub open spec fn roots_ok(s: BreezeResult, roots: Seq<(Epoch, PublicKey, Vec<Digest>)>) -> bool {
    forall|j: int|
        0 <= j < s.pending_list().len() ==> {
            let p = #[trigger] s.pending_list()[j];
            secret_ok(p.1, p.0.0, p.0.1, p.0.3, roots, s.spec_g(), s.spec_q(), s.spec_committee())
        }
}

/// A copy of Merkle proofs.
fn clone_proof(p: &(usize, Vec<Vec<u8>>)) -> (r: (usize, Vec<Vec<u8>>))
    ensures
        r.0 == p.0,
        r.1@.len() == p.1@.len(),
        forall|i: int| 0 <= i < p.1@.len() ==> (#[trigger] r.1@[i])@ == p.1@[i]@,
{
    let mut out: Vec<Vec<u8>> = Vec::new();
    let mut i: usize = 0;
    while i < p.1.len()
        invariant
            i <= p.1@.len(),
            out@.len() == i,
            forall|k: int| 0 <= k < i ==> (#[trigger] out@[k])@ == p.1@[k]@,
        decreases p.1.len() - i,
    {
        out.push(p.1[i].clone());
        i = i + 1;
    }
    (p.0, out)
}

impl BreezeResult {
    /// News of Merkle roots: every kept share whose dealer's roots are now
    /// known and whose check passes is stored as checked (and still kept).
    /// Says whether a checked share was stored.
    pub fn on_roots(&mut self, roots: &Vec<(Epoch, PublicKey, Vec<Digest>)>) -> (changed: bool)
        requires
            old(self).wf(),
            roots_ok(*old(self), roots@),
        ensures
            final(self).wf(),
            (final(self).verified_list(), changed) == roots_fold(
                old(self).verified_list(),
                old(self).pending_list(),
                roots@,
                old(self).spec_g(),
                old(self).pending_list().len() as int,
            ),
            final(self).pending_list() == old(self).pending_list(),
            final(self).requests_list() == old(self).requests_list(),
            final(self).reconstructed_list() == old(self).reconstructed_list(),
            final(self).same_params(old(self)),
    {
        let ghost s0 = *old(self);
        let ghost ps = s0.pending_list();
        let mut changed = false;
        let mut j: usize = 0;
        while j < self.unverified.len()
            invariant
                j <= self.unverified@.len(),
                ps == self.pending_list(),
                ps.len() == self.unverified@.len(),
                roots_ok(*self, roots@),
                (self.verified_list(), changed) == roots_fold(s0.verified_list(), ps, roots@, s0.spec_g(), j as int),
                self.wf(),
                self.same_params(&s0),
                self.unverified == s0.unverified,
                self.requests == s0.requests,
                self.reconstructed == s0.reconstructed,
            decreases self.unverified.len() - j,
        {
            let ghost p = ps[j as int];
            assert(p == pending_view(self.unverified@[j as int]));
            assert(secret_ok(p.1, p.0.0, p.0.1, p.0.3, roots@, self.g, self.q, self.committee));
            let e = self.unverified[j].0;
            let i = self.unverified[j].1;
            let c = self.unverified[j].2;
            let pk = self.unverified[j].3;
            match roots_index(roots, e, &self.unverified[j].4.dealer) {
                Some(ri) => {
                    let rs = &roots[ri].2;
                    let rl = rs.len();
                    assert(index_of(self.committee.authorities@, p.0.3) >= 0 || !merkle_ok(p.1, self.g));
                    assert(i >= 1 && (i - 1) * self.g + self.g <= rl);
                    let from = (i - 1) * self.g;
                    let to = from + self.g;
                    let root = copy_range(rs, from, to);
                    let y = self.unverified[j].4.y.clone();
                    let proof_copy = clone_proof(&self.unverified[j].4.merkle_proof);
                    let total = self.unverified[j].4.total_party_num;
                    let ghost proof_seq = proof_copy.1@;
                    if Shares::verify_merkle(&y, proof_copy, root, total) {
                        let ghost vs = self.verified_list();
                        proof {
                            assert(y@ =~= p.1.2);
                            lemma_put_keyed_entries(vs, p.0, y@);
                            assert forall|x: int| 0 <= x < self.g implies (#[trigger] p.1.4[x]).len() % 32 == 0 by {
                                assert(p.1.4[x] == proof_seq[x]@);
                            }
                        }
                        self.put_verified(e, i, c, pk, y);
                        changed = true;
                        proof {
                            let nv = self.verified_list();
                            assert forall|k: int| 0 <= k < nv.len() implies verified_entry_ok(
                                #[trigger] nv[k],
                                self.spec_g(),
                                self.spec_q(),
                                self.spec_committee(),
                            ) by {
                                if nv[k] != (p.0, p.1.2) {
                                    assert(nv[k] == vs[k]);
                                }
                            }
                        }
                    } else {
                        proof {
                            if merkle_ok(p.1, self.g) {
                                assert forall|x: int| 0 <= x < root@.len() implies (#[trigger] proof_seq[x])@.len() % 32
                                    == 0 by {
                                    assert(p.1.4[x] == self.unverified@[j as int].4.merkle_proof.1@[x]@);
                                }
                            }
                        }
                    }
                },
                None => {},
            }
            j = j + 1;
        }
        changed
    }
}

/// The number of checked shares for dealer digest `c` of slot `(e, i)`
/// among the first `len`.
pub open spec fn count_shares(vs: Seq<(ShareKey, Seq<ZqMod>)>, e: Epoch, i: usize, c: Seq<u8>, len: int) -> nat
    decreases len,
{
    if len <= 0 {
        0
    } else {
        count_shares(vs, e, i, c, len - 1) + if vs[len - 1].0.0 == e && vs[len - 1].0.1 == i && vs[len
            - 1].0.2 == c {
            1nat
        } else {
            0nat
        }
    }
}

/// The dealer digests of slot `(e, i)` with at least `t` checked shares,
/// among the first `len` entries, in order of first occurrence.
pub open spec fn ready_from(vs: Seq<(ShareKey, Seq<ZqMod>)>, e: Epoch, i: usize, t: usize, len: int) -> Seq<Seq<u8>>
    decreases len,
{
    if len <= 0 {
        Seq::empty()
    } else {
        let prev = ready_from(vs, e, i, t, len - 1);
        let x = vs[len - 1];
        if x.0.0 == e && x.0.1 == i && count_shares(vs, e, i, x.0.2, vs.len() as int) >= t
            && !prev.contains(x.0.2) {
            prev.push(x.0.2)
        } else {
            prev
        }
    }
}

/// The dealer digests of slot `(e, i)` with at least `t` checked shares.
pub open spec fn ready_digests(vs: Seq<(ShareKey, Seq<ZqMod>)>, e: Epoch, i: usize, t: usize) -> Seq<Seq<u8>> {
    ready_from(vs, e, i, t, vs.len() as int)
}

/// Some checked share of slot `(e, i)` is held.
pub open spec fn slot_held(vs: Seq<(ShareKey, Seq<ZqMod>)>, e: Epoch, i: usize) -> bool {
    exists|j: int| 0 <= j < vs.len() && (#[trigger] vs[j]).0.0 == e && vs[j].0.1 == i
}

/// The request can be answered: shares of its slot are held and the
/// dealers with enough of them are exactly those requested.
pub open spec fn request_ready(vs: Seq<(ShareKey, Seq<ZqMod>)>, r: (Seq<Seq<u8>>, Epoch, usize), t: usize) -> bool {
    &&& slot_held(vs, r.1, r.2)
    &&& forall|d: Seq<u8>| #[trigger] r.0.contains(d) <==> ready_digests(vs, r.1, r.2, t).contains(d)
}

/// The senders of the checked shares for dealer digest `c` of slot
/// `(e, i)`, among the first `len`, in order.
pub open spec fn slot_pks(vs: Seq<(ShareKey, Seq<ZqMod>)>, e: Epoch, i: usize, c: Seq<u8>, len: int) -> Seq<Seq<u8>>
    decreases len,
{
    if len <= 0 {
        Seq::empty()
    } else {
        let prev = slot_pks(vs, e, i, c, len - 1);
        let x = vs[len - 1];
        if x.0.0 == e && x.0.1 == i && x.0.2 == c {
            prev.push(x.0.3)
        } else {
            prev
        }
    }
}

/// Their committee ids.
pub open spec fn slot_ids(vs: Seq<(ShareKey, Seq<ZqMod>)>, committee: Committee, e: Epoch, i: usize, c: Seq<u8>, len: int) -> Seq<Id> {
    slot_pks(vs, e, i, c, len).map_values(|k: Seq<u8>| (index_of(committee.authorities@, k) + 1) as Id)
}

/// The evaluations of those shares, in the same order.
pub open spec fn slot_rows(vs: Seq<(ShareKey, Seq<ZqMod>)>, e: Epoch, i: usize, c: Seq<u8>, len: int) -> Seq<Seq<ZqMod>>
    decreases len,
{
    if len <= 0 {
        Seq::empty()
    } else {
        let prev = slot_rows(vs, e, i, c, len - 1);
        let x = vs[len - 1];
        if x.0.0 == e && x.0.1 == i && x.0.2 == c {
            prev.push(x.1)
        } else {
            prev
        }
    }
}

/// Column `k` of rows given as sequences.
pub open spec fn rows_column(rows: Seq<Seq<ZqMod>>, k: int) -> Seq<u128> {
    Seq::new(rows.len(), |x: int| rows[x][k])
}

/// The secret at zero of evaluation `k` dealt under digest `c`, interpolated
/// from the checked shares of slot `(e, i)`.
pub open spec fn digest_value(vs: Seq<(ShareKey, Seq<ZqMod>)>, committee: Committee, q: ZqMod, e: Epoch, i: usize, c: Seq<u8>, k: int) -> int {
    spec_lagrange_at_zero(
        ids_mod(slot_ids(vs, committee, e, i, c, vs.len() as int), q as int),
        rows_column(slot_rows(vs, e, i, c, vs.len() as int), k),
        q as int,
    )
}

/// The sum over the first `n` digests of `ds` of their secrets of
/// evaluation `k`.
pub open spec fn slot_total(vs: Seq<(ShareKey, Seq<ZqMod>)>, committee: Committee, q: ZqMod, e: Epoch, i: usize, ds: Seq<Seq<u8>>, n: int, k: int) -> int
    decreases n,
{
    if n <= 0 {
        0
    } else {
        slot_total(vs, committee, q, e, i, ds, n - 1, k) + digest_value(vs, committee, q, e, i, ds[n - 1], k)
    }
}

/// The reconstructed secrets of slot `(e, i)`: for each evaluation, the
/// sum over the ready dealers of their interpolated secrets.
pub open spec fn slot_secret(vs: Seq<(ShareKey, Seq<ZqMod>)>, committee: Committee, q: ZqMod, g: usize, t: usize, e: Epoch, i: usize) -> Seq<u128> {
    let ds = ready_digests(vs, e, i, t);
    Seq::new(g as nat, |k: int| slot_total(vs, committee, q, e, i, ds, ds.len() as int, k) as u128)
}

/// The senders and the rows of a dealer digest: as many as its shares,
/// each row `g` residues, the senders distinct committee members, none of
/// them the sender of a later entry of the digest.
proof fn lemma_slot_rows(vs: Seq<(ShareKey, Seq<ZqMod>)>, committee: Committee, e: Epoch, i: usize, c: Seq<u8>, len: int, g: usize, q: ZqMod)
    requires
        0 <= len <= vs.len(),
        keys_distinct(vs),
        forall|k: int| 0 <= k < vs.len() ==> verified_entry_ok(#[trigger] vs[k], g, q, committee),
    ensures
        slot_pks(vs, e, i, c, len).len() == count_shares(vs, e, i, c, len),
        slot_rows(vs, e, i, c, len).len() == count_shares(vs, e, i, c, len),
        count_shares(vs, e, i, c, len) <= len,
        forall|x: int| 0 <= x < slot_rows(vs, e, i, c, len).len() ==> (#[trigger] slot_rows(vs, e, i, c, len)[x]).len() == g,
        forall|x: int, y: int| 0 <= x < slot_rows(vs, e, i, c, len).len() && 0 <= y < g ==> (#[trigger] slot_rows(vs, e, i, c, len)[x][y]) < q,
        forall|x: int|
            0 <= x < slot_pks(vs, e, i, c, len).len() ==> index_of(committee.authorities@, #[trigger] slot_pks(vs, e, i, c, len)[x]) >= 0,
        forall|x: int, y: int|
            0 <= x < slot_pks(vs, e, i, c, len).len() && 0 <= y < slot_pks(vs, e, i, c, len).len() && x != y
                ==> #[trigger] slot_pks(vs, e, i, c, len)[x] != #[trigger] slot_pks(vs, e, i, c, len)[y],
        forall|x: int, m: int|
            0 <= x < slot_pks(vs, e, i, c, len).len() && len <= m < vs.len() && vs[m].0.0 == e && vs[m].0.1 == i
                && vs[m].0.2 == c ==> #[trigger] slot_pks(vs, e, i, c, len)[x] != (#[trigger] vs[m]).0.3,
    decreases len,
{
    if len > 0 {
        lemma_slot_rows(vs, committee, e, i, c, len - 1, g, q);
        let x = vs[len - 1];
        let pks0 = slot_pks(vs, e, i, c, len - 1);
        let pks = slot_pks(vs, e, i, c, len);
        let rows0 = slot_rows(vs, e, i, c, len - 1);
        let rows = slot_rows(vs, e, i, c, len);
        assert(verified_entry_ok(vs[len - 1], g, q, committee));
        if x.0.0 == e && x.0.1 == i && x.0.2 == c {
            assert forall|a: int, b: int| 0 <= a < pks.len() && 0 <= b < pks.len() && a != b implies #[trigger] pks[a] != #[trigger] pks[b] by {
                if a < pks0.len() && b < pks0.len() {
                    assert(pks[a] == pks0[a] && pks[b] == pks0[b]);
                } else if a < pks0.len() {
                    assert(pks[a] == pks0[a]);
                    assert(pks0[a] != vs[len - 1].0.3);
                } else {
                    assert(pks[b] == pks0[b]);
                    assert(pks0[b] != vs[len - 1].0.3);
                }
            }
            assert forall|a: int, m: int|
                0 <= a < pks.len() && len <= m < vs.len() && vs[m].0.0 == e && vs[m].0.1 == i && vs[m].0.2 == c
                    implies #[trigger] pks[a] != (#[trigger] vs[m]).0.3 by {
                if a < pks0.len() {
                    assert(pks[a] == pks0[a]);
                } else {
                    assert(vs[m].0 != vs[len - 1].0);
                }
            }
            assert forall|a: int| 0 <= a < pks.len() implies index_of(committee.authorities@, #[trigger] pks[a]) >= 0 by {
                if a < pks0.len() {
                    assert(pks[a] == pks0[a]);
                }
            }
            assert forall|a: int| 0 <= a < rows.len() implies (#[trigger] rows[a]).len() == g by {
                if a < rows0.len() {
                    assert(rows[a] == rows0[a]);
                }
            }
            assert forall|a: int, b: int| 0 <= a < rows.len() && 0 <= b < g implies (#[trigger] rows[a][b]) < q by {
                if a < rows0.len() {
                    assert(rows[a] == rows0[a]);
                }
            }
        }
    }
}

/// The ids of a dealer digest's shares can be interpolated.
proof fn lemma_slot_ids_ok(vs: Seq<(ShareKey, Seq<ZqMod>)>, committee: Committee, e: Epoch, i: usize, c: Seq<u8>, g: usize, q: ZqMod)
    requires
        keys_distinct(vs),
        forall|k: int| 0 <= k < vs.len() ==> verified_entry_ok(#[trigger] vs[k], g, q, committee),
        committee.authorities@.len() < q,
        committee.authorities@.len() <= usize::MAX,
        ids_invertible(committee.authorities@.len() as int, q as int),
    ensures
        interpolation_points_ok(ids_mod(slot_ids(vs, committee, e, i, c, vs.len() as int), q as int), q as int),
{
    let len = vs.len() as int;
    lemma_slot_rows(vs, committee, e, i, c, len, g, q);
    let pks = slot_pks(vs, e, i, c, len);
    let ids = slot_ids(vs, committee, e, i, c, len);
    let pts = ids_mod(ids, q as int);
    let n = committee.authorities@.len() as int;
    assert forall|a: int| 0 <= a < pks.len() implies 1 <= #[trigger] ids[a] <= n by {
        lemma_index_of_bounds(committee.authorities@, pks[a]);
    }
    assert forall|a: int| 0 <= a < pts.len() implies (#[trigger] pts[a]) < q by {
        assert(ids[a] <= n);
    }
    assert forall|a: int, b: int| 0 <= a < pts.len() && 0 <= b < pts.len() && a != b implies spec_gcd(
        ((#[trigger] pts[a]) + q - (#[trigger] pts[b])) % (q as int),
        q as int,
    ) == 1 by {
        lemma_index_of_bounds(committee.authorities@, pks[a]);
        lemma_index_of_bounds(committee.authorities@, pks[b]);
        assert(pks[a] != pks[b]);
        assert(ids[a] != ids[b]);
        assert(id_diff_ok(ids[a] as int, ids[b] as int, q as int));
        assert(pts[a] == (ids[a] as int) % (q as int));
        assert(pts[b] == (ids[b] as int) % (q as int));
    }
}

/// The ready digests are distinct, each with at least `t` checked shares,
/// and no more than the entries scanned.
proof fn lemma_ready_from(vs: Seq<(ShareKey, Seq<ZqMod>)>, e: Epoch, i: usize, t: usize, len: int)
    requires
        0 <= len <= vs.len(),
    ensures
        ready_from(vs, e, i, t, len).len() <= len,
        forall|x: int|
            0 <= x < ready_from(vs, e, i, t, len).len() ==> count_shares(vs, e, i, #[trigger] ready_from(vs, e, i, t, len)[x], vs.len() as int) >= t,
    decreases len,
{
    if len > 0 {
        lemma_ready_from(vs, e, i, t, len - 1);
        let prev = ready_from(vs, e, i, t, len - 1);
        let cur = ready_from(vs, e, i, t, len);
        assert forall|x: int| 0 <= x < cur.len() implies count_shares(vs, e, i, #[trigger] cur[x], vs.len() as int) >= t by {
            if x < prev.len() {
                assert(cur[x] == prev[x]);
            }
        }
    }
}

/// The running sums of at most `2^64 - 1` residues below `q <= 2^64` leave
/// room for one more.
proof fn lemma_sum_room(j: int, q: int)
    requires
        0 <= j < 0x1_0000_0000_0000_0000,
        0 < q <= 0x1_0000_0000_0000_0000,
    ensures
        j * (q - 1) + q <= u128::MAX,
{
    assert(j * (q - 1) <= (0x1_0000_0000_0000_0000 - 1) * (0x1_0000_0000_0000_0000 - 1)) by (nonlinear_arith)
        requires
            0 <= j < 0x1_0000_0000_0000_0000,
            0 < q <= 0x1_0000_0000_0000_0000,
    ;
}

/// Digests as byte sequences.
pub open spec fn digest_views(v: Seq<Digest>) -> Seq<Seq<u8>> {
    v.map_values(|d: Digest| d.0@)
}

/// Whether a digest equal to `d` is in the list.
pub(crate) fn holds_digest(v: &Vec<Digest>, d: &Digest) -> (r: bool)
    ensures
        r == digest_views(v@).contains(d.0@),
{
    let mut k: usize = 0;
    while k < v.len()
        invariant
            k <= v@.len(),
            forall|j: int| 0 <= j < k ==> (#[trigger] v@[j]).0@ != d.0@,
        decreases v.len() - k,
    {
        if v[k].same(d) {
            proof {
                assert(digest_views(v@)[k as int] == d.0@);
            }
            return true;
        }
        k = k + 1;
    }
    proof {
        if digest_views(v@).contains(d.0@) {
            let j = choose|j: int| 0 <= j < digest_views(v@).len() && digest_views(v@)[j] == d.0@;
            assert(v@[j].0@ == d.0@);
        }
    }
    false
}

/// Whether the two lists hold the same digests, as sets.
fn digests_match(a: &Vec<Digest>, b: &Vec<Digest>) -> (r: bool)
    ensures
        r == forall|d: Seq<u8>| #[trigger] digest_views(a@).contains(d) <==> digest_views(b@).contains(d),
{
    let mut k: usize = 0;
    while k < a.len()
        invariant
            k <= a@.len(),
            forall|j: int| 0 <= j < k ==> digest_views(b@).contains(#[trigger] digest_views(a@)[j]),
        decreases a.len() - k,
    {
        if !holds_digest(b, &a[k]) {
            proof {
                assert(digest_views(a@)[k as int] == a@[k as int].0@);
                assert(digest_views(a@).contains(a@[k as int].0@));
            }
            return false;
        }
        proof {
            assert(digest_views(a@)[k as int] == a@[k as int].0@);
        }
        k = k + 1;
    }
    let mut m: usize = 0;
    while m < b.len()
        invariant
            m <= b@.len(),
            forall|j: int| 0 <= j < a@.len() ==> digest_views(b@).contains(#[trigger] digest_views(a@)[j]),
            forall|j: int| 0 <= j < m ==> digest_views(a@).contains(#[trigger] digest_views(b@)[j]),
        decreases b.len() - m,
    {
        if !holds_digest(a, &b[m]) {
            proof {
                assert(digest_views(b@)[m as int] == b@[m as int].0@);
                assert(digest_views(b@).contains(b@[m as int].0@));
            }
            return false;
        }
        proof {
            assert(digest_views(b@)[m as int] == b@[m as int].0@);
        }
        m = m + 1;
    }
    proof {
        assert forall|d: Seq<u8>| #[trigger] digest_views(a@).contains(d) implies digest_views(b@).contains(d) by {
            let j = choose|j: int| 0 <= j < digest_views(a@).len() && digest_views(a@)[j] == d;
        }
        assert forall|d: Seq<u8>| #[trigger] digest_views(b@).contains(d) implies digest_views(a@).contains(d) by {
            let j = choose|j: int| 0 <= j < digest_views(b@).len() && digest_views(b@)[j] == d;
        }
    }
    true
}

impl BreezeResult {
    /// The number of checked shares for dealer digest `c` of slot `(e, i)`.
    fn count_for(&self, e: Epoch, i: usize, c: &Digest) -> (n: usize)
        ensures
            n == count_shares(self.verified_list(), e, i, c.0@, self.verified_list().len() as int),
    {
        let ghost vs = self.verified_list();
        let mut n: usize = 0;
        let mut j: usize = 0;
        while j < self.verified.len()
            invariant
                j <= self.verified@.len(),
                vs == self.verified_list(),
                vs.len() == self.verified@.len(),
                n == count_shares(vs, e, i, c.0@, j as int),
                n <= j,
            decreases self.verified.len() - j,
        {
            assert(vs[j as int] == verified_view(self.verified@[j as int]));
            let x = &self.verified[j];
            if x.0 == e && x.1 == i && x.2.same(c) {
                n = n + 1;
            }
            j = j + 1;
        }
        n
    }

    /// Whether a checked share of slot `(e, i)` is held.
    fn holds_slot(&self, e: Epoch, i: usize) -> (r: bool)
        ensures
            r == slot_held(self.verified_list(), e, i),
    {
        let ghost vs = self.verified_list();
        let mut j: usize = 0;
        while j < self.verified.len()
            invariant
                j <= self.verified@.len(),
                vs == self.verified_list(),
                vs.len() == self.verified@.len(),
                forall|k: int| 0 <= k < j ==> !((#[trigger] vs[k]).0.0 == e && vs[k].0.1 == i),
            decreases self.verified.len() - j,
        {
            assert(vs[j as int] == verified_view(self.verified@[j as int]));
            if self.verified[j].0 == e && self.verified[j].1 == i {
                return true;
            }
            j = j + 1;
        }
        false
    }

    /// The dealer digests of slot `(e, i)` with enough checked shares.
    fn ready_list(&self, e: Epoch, i: usize) -> (r: Vec<Digest>)
        ensures
            digest_views(r@) == ready_digests(self.verified_list(), e, i, self.spec_threshold()),
    {
        let ghost vs = self.verified_list();
        let mut out: Vec<Digest> = Vec::new();
        let mut j: usize = 0;
        while j < self.verified.len()
            invariant
                j <= self.verified@.len(),
                vs == self.verified_list(),
                vs.len() == self.verified@.len(),
                digest_views(out@) == ready_from(vs, e, i, self.threshold, j as int),
            decreases self.verified.len() - j,
        {
            assert(vs[j as int] == verified_view(self.verified@[j as int]));
            let x = &self.verified[j];
            if x.0 == e && x.1 == i {
                let cnt = self.count_for(e, i, &x.2);
                if cnt >= self.threshold && !holds_digest(&out, &x.2) {
                    let d = x.2;
                    out.push(d);
                    proof {
                        assert(digest_views(out@) =~= ready_from(vs, e, i, self.threshold, j + 1));
                    }
                }
            }
            j = j + 1;
        }
        out
    }

    /// The ids and the evaluations of the checked shares for dealer digest
    /// `c` of slot `(e, i)`, in order.
    fn slot_data(&self, e: Epoch, i: usize, c: &Digest) -> (r: (Vec<Id>, Vec<Vec<ZqMod>>))
        requires
            self.wf(),
        ensures
            r.0@ == slot_ids(self.verified_list(), self.spec_committee(), e, i, c.0@, self.verified_list().len() as int),
            r.1@.len() == slot_rows(self.verified_list(), e, i, c.0@, self.verified_list().len() as int).len(),
            forall|x: int| 0 <= x < r.1@.len() ==> (#[trigger] r.1@[x])@ == slot_rows(self.verified_list(), e, i, c.0@, self.verified_list().len() as int)[x],
    {
        let ghost vs = self.verified_list();
        let mut ids: Vec<Id> = Vec::new();
        let mut rows: Vec<Vec<ZqMod>> = Vec::new();
        let mut j: usize = 0;
        while j < self.verified.len()
            invariant
                j <= self.verified@.len(),
                self.wf(),
                vs == self.verified_list(),
                vs.len() == self.verified@.len(),
                ids@ == slot_ids(vs, self.committee, e, i, c.0@, j as int),
                rows@.len() == slot_rows(vs, e, i, c.0@, j as int).len(),
                forall|x: int| 0 <= x < rows@.len() ==> (#[trigger] rows@[x])@ == slot_rows(vs, e, i, c.0@, j as int)[x],
            decreases self.verified.len() - j,
        {
            assert(vs[j as int] == verified_view(self.verified@[j as int]));
            assert(verified_entry_ok(vs[j as int], self.g, self.q, self.committee));
            let x = &self.verified[j];
            if x.0 == e && x.1 == i && x.2.same(c) {
                let id = match self.committee.get_id(&x.3) {
                    Some(id) => id,
                    None => {
                        proof {
                            assert(false);
                        }
                        0
                    },
                };
                ids.push(id);
                rows.push(x.4.clone());
                proof {
                    let p0 = slot_pks(vs, e, i, c.0@, j as int);
                    assert(slot_pks(vs, e, i, c.0@, j + 1) == p0.push(x.3@));
                    assert(ids@ =~= slot_ids(vs, self.committee, e, i, c.0@, j + 1));
                    let r0 = slot_rows(vs, e, i, c.0@, j as int);
                    assert(slot_rows(vs, e, i, c.0@, j + 1) == r0.push(x.4@));
                }
            } else {
                proof {
                    assert(slot_pks(vs, e, i, c.0@, j + 1) == slot_pks(vs, e, i, c.0@, j as int));
                }
            }
            j = j + 1;
        }
        (ids, rows)
    }
}

impl BreezeResult {
    /// The reconstructed secrets of slot `(e, i)`, given its ready digests.
    fn secret_of(&self, e: Epoch, i: usize, ready: &Vec<Digest>) -> (r: Vec<ZqMod>)
        requires
            self.wf(),
            digest_views(ready@) == ready_digests(self.verified_list(), e, i, self.spec_threshold()),
        ensures
            r@ == slot_secret(self.verified_list(), self.spec_committee(), self.spec_q(), self.spec_g(), self.spec_threshold(), e, i),
    {
        let ghost vs = self.verified_list();
        let ghost ds = ready_digests(vs, e, i, self.threshold);
        let ghost q = self.q;
        let ghost g = self.g;
        let mut cum: Vec<ZqMod> = Vec::new();
        let mut k: usize = 0;
        while k < self.g
            invariant
                k <= self.g,
                cum@.len() == k,
                forall|x: int| 0 <= x < k ==> cum@[x] == 0,
            decreases self.g - k,
        {
            cum.push(0);
            k = k + 1;
        }
        let vlen = self.verified.len();
        proof {
            lemma_ready_from(vs, e, i, self.threshold, vs.len() as int);
        }
        let mut j: usize = 0;
        while j < ready.len()
            invariant
                j <= ready@.len(),
                self.wf(),
                vs == self.verified_list(),
                vlen == vs.len(),
                ds == ready_digests(vs, e, i, self.threshold),
                digest_views(ready@) == ds,
                ds.len() <= vs.len(),
                forall|x: int| 0 <= x < ds.len() ==> count_shares(vs, e, i, #[trigger] ds[x], vs.len() as int) >= self.threshold,
                q == self.q,
                g == self.g,
                cum@.len() == g,
                forall|x: int| 0 <= x < g ==> (#[trigger] cum@[x]) as int == slot_total(vs, self.committee, q, e, i, ds, j as int, x),
                forall|x: int| 0 <= x < g ==> (#[trigger] cum@[x]) <= j * (q - 1),
            decreases ready.len() - j,
        {
            let (ids, rows) = self.slot_data(e, i, &ready[j]);
            let ghost c = ready@[j as int].0@;
            assert(ds[j as int] == c);
            let ghost srows = slot_rows(vs, e, i, c, vs.len() as int);
            proof {
                lemma_slot_rows(vs, self.committee, e, i, c, vs.len() as int, g, q);
                lemma_slot_ids_ok(vs, self.committee, e, i, c, g, q);
                assert(count_shares(vs, e, i, c, vs.len() as int) >= 1);
                assert(rows@.len() >= 1);
                assert(is_rectangular(rows@)) by {
                    assert forall|x: int| 0 <= x < rows@.len() implies (#[trigger] rows@[x]).len() == rows@[0].len() by {
                        assert(rows@[x]@ == srows[x]);
                        assert(rows@[0]@ == srows[0]);
                    }
                }
                assert(column_count(rows@) == g) by {
                    assert(rows@[0]@ == srows[0]);
                }
                assert forall|x: int, y: int| 0 <= x < rows.len() && 0 <= y < rows[x].len() implies (#[trigger] rows[x][y]) < q by {
                    assert(rows@[x]@ == srows[x]);
                    assert(srows[x][y] < q);
                }
                assert(j < 0x1_0000_0000_0000_0000);
                lemma_sum_room(j as int, q as int);
                assert forall|x: int| 0 <= x < cum@.len() implies (#[trigger] cum@[x]) <= u128::MAX - q by {
                    assert(cum@[x] <= j * (q - 1));
                }
            }
            let ghost before = cum@;
            BreezeReconResult::interpolate(&ids, &rows, self.q, &mut cum);
            proof {
                assert forall|x: int| 0 <= x < g implies (#[trigger] cum@[x]) as int == slot_total(vs, self.committee, q, e, i, ds, j + 1, x) by {
                    assert(column(rows@, x) =~= rows_column(srows, x)) by {
                        assert forall|y: int| 0 <= y < rows@.len() implies column(rows@, x)[y] == rows_column(srows, x)[y] by {
                            assert(rows@[y]@ == srows[y]);
                        }
                    }
                }
                assert forall|x: int| 0 <= x < g implies (#[trigger] cum@[x]) <= (j + 1) * (q - 1) by {
                    assert(column(rows@, x) =~= rows_column(srows, x)) by {
                        assert forall|y: int| 0 <= y < rows@.len() implies column(rows@, x)[y] == rows_column(srows, x)[y] by {
                            assert(rows@[y]@ == srows[y]);
                        }
                    }
                    let dv = digest_value(vs, self.committee, q, e, i, c, x);
                    assert(0 <= dv < q);
                    assert((j + 1) * (q - 1) == j * (q - 1) + (q - 1)) by (nonlinear_arith);
                }
            }
            j = j + 1;
        }
        proof {
            assert(cum@ =~= slot_secret(vs, self.committee, q, g, self.threshold, e, i));
        }
        cum
    }
}

/// The value of the beacon reconstructed for slot `(e, i)`.
pub open spec fn slot_value(vs: Seq<(ShareKey, Seq<ZqMod>)>, committee: Committee, q: ZqMod, g: usize, t: usize, e: Epoch, i: usize) -> nat {
    spec_secret_to_number(slot_secret(vs, committee, q, g, t, e, i))
}

/// The requests among the first `len` that can be answered, in order.
pub open spec fn requests_done(reqs: Seq<(Seq<Seq<u8>>, Epoch, usize)>, vs: Seq<(ShareKey, Seq<ZqMod>)>, t: usize, len: int) -> Seq<(Seq<Seq<u8>>, Epoch, usize)>
    decreases len,
{
    if len <= 0 {
        Seq::empty()
    } else {
        let prev = requests_done(reqs, vs, t, len - 1);
        if request_ready(vs, reqs[len - 1], t) {
            prev.push(reqs[len - 1])
        } else {
            prev
        }
    }
}

/// The requests among the first `len` that cannot be answered yet, in order.
pub open spec fn requests_kept(reqs: Seq<(Seq<Seq<u8>>, Epoch, usize)>, vs: Seq<(ShareKey, Seq<ZqMod>)>, t: usize, len: int) -> Seq<(Seq<Seq<u8>>, Epoch, usize)>
    decreases len,
{
    if len <= 0 {
        Seq::empty()
    } else {
        let prev = requests_kept(reqs, vs, t, len - 1);
        if request_ready(vs, reqs[len - 1], t) {
            prev
        } else {
            prev.push(reqs[len - 1])
        }
    }
}

/// The slot `(e, i)` is among the given ones.
pub open spec fn slot_in(slots: Seq<(Epoch, usize)>, e: Epoch, i: usize) -> bool {
    exists|j: int| 0 <= j < slots.len() && (#[trigger] slots[j]) == (e, i)
}

/// The checked shares among the first `len` whose slot is not among the
/// given ones, in order.
pub open spec fn entries_kept(vs: Seq<(ShareKey, Seq<ZqMod>)>, slots: Seq<(Epoch, usize)>, len: int) -> Seq<(ShareKey, Seq<ZqMod>)>
    decreases len,
{
    if len <= 0 {
        Seq::empty()
    } else {
        let prev = entries_kept(vs, slots, len - 1);
        if slot_in(slots, vs[len - 1].0.0, vs[len - 1].0.1) {
            prev
        } else {
            prev.push(vs[len - 1])
        }
    }
}

/// The entries kept come from the first `len`, keep their keys distinct and
/// stay well formed.
proof fn lemma_entries_kept(vs: Seq<(ShareKey, Seq<ZqMod>)>, slots: Seq<(Epoch, usize)>, len: int, g: usize, q: ZqMod, committee: Committee)
    requires
        0 <= len <= vs.len(),
        keys_distinct(vs),
        forall|k: int| 0 <= k < vs.len() ==> verified_entry_ok(#[trigger] vs[k], g, q, committee),
    ensures
        keys_distinct(entries_kept(vs, slots, len)),
        forall|k: int| 0 <= k < entries_kept(vs, slots, len).len() ==> verified_entry_ok(#[trigger] entries_kept(vs, slots, len)[k], g, q, committee),
        forall|k: int, m: int| 0 <= k < entries_kept(vs, slots, len).len() && len <= m < vs.len() ==> (#[trigger] entries_kept(vs, slots, len)[k]).0 != (#[trigger] vs[m]).0,
    decreases len,
{
    if len > 0 {
        lemma_entries_kept(vs, slots, len - 1, g, q, committee);
        let prev = entries_kept(vs, slots, len - 1);
        let cur = entries_kept(vs, slots, len);
        if !slot_in(slots, vs[len - 1].0.0, vs[len - 1].0.1) {
            assert forall|a: int, b: int| 0 <= a < cur.len() && 0 <= b < cur.len() && a != b implies cur[a].0 != cur[b].0 by {
                if a < prev.len() && b < prev.len() {
                    assert(cur[a] == prev[a] && cur[b] == prev[b]);
                } else if a < prev.len() {
                    assert(cur[a] == prev[a]);
                    assert(prev[a].0 != vs[len - 1].0);
                } else {
                    assert(cur[b] == prev[b]);
                    assert(prev[b].0 != vs[len - 1].0);
                }
            }
            assert forall|k: int| 0 <= k < cur.len() implies verified_entry_ok(#[trigger] cur[k], g, q, committee) by {
                if k < prev.len() {
                    assert(cur[k] == prev[k]);
                }
            }
            assert forall|k: int, m: int| 0 <= k < cur.len() && len <= m < vs.len() implies (#[trigger] cur[k]).0 != (#[trigger] vs[m]).0 by {
                if k < prev.len() {
                    assert(cur[k] == prev[k]);
                } else {
                    assert(cur[k] == vs[len - 1]);
                }
            }
        }
    }
}

/// The answers to the requests: slot and beacon value, in order.
pub open spec fn answers_of(done: Seq<(Seq<Seq<u8>>, Epoch, usize)>, vs: Seq<(ShareKey, Seq<ZqMod>)>, committee: Committee, q: ZqMod, g: usize, t: usize) -> Seq<(Epoch, usize, RandomNum)> {
    done.map_values(|r: (Seq<Seq<u8>>, Epoch, usize)| (r.1, r.2, slot_value(vs, committee, q, g, t, r.1, r.2) as RandomNum))
}

/// The slots of the requests.
pub open spec fn slots_of(done: Seq<(Seq<Seq<u8>>, Epoch, usize)>) -> Seq<(Epoch, usize)> {
    done.map_values(|r: (Seq<Seq<u8>>, Epoch, usize)| (r.1, r.2))
}

impl BreezeResult {
    /// Answers every request that can be answered: the dealers with at
    /// least `f + 1` checked shares for its slot are exactly those
    /// requested.  Each answered request is dropped, its slot marked as
    /// reconstructed and its checked shares forgotten; the answers give
    /// the slot and the beacon value, in the order of the requests.
    pub fn reconcile(&mut self) -> (answers: Vec<(Epoch, usize, RandomNum)>)
        requires
            old(self).wf(),
        ensures
            final(self).wf(),
            ({
                let vs = old(self).verified_list();
                let reqs = old(self).requests_list();
                let t = old(self).spec_threshold();
                let done = requests_done(reqs, vs, t, reqs.len() as int);
                &&& answers@ == answers_of(done, vs, old(self).spec_committee(), old(self).spec_q(), old(self).spec_g(), t)
                &&& final(self).requests_list() == requests_kept(reqs, vs, t, reqs.len() as int)
                &&& final(self).reconstructed_list() == old(self).reconstructed_list() + slots_of(done)
                &&& final(self).verified_list() == entries_kept(vs, slots_of(done), vs.len() as int)
            }),
            final(self).pending_list() == old(self).pending_list(),
            final(self).same_params(old(self)),
    {
        let ghost s0 = *old(self);
        let ghost vs = self.verified_list();
        let ghost reqs = self.requests_list();
        let ghost t = self.threshold;
        let ghost cm = self.committee;
        let ghost q = self.q;
        let ghost g = self.g;
        let n = self.requests.len();
        let mut answers: Vec<(Epoch, usize, RandomNum)> = Vec::new();
        let mut done: Vec<(Epoch, usize)> = Vec::new();
        let mut i: usize = 0;
        let mut j: usize = 0;
        while i < self.requests.len()
            invariant
                0 <= j <= n,
                n == reqs.len(),
                self.wf(),
                vs == self.verified_list(),
                self.verified == s0.verified,
                self.unverified == s0.unverified,
                self.reconstructed == s0.reconstructed,
                self.same_params(&s0),
                t == self.threshold,
                cm == self.committee,
                q == self.q,
                g == self.g,
                reqs == s0.requests_list(),
                i == requests_kept(reqs, vs, t, j as int).len(),
                self.requests_list() == requests_kept(reqs, vs, t, j as int) + reqs.subrange(j as int, n as int),
                self.requests@.len() == i + (n - j),
                answers@ == answers_of(requests_done(reqs, vs, t, j as int), vs, cm, q, g, t),
                done@ == slots_of(requests_done(reqs, vs, t, j as int)),
            decreases self.requests.len() - i,
        {
            let ghost kept = requests_kept(reqs, vs, t, j as int);
            let ghost dn = requests_done(reqs, vs, t, j as int);
            assert(j < n);
            assert(self.requests_list()[i as int] == reqs[j as int]);
            assert(request_view(self.requests@[i as int]) == reqs[j as int]);
            let e = self.requests[i].1;
            let idx = self.requests[i].2;
            let held = self.holds_slot(e, idx);
            let ready = self.ready_list(e, idx);
            let matched = digests_match(&self.requests[i].0, &ready);
            if held && matched {
                proof {
                    assert(digest_views(self.requests@[i as int].0@) == reqs[j as int].0);
                    assert(request_ready(vs, reqs[j as int], t));
                }
                let secret = self.secret_of(e, idx, &ready);
                let value = BreezeReconResult::new(secret).secret_to_number();
                answers.push((e, idx, value));
                done.push((e, idx));
                let ghost before = self.requests@;
                let ghost before_list = self.requests_list();
                self.requests.remove(i);
                proof {
                    assert(requests_done(reqs, vs, t, j + 1) == dn.push(reqs[j as int]));
                    assert(answers@ =~= answers_of(dn.push(reqs[j as int]), vs, cm, q, g, t));
                    assert(done@ =~= slots_of(dn.push(reqs[j as int])));
                    assert(self.requests_list() =~= kept + reqs.subrange(j + 1, n as int)) by {
                        assert forall|x: int| 0 <= x < self.requests@.len() implies #[trigger] self.requests_list()[x] == (kept + reqs.subrange(j + 1, n as int))[x] by {
                            if x < i {
                                assert(self.requests@[x] == before[x]);
                                assert(before_list[x] == request_view(before[x]));
                                assert(before_list[x] == kept[x]);
                            } else {
                                assert(self.requests@[x] == before[x + 1]);
                                assert(before_list[x + 1] == request_view(before[x + 1]));
                                assert(before_list[x + 1] == reqs[j + (x + 1 - i)]);
                            }
                        }
                    }
                }
            } else {
                proof {
                    if request_ready(vs, reqs[j as int], t) {
                        assert(digest_views(self.requests@[i as int].0@) == reqs[j as int].0);
                    }
                    assert(requests_kept(reqs, vs, t, j + 1) == kept.push(reqs[j as int]));
                    assert(self.requests_list() =~= kept.push(reqs[j as int]) + reqs.subrange(j + 1, n as int));
                }
                i = i + 1;
            }
            j = j + 1;
        }
        proof {
            assert(self.requests_list() =~= requests_kept(reqs, vs, t, n as int));
        }
        let ghost slots = done@;
        let ghost rec0 = self.reconstructed@;
        assert(rec0 == s0.reconstructed_list());
        let mut k: usize = 0;
        while k < done.len()
            invariant
                k <= done@.len(),
                slots == done@,
                self.reconstructed@ == rec0 + slots.subrange(0, k as int),
                self.verified == s0.verified,
                vs == s0.verified_list(),
                self.requests_list() == requests_kept(reqs, vs, t, n as int),
                self.unverified == s0.unverified,
                self.same_params(&s0),
                answers@ == answers_of(requests_done(reqs, vs, t, n as int), vs, cm, q, g, t),
                slots == slots_of(requests_done(reqs, vs, t, n as int)),
                s0.wf(),
                t == s0.threshold,
                cm == s0.committee,
                q == s0.q,
                g == s0.g,
                reqs == s0.requests_list(),
                n == reqs.len(),
            decreases done.len() - k,
        {
            self.reconstructed.push(done[k]);
            proof {
                assert(self.reconstructed@ =~= rec0 + slots.subrange(0, k + 1));
            }
            k = k + 1;
        }
        proof {
            assert(slots.subrange(0, slots.len() as int) =~= slots);
        }
        let total = self.verified.len();
        let mut a: usize = 0;
        let mut b: usize = 0;
        while a < self.verified.len()
            invariant
                0 <= b <= total,
                total == vs.len(),
                a == entries_kept(vs, slots, b as int).len(),
                self.verified_list() == entries_kept(vs, slots, b as int) + vs.subrange(b as int, total as int),
                self.verified@.len() == a + (total - b),
                slots == done@,
                self.reconstructed@ == rec0 + slots,
                vs == s0.verified_list(),
                self.requests_list() == requests_kept(reqs, vs, t, n as int),
                self.unverified == s0.unverified,
                self.same_params(&s0),
                answers@ == answers_of(requests_done(reqs, vs, t, n as int), vs, cm, q, g, t),
                slots == slots_of(requests_done(reqs, vs, t, n as int)),
                s0.wf(),
                t == s0.threshold,
                cm == s0.committee,
                q == s0.q,
                g == s0.g,
                reqs == s0.requests_list(),
                n == reqs.len(),
            decreases self.verified.len() - a,
        {
            let ghost kept = entries_kept(vs, slots, b as int);
            assert(b < total);
            assert(self.verified_list()[a as int] == vs[b as int]);
            assert(verified_view(self.verified@[a as int]) == vs[b as int]);
            let e = self.verified[a].0;
            let idx = self.verified[a].1;
            let mut found = false;
            let mut x: usize = 0;
            while x < done.len()
                invariant
                    x <= done@.len(),
                    slots == done@,
                    found == exists|y: int| 0 <= y < x && (#[trigger] slots[y]) == (e, idx),
                decreases done.len() - x,
            {
                if done[x].0 == e && done[x].1 == idx {
                    found = true;
                }
                x = x + 1;
            }
            if found {
                let ghost before = self.verified@;
                let ghost before_list = self.verified_list();
                self.verified.remove(a);
                proof {
                    assert(entries_kept(vs, slots, b + 1) == kept);
                    assert(self.verified_list() =~= kept + vs.subrange(b + 1, total as int)) by {
                        assert forall|y: int| 0 <= y < self.verified@.len() implies #[trigger] self.verified_list()[y] == (kept + vs.subrange(b + 1, total as int))[y] by {
                            if y < a {
                                assert(self.verified@[y] == before[y]);
                                assert(before_list[y] == verified_view(before[y]));
                                assert(before_list[y] == kept[y]);
                            } else {
                                assert(self.verified@[y] == before[y + 1]);
                                assert(before_list[y + 1] == verified_view(before[y + 1]));
                                assert(before_list[y + 1] == vs[b + (y + 1 - a)]);
                            }
                        }
                    }
                }
            } else {
                proof {
                    assert(entries_kept(vs, slots, b + 1) == kept.push(vs[b as int]));
                    assert(self.verified_list() =~= kept.push(vs[b as int]) + vs.subrange(b + 1, total as int));
                }
                a = a + 1;
            }
            b = b + 1;
        }
        proof {
            assert(self.verified_list() =~= entries_kept(vs, slots, total as int));
            lemma_entries_kept(vs, slots, total as int, g, q, cm);
        }
        answers
    }
}

/// An input of the reconstruction.
pub enum ResultEvent {
    /// Reconstruct slot `(epoch, index)` from the dealers with these digests.
    Request(Vec<Digest>, Epoch, usize),
    /// A message from a party, expected to carry shares for reconstruction.
    Shares(BreezeMessage),
    /// Merkle roots of dealers became known.
    RootsChanged,
}

/// What `step` needs of an event: its checks do not abort.
pub open spec fn result_event_ok(s: BreezeResult, e: ResultEvent, roots: Seq<(Epoch, PublicKey, Vec<Digest>)>) -> bool {
    match e {
        ResultEvent::Shares(m) => share_message_ok(s, m, roots),
        ResultEvent::RootsChanged => roots_ok(s, roots),
        _ => true,
    }
}

/// The answers, the pending requests, the reconstructed slots and the
/// checked shares after answering the ready requests.
pub open spec fn reconcile_of(
    reqs: Seq<(Seq<Seq<u8>>, Epoch, usize)>,
    vs: Seq<(ShareKey, Seq<ZqMod>)>,
    rec: Seq<(Epoch, usize)>,
    committee: Committee,
    q: ZqMod,
    g: usize,
    t: usize,
) -> (Seq<(Epoch, usize, RandomNum)>, Seq<(Seq<Seq<u8>>, Epoch, usize)>, Seq<(Epoch, usize)>, Seq<(ShareKey, Seq<ZqMod>)>) {
    let done = requests_done(reqs, vs, t, reqs.len() as int);
    (
        answers_of(done, vs, committee, q, g, t),
        requests_kept(reqs, vs, t, reqs.len() as int),
        rec + slots_of(done),
        entries_kept(vs, slots_of(done), vs.len() as int),
    )
}

/// The state and the answers after new checked shares `vs` (answering the
/// ready requests when `changed`).
pub open spec fn settled(s: BreezeResult, vs: Seq<(ShareKey, Seq<ZqMod>)>, changed: bool, t: BreezeResult, answers: Seq<(Epoch, usize, RandomNum)>) -> bool {
    if changed {
        let r = reconcile_of(s.requests_list(), vs, s.reconstructed_list(), s.spec_committee(), s.spec_q(), s.spec_g(), s.spec_threshold());
        &&& answers == r.0
        &&& t.requests_list() == r.1
        &&& t.reconstructed_list() == r.2
        &&& t.verified_list() == r.3
    } else {
        &&& answers.len() == 0
        &&& t.requests_list() == s.requests_list()
        &&& t.reconstructed_list() == s.reconstructed_list()
        &&& t.verified_list() == vs
    }
}

/// One step of the reconstruction.
pub open spec fn step_outcome(s: BreezeResult, e: ResultEvent, roots: Seq<(Epoch, PublicKey, Vec<Digest>)>, t: BreezeResult, answers: Seq<(Epoch, usize, RandomNum)>) -> bool {
    match e {
        ResultEvent::Request(d, ep, i) => {
            &&& answers.len() == 0
            &&& t.requests_list() == if s.reconstructed_list().contains((ep, i)) || request_held(s.requests_list(), ep, i) {
                s.requests_list()
            } else {
                s.requests_list().push(request_view((d, ep, i)))
            }
            &&& t.verified_list() == s.verified_list()
            &&& t.pending_list() == s.pending_list()
            &&& t.reconstructed_list() == s.reconstructed_list()
        },
        ResultEvent::Shares(m) => {
            let o = share_outcome(s, m, roots);
            &&& t.pending_list() == o.1
            &&& settled(s, o.0, o.2, t, answers)
        },
        ResultEvent::RootsChanged => {
            let o = roots_fold(s.verified_list(), s.pending_list(), roots, s.spec_g(), s.pending_list().len() as int);
            &&& t.pending_list() == s.pending_list()
            &&& settled(s, o.0, o.1, t, answers)
        },
    }
}

impl BreezeResult {
    /// Takes one event, with the Merkle roots received so far; after a
    /// checked share was stored, answers the requests that became ready.
    pub fn step(&mut self, event: ResultEvent, roots: &Vec<(Epoch, PublicKey, Vec<Digest>)>) -> (answers: Vec<(Epoch, usize, RandomNum)>)
        requires
            old(self).wf(),
            result_event_ok(*old(self), event, roots@),
        ensures
            final(self).wf(),
            final(self).same_params(old(self)),
            step_outcome(*old(self), event, roots@, *final(self), answers@),
    {
        let changed = match event {
            ResultEvent::Request(digests, epoch, index) => {
                self.on_request(digests, epoch, index);
                false
            },
            ResultEvent::Shares(m) => self.on_share_message(m, roots),
            ResultEvent::RootsChanged => self.on_roots(roots),
        };
        if changed {
            self.reconcile()
        } else {
            Vec::new()
        }
    }
}

/// Law: a slot once reconstructed stays so, and a later request for it is
/// not taken.
pub proof fn lemma_reconstructed_not_requested_again(s: BreezeResult, e: Epoch, i: usize, digests: Vec<Digest>, t: BreezeResult)
    requires
        s.reconstructed_list().contains((e, i)),
        t.requests_list() == (if s.reconstructed_list().contains((e, i)) || request_held(s.requests_list(), e, i) {
            s.requests_list()
        } else {
            s.requests_list().push(request_view((digests, e, i)))
        }),
    ensures
        t.requests_list() == s.requests_list(),
{
}

/// Law: every answered request has its slot recorded as reconstructed, and
/// is no longer pending.
pub proof fn lemma_answered_recorded(s: BreezeResult, t: BreezeResult, x: int)
    requires
        ({
            let vs = s.verified_list();
            let reqs = s.requests_list();
            let th = s.spec_threshold();
            let done = requests_done(reqs, vs, th, reqs.len() as int);
            &&& 0 <= x < done.len()
            &&& t.requests_list() == requests_kept(reqs, vs, th, reqs.len() as int)
            &&& t.reconstructed_list() == s.reconstructed_list() + slots_of(done)
        }),
    ensures
        ({
            let vs = s.verified_list();
            let reqs = s.requests_list();
            let th = s.spec_threshold();
            let r = requests_done(reqs, vs, th, reqs.len() as int)[x];
            &&& t.reconstructed_list().contains((r.1, r.2))
            &&& request_ready(vs, r, th)
        }),
{
    let vs = s.verified_list();
    let reqs = s.requests_list();
    let th = s.spec_threshold();
    let done = requests_done(reqs, vs, th, reqs.len() as int);
    lemma_requests_done_ready(reqs, vs, th, reqs.len() as int);
    let r = done[x];
    assert(t.reconstructed_list()[s.reconstructed_list().len() + x] == (r.1, r.2));
}

/// Every request answered was ready.
proof fn lemma_requests_done_ready(reqs: Seq<(Seq<Seq<u8>>, Epoch, usize)>, vs: Seq<(ShareKey, Seq<ZqMod>)>, t: usize, len: int)
    ensures
        forall|x: int| 0 <= x < requests_done(reqs, vs, t, len).len() ==> request_ready(vs, #[trigger] requests_done(reqs, vs, t, len)[x], t),
    decreases len,
{
    if len > 0 {
        lemma_requests_done_ready(reqs, vs, t, len - 1);
        let prev = requests_done(reqs, vs, t, len - 1);
        let cur = requests_done(reqs, vs, t, len);
        assert forall|x: int| 0 <= x < cur.len() implies request_ready(vs, #[trigger] cur[x], t) by {
            if x < prev.len() {
                assert(cur[x] == prev[x]);
            }
        }
    }
}

/// The slot of a request.
pub open spec fn req_slot(r: (Seq<Seq<u8>>, Epoch, usize)) -> (Epoch, usize) {
    (r.1, r.2)
}

/// The pending requests are for distinct slots, none of them reconstructed.
pub open spec fn requests_fresh(reqs: Seq<(Seq<Seq<u8>>, Epoch, usize)>, rec: Seq<(Epoch, usize)>) -> bool {
    &&& forall|j: int, k: int| 0 <= j < k < reqs.len() ==> req_slot(#[trigger] reqs[j]) != req_slot(#[trigger] reqs[k])
    &&& forall|j: int| 0 <= j < reqs.len() ==> !rec.contains(req_slot(#[trigger] reqs[j]))
}

/// The answered and the kept requests split the requests: each is one of
/// the first `len`, and all their slots differ.
proof fn lemma_requests_split(
    reqs: Seq<(Seq<Seq<u8>>, Epoch, usize)>,
    vs: Seq<(ShareKey, Seq<ZqMod>)>,
    t: usize,
    len: int,
)
    requires
        0 <= len <= reqs.len(),
        forall|j: int, k: int| 0 <= j < k < reqs.len() ==> req_slot(#[trigger] reqs[j]) != req_slot(#[trigger] reqs[k]),
    ensures
        ({
            let done = requests_done(reqs, vs, t, len);
            let kept = requests_kept(reqs, vs, t, len);
            &&& forall|x: int| 0 <= x < done.len() ==> exists|j: int| 0 <= j < len && #[trigger] done[x] == reqs[j]
            &&& forall|x: int| 0 <= x < kept.len() ==> exists|j: int| 0 <= j < len && #[trigger] kept[x] == reqs[j]
            &&& forall|x: int, y: int| 0 <= x < y < done.len() ==> req_slot(#[trigger] done[x]) != req_slot(#[trigger] done[y])
            &&& forall|x: int, y: int| 0 <= x < y < kept.len() ==> req_slot(#[trigger] kept[x]) != req_slot(#[trigger] kept[y])
            &&& forall|x: int, y: int| 0 <= x < done.len() && 0 <= y < kept.len() ==> req_slot(#[trigger] done[x]) != req_slot(#[trigger] kept[y])
        }),
    decreases len,
{
    if len > 0 {
        lemma_requests_split(reqs, vs, t, len - 1);
        let pd = requests_done(reqs, vs, t, len - 1);
        let pk = requests_kept(reqs, vs, t, len - 1);
        let done = requests_done(reqs, vs, t, len);
        let kept = requests_kept(reqs, vs, t, len);
        let r = reqs[len - 1];
        // the new request's slot differs from those of all earlier ones
        assert forall|x: int| 0 <= x < pd.len() implies req_slot(#[trigger] pd[x]) != req_slot(r) by {
            let j = choose|j: int| 0 <= j < len - 1 && #[trigger] pd[x] == reqs[j];
            assert(req_slot(reqs[j]) != req_slot(reqs[len - 1]));
        }
        assert forall|x: int| 0 <= x < pk.len() implies req_slot(#[trigger] pk[x]) != req_slot(r) by {
            let j = choose|j: int| 0 <= j < len - 1 && #[trigger] pk[x] == reqs[j];
            assert(req_slot(reqs[j]) != req_slot(reqs[len - 1]));
        }
        if request_ready(vs, r, t) {
            assert(done == pd.push(r));
            assert(kept == pk);
            assert forall|x: int| 0 <= x < done.len() implies exists|j: int| 0 <= j < len && #[trigger] done[x] == reqs[j] by {
                if x < pd.len() {
                    assert(done[x] == pd[x]);
                    let j = choose|j: int| 0 <= j < len - 1 && #[trigger] pd[x] == reqs[j];
                    assert(done[x] == reqs[j]);
                } else {
                    assert(done[x] == reqs[len - 1]);
                }
            }
            assert forall|x: int| 0 <= x < kept.len() implies exists|j: int| 0 <= j < len && #[trigger] kept[x] == reqs[j] by {
                let j = choose|j: int| 0 <= j < len - 1 && #[trigger] pk[x] == reqs[j];
                assert(kept[x] == reqs[j]);
            }
            assert forall|x: int, y: int| 0 <= x < y < done.len() implies req_slot(#[trigger] done[x]) != req_slot(#[trigger] done[y]) by {
                assert(done[x] == pd[x]);
                if y < pd.len() {
                    assert(done[y] == pd[y]);
                }
            }
            assert forall|x: int, y: int| 0 <= x < done.len() && 0 <= y < kept.len() implies req_slot(#[trigger] done[x]) != req_slot(#[trigger] kept[y]) by {
                assert(kept[y] == pk[y]);
                if x < pd.len() {
                    assert(done[x] == pd[x]);
                }
            }
        } else {
            assert(kept == pk.push(r));
            assert(done == pd);
            assert forall|x: int| 0 <= x < kept.len() implies exists|j: int| 0 <= j < len && #[trigger] kept[x] == reqs[j] by {
                if x < pk.len() {
                    assert(kept[x] == pk[x]);
                    let j = choose|j: int| 0 <= j < len - 1 && #[trigger] pk[x] == reqs[j];
                    assert(kept[x] == reqs[j]);
                } else {
                    assert(kept[x] == reqs[len - 1]);
                }
            }
            assert forall|x: int| 0 <= x < done.len() implies exists|j: int| 0 <= j < len && #[trigger] done[x] == reqs[j] by {
                let j = choose|j: int| 0 <= j < len - 1 && #[trigger] pd[x] == reqs[j];
                assert(done[x] == reqs[j]);
            }
            assert forall|x: int, y: int| 0 <= x < y < kept.len() implies req_slot(#[trigger] kept[x]) != req_slot(#[trigger] kept[y]) by {
                assert(kept[x] == pk[x]);
                if y < pk.len() {
                    assert(kept[y] == pk[y]);
                }
            }
            assert forall|x: int, y: int| 0 <= x < done.len() && 0 <= y < kept.len() implies req_slot(#[trigger] done[x]) != req_slot(#[trigger] kept[y]) by {
                assert(done[x] == pd[x]);
                if y < pk.len() {
                    assert(kept[y] == pk[y]);
                }
            }
        }
    }
}

/// Law of one step: pending requests stay fresh, the reconstructed slots
/// only grow, and the slots answered are distinct, were not reconstructed
/// before the step and are reconstructed after it.
pub proof fn lemma_step_answers_fresh(
    s: BreezeResult,
    e: ResultEvent,
    roots: Seq<(Epoch, PublicKey, Vec<Digest>)>,
    t: BreezeResult,
    answers: Seq<(Epoch, usize, RandomNum)>,
)
    requires
        step_outcome(s, e, roots, t, answers),
        requests_fresh(s.requests_list(), s.reconstructed_list()),
    ensures
        requests_fresh(t.requests_list(), t.reconstructed_list()),
        t.reconstructed_list().len() >= s.reconstructed_list().len(),
        t.reconstructed_list().subrange(0, s.reconstructed_list().len() as int) == s.reconstructed_list(),
        forall|x: int, y: int| 0 <= x < y < answers.len() ==> (#[trigger] answers[x]).0 != (#[trigger] answers[y]).0
            || answers[x].1 != answers[y].1,
        forall|x: int| 0 <= x < answers.len() ==> !s.reconstructed_list().contains(((#[trigger] answers[x]).0, answers[x].1))
            && t.reconstructed_list().contains((answers[x].0, answers[x].1)),
{
    let reqs = s.requests_list();
    let rec = s.reconstructed_list();
    match e {
        ResultEvent::Request(d, ep, i) => {
            assert(t.reconstructed_list().subrange(0, rec.len() as int) =~= rec);
            if !(rec.contains((ep, i)) || request_held(reqs, ep, i)) {
                let nr = reqs.push(request_view((d, ep, i)));
                assert(t.requests_list() == nr);
                assert forall|j: int, k: int| 0 <= j < k < nr.len() implies req_slot(#[trigger] nr[j]) != req_slot(#[trigger] nr[k]) by {
                    assert(nr[j] == reqs[j]);
                    if k < reqs.len() {
                        assert(nr[k] == reqs[k]);
                    } else {
                        if req_slot(nr[j]) == req_slot(nr[k]) {
                            assert(reqs[j].1 == ep && reqs[j].2 == i);
                            assert(request_held(reqs, ep, i));
                        }
                    }
                }
                assert forall|j: int| 0 <= j < nr.len() implies !rec.contains(req_slot(#[trigger] nr[j])) by {
                    if j < reqs.len() {
                        assert(nr[j] == reqs[j]);
                    }
                }
            }
        },
        _ => {
            let (vs, changed) = match e {
                ResultEvent::Shares(m) => {
                    let o = share_outcome(s, m, roots);
                    (o.0, o.2)
                },
                _ => {
                    let o = roots_fold(s.verified_list(), s.pending_list(), roots, s.spec_g(), s.pending_list().len() as int);
                    (o.0, o.1)
                },
            };
            assert(settled(s, vs, changed, t, answers));
            if changed {
                let th = s.spec_threshold();
                let done = requests_done(reqs, vs, th, reqs.len() as int);
                let kept = requests_kept(reqs, vs, th, reqs.len() as int);
                lemma_requests_split(reqs, vs, th, reqs.len() as int);
                let nrec = rec + slots_of(done);
                assert(t.reconstructed_list() == nrec);
                assert(t.requests_list() == kept);
                assert(nrec.subrange(0, rec.len() as int) =~= rec);
                assert forall|j: int| 0 <= j < kept.len() implies !nrec.contains(req_slot(#[trigger] kept[j])) by {
                    let jj = choose|jj: int| 0 <= jj < reqs.len() && #[trigger] kept[j] == reqs[jj];
                    if nrec.contains(req_slot(kept[j])) {
                        let z = choose|z: int| 0 <= z < nrec.len() && nrec[z] == req_slot(kept[j]);
                        if z < rec.len() {
                            assert(rec[z] == nrec[z]);
                            assert(rec.contains(req_slot(reqs[jj])));
                        } else {
                            assert(nrec[z] == slots_of(done)[z - rec.len()]);
                            assert(slots_of(done)[z - rec.len()] == req_slot(done[z - rec.len()]));
                        }
                    }
                }
                assert forall|x: int| 0 <= x < answers.len() implies !rec.contains(((#[trigger] answers[x]).0, answers[x].1))
                    && t.reconstructed_list().contains((answers[x].0, answers[x].1)) by {
                    assert(answers[x].0 == done[x].1 && answers[x].1 == done[x].2);
                    let jj = choose|jj: int| 0 <= jj < reqs.len() && #[trigger] done[x] == reqs[jj];
                    assert(req_slot(reqs[jj]) == (answers[x].0, answers[x].1));
                    assert(nrec[rec.len() + x] == slots_of(done)[x]);
                }
                assert forall|x: int, y: int| 0 <= x < y < answers.len() implies (#[trigger] answers[x]).0 != (#[trigger] answers[y]).0
                    || answers[x].1 != answers[y].1 by {
                    assert(answers[x].0 == done[x].1 && answers[x].1 == done[x].2);
                    assert(answers[y].0 == done[y].1 && answers[y].1 == done[y].2);
                    assert(req_slot(done[x]) != req_slot(done[y]));
                }
            } else {
                assert(t.reconstructed_list().subrange(0, rec.len() as int) =~= rec);
            }
        },
    }
}

/// In a run, a reconstructed slot stays reconstructed.
proof fn lemma_reconstructed_stays(
    states: Seq<BreezeResult>,
    events: Seq<ResultEvent>,
    roots: Seq<Seq<(Epoch, PublicKey, Vec<Digest>)>>,
    answers: Seq<Seq<(Epoch, usize, RandomNum)>>,
    a: int,
    b: int,
    slot: (Epoch, usize),
)
    requires
        states.len() == events.len() + 1,
        roots.len() == events.len(),
        answers.len() == events.len(),
        forall|k: int| 0 <= k < events.len() ==> step_outcome(states[k], events[k], roots[k], #[trigger] states[k + 1], answers[k]),
        requests_fresh(states[0].requests_list(), states[0].reconstructed_list()),
        forall|k: int| 0 <= k < states.len() ==> requests_fresh((#[trigger] states[k]).requests_list(), states[k].reconstructed_list()),
        0 <= a <= b < states.len(),
        states[a].reconstructed_list().contains(slot),
    ensures
        states[b].reconstructed_list().contains(slot),
    decreases b - a,
{
    if a < b {
        assert(step_outcome(states[a], events[a], roots[a], states[a + 1], answers[a]));
        lemma_step_answers_fresh(states[a], events[a], roots[a], states[a + 1], answers[a]);
        let r0 = states[a].reconstructed_list();
        let r1 = states[a + 1].reconstructed_list();
        let z = choose|z: int| 0 <= z < r0.len() && r0[z] == slot;
        assert(r1.subrange(0, r0.len() as int)[z] == r1[z]);
        assert(r1[z] == slot);
        lemma_reconstructed_stays(states, events, roots, answers, a + 1, b, slot);
    }
}

/// In a run from fresh requests, every state's requests are fresh.
proof fn lemma_run_fresh(
    states: Seq<BreezeResult>,
    events: Seq<ResultEvent>,
    roots: Seq<Seq<(Epoch, PublicKey, Vec<Digest>)>>,
    answers: Seq<Seq<(Epoch, usize, RandomNum)>>,
    k: int,
)
    requires
        states.len() == events.len() + 1,
        roots.len() == events.len(),
        answers.len() == events.len(),
        forall|k: int| 0 <= k < events.len() ==> step_outcome(states[k], events[k], roots[k], #[trigger] states[k + 1], answers[k]),
        requests_fresh(states[0].requests_list(), states[0].reconstructed_list()),
        0 <= k < states.len(),
    ensures
        requests_fresh(states[k].requests_list(), states[k].reconstructed_list()),
    decreases k,
{
    if k > 0 {
        lemma_run_fresh(states, events, roots, answers, k - 1);
        let j = k - 1;
        assert(step_outcome(states[j], events[j], roots[j], states[j + 1], answers[j]));
        lemma_step_answers_fresh(states[j], events[j], roots[j], states[j + 1], answers[j]);
        assert(states[j + 1] == states[k]);
    }
}

/// Law: over a run of steps that starts with fresh requests (as a new
/// reconstruction does, with none), every slot is answered at most once.
pub proof fn lemma_each_slot_answered_once(
    states: Seq<BreezeResult>,
    events: Seq<ResultEvent>,
    roots: Seq<Seq<(Epoch, PublicKey, Vec<Digest>)>>,
    answers: Seq<Seq<(Epoch, usize, RandomNum)>>,
)
    requires
        states.len() == events.len() + 1,
        roots.len() == events.len(),
        answers.len() == events.len(),
        forall|k: int| 0 <= k < events.len() ==> step_outcome(states[k], events[k], roots[k], #[trigger] states[k + 1], answers[k]),
        requests_fresh(states[0].requests_list(), states[0].reconstructed_list()),
    ensures
        forall|a: int, x: int, b: int, y: int|
            0 <= a < answers.len() && 0 <= b < answers.len() && 0 <= x < answers[a].len() && 0 <= y < answers[b].len()
                && (a != b || x != y) ==> (#[trigger] answers[a][x]).0 != (#[trigger] answers[b][y]).0
                || answers[a][x].1 != answers[b][y].1,
{
    assert forall|k: int| 0 <= k < states.len() implies requests_fresh((#[trigger] states[k]).requests_list(), states[k].reconstructed_list()) by {
        lemma_run_fresh(states, events, roots, answers, k);
    }
    assert forall|a: int, x: int, b: int, y: int|
        0 <= a < answers.len() && 0 <= b < answers.len() && 0 <= x < answers[a].len() && 0 <= y < answers[b].len()
            && (a != b || x != y) implies (#[trigger] answers[a][x]).0 != (#[trigger] answers[b][y]).0
            || answers[a][x].1 != answers[b][y].1 by {
        assert(step_outcome(states[a], events[a], roots[a], states[a + 1], answers[a]));
        assert(step_outcome(states[b], events[b], roots[b], states[b + 1], answers[b]));
        lemma_step_answers_fresh(states[a], events[a], roots[a], states[a + 1], answers[a]);
        lemma_step_answers_fresh(states[b], events[b], roots[b], states[b + 1], answers[b]);
        if a < b {
            lemma_reconstructed_stays(states, events, roots, answers, a + 1, b, (answers[a][x].0, answers[a][x].1));
        } else if b < a {
            lemma_reconstructed_stays(states, events, roots, answers, b + 1, a, (answers[b][y].0, answers[b][y].1));
        } else if x > y {
            assert(answers[a][y].0 != answers[a][x].0 || answers[a][y].1 != answers[a][x].1);
        }
    }
}

/// The running sum over the first `n` digests is the sum of their secrets.
proof fn lemma_slot_total_fold(vs: Seq<(ShareKey, Seq<ZqMod>)>, committee: Committee, q: ZqMod, e: Epoch, i: usize, ds: Seq<Seq<u8>>, n: int, k: int)
    requires
        0 <= n <= ds.len(),
    ensures
        slot_total(vs, committee, q, e, i, ds, n, k) == ds.take(n).map_values(
            |d: Seq<u8>| digest_value(vs, committee, q, e, i, d, k),
        ).fold_left(0int, |acc: int, v: int| acc + v),
    decreases n,
{
    let f = |d: Seq<u8>| digest_value(vs, committee, q, e, i, d, k);
    if n > 0 {
        lemma_slot_total_fold(vs, committee, q, e, i, ds, n - 1, k);
        assert(ds.take(n).map_values(f).drop_last() =~= ds.take(n - 1).map_values(f));
        assert(ds.take(n).map_values(f).last() == f(ds[n - 1]));
    } else {
        assert(ds.take(n).map_values(f) =~= Seq::<int>::empty());
    }
}

/// Law: the reconstructed secret of a slot is, for each evaluation `k`, the
/// sum over every ready dealer digest (every dealer with enough checked
/// shares) of the secret interpolated at zero from that dealer's shares; no
/// ready dealer is left out.
pub proof fn lemma_slot_secret_sums_every_ready_dealer(
    vs: Seq<(ShareKey, Seq<ZqMod>)>,
    committee: Committee,
    q: ZqMod,
    g: usize,
    t: usize,
    e: Epoch,
    i: usize,
)
    ensures
        slot_secret(vs, committee, q, g, t, e, i).len() == g,
        forall|k: int|
            0 <= k < g ==> #[trigger] slot_secret(vs, committee, q, g, t, e, i)[k] == (ready_digests(vs, e, i, t).map_values(
                |d: Seq<u8>| digest_value(vs, committee, q, e, i, d, k),
            ).fold_left(0int, |acc: int, v: int| acc + v)) as u128,
{
    let ds = ready_digests(vs, e, i, t);
    assert forall|k: int| 0 <= k < g implies #[trigger] slot_secret(vs, committee, q, g, t, e, i)[k] == (ds.map_values(
        |d: Seq<u8>| digest_value(vs, committee, q, e, i, d, k),
    ).fold_left(0int, |acc: int, v: int| acc + v)) as u128 by {
        lemma_slot_total_fold(vs, committee, q, e, i, ds, ds.len() as int, k);
        assert(ds.take(ds.len() as int) =~= ds);
    }
}

/// A digest is among the ready ones of the first `len` entries exactly when
/// one of them holds a share of the slot under it and it has at least `t`
/// shares in all.
proof fn lemma_ready_from_members(vs: Seq<(ShareKey, Seq<ZqMod>)>, e: Epoch, i: usize, t: usize, len: int)
    requires
        0 <= len <= vs.len(),
    ensures
        forall|d: Seq<u8>| #[trigger] ready_from(vs, e, i, t, len).contains(d) <==> (count_shares(vs, e, i, d, vs.len() as int) >= t
            && exists|j: int| 0 <= j < len && (#[trigger] vs[j]).0.0 == e && vs[j].0.1 == i && vs[j].0.2 == d),
    decreases len,
{
    if len > 0 {
        lemma_ready_from_members(vs, e, i, t, len - 1);
        let prev = ready_from(vs, e, i, t, len - 1);
        let cur = ready_from(vs, e, i, t, len);
        assert forall|d: Seq<u8>| #[trigger] cur.contains(d) <==> (count_shares(vs, e, i, d, vs.len() as int) >= t
            && exists|j: int| 0 <= j < len && (#[trigger] vs[j]).0.0 == e && vs[j].0.1 == i && vs[j].0.2 == d) by {
            if cur.contains(d) {
                if prev.contains(d) {
                    let j = choose|j: int| 0 <= j < len - 1 && (#[trigger] vs[j]).0.0 == e && vs[j].0.1 == i && vs[j].0.2 == d;
                    assert(0 <= j < len);
                } else {
                    let z = choose|z: int| 0 <= z < cur.len() && cur[z] == d;
                    if cur == prev.push(vs[len - 1].0.2) {
                        if z < prev.len() {
                            assert(prev[z] == d);
                            assert(prev.contains(d));
                        }
                    }
                }
            }
            if count_shares(vs, e, i, d, vs.len() as int) >= t && exists|j: int| 0 <= j < len && (#[trigger] vs[j]).0.0 == e && vs[j].0.1 == i && vs[j].0.2 == d {
                let j = choose|j: int| 0 <= j < len && (#[trigger] vs[j]).0.0 == e && vs[j].0.1 == i && vs[j].0.2 == d;
                if j < len - 1 {
                    assert(prev.contains(d));
                    if cur == prev.push(vs[len - 1].0.2) {
                        let z = choose|z: int| 0 <= z < prev.len() && prev[z] == d;
                        assert(cur[z] == d);
                    }
                } else if !prev.contains(d) {
                    assert(cur == prev.push(d));
                    assert(cur[prev.len() as int] == d);
                }
            }
        }
    }
}

/// A digest with some share counted has a share of the slot under it.
proof fn lemma_count_shares_witness(vs: Seq<(ShareKey, Seq<ZqMod>)>, e: Epoch, i: usize, d: Seq<u8>, len: int)
    requires
        0 <= len <= vs.len(),
        count_shares(vs, e, i, d, len) >= 1,
    ensures
        exists|j: int| 0 <= j < len && (#[trigger] vs[j]).0.0 == e && vs[j].0.1 == i && vs[j].0.2 == d,
    decreases len,
{
    if !(vs[len - 1].0.0 == e && vs[len - 1].0.1 == i && vs[len - 1].0.2 == d) {
        lemma_count_shares_witness(vs, e, i, d, len - 1);
    }
}

/// Law: a request can be answered exactly when some checked share of its
/// slot is held, every requested dealer digest has at least `t` checked
/// shares for the slot, and every dealer digest with at least `t` checked
/// shares for the slot is requested: the ready dealers are the requested
/// ones, no more and no fewer.
pub proof fn lemma_request_ready_exactly(vs: Seq<(ShareKey, Seq<ZqMod>)>, r: (Seq<Seq<u8>>, Epoch, usize), t: usize)
    requires
        t >= 1,
    ensures
        request_ready(vs, r, t) <==> {
            &&& exists|j: int| 0 <= j < vs.len() && (#[trigger] vs[j]).0.0 == r.1 && vs[j].0.1 == r.2
            &&& forall|k: int| 0 <= k < r.0.len() ==> count_shares(vs, r.1, r.2, #[trigger] r.0[k], vs.len() as int) >= t
            &&& forall|j: int|
                0 <= j < vs.len() && (#[trigger] vs[j]).0.0 == r.1 && vs[j].0.1 == r.2 && count_shares(vs, r.1, r.2, vs[j].0.2, vs.len() as int) >= t
                    ==> r.0.contains(vs[j].0.2)
        },
{
    let (e, i) = (r.1, r.2);
    lemma_ready_from_members(vs, e, i, t, vs.len() as int);
    let rd = ready_digests(vs, e, i, t);
    if request_ready(vs, r, t) {
        assert forall|k: int| 0 <= k < r.0.len() implies count_shares(vs, e, i, #[trigger] r.0[k], vs.len() as int) >= t by {
            assert(r.0.contains(r.0[k]));
            assert(rd.contains(r.0[k]));
        }
        assert forall|j: int|
            0 <= j < vs.len() && (#[trigger] vs[j]).0.0 == e && vs[j].0.1 == i && count_shares(vs, e, i, vs[j].0.2, vs.len() as int) >= t
                implies r.0.contains(vs[j].0.2) by {
            assert(rd.contains(vs[j].0.2));
        }
    }
    if ({
        &&& exists|j: int| 0 <= j < vs.len() && (#[trigger] vs[j]).0.0 == e && vs[j].0.1 == i
        &&& forall|k: int| 0 <= k < r.0.len() ==> count_shares(vs, e, i, #[trigger] r.0[k], vs.len() as int) >= t
        &&& forall|j: int|
            0 <= j < vs.len() && (#[trigger] vs[j]).0.0 == e && vs[j].0.1 == i && count_shares(vs, e, i, vs[j].0.2, vs.len() as int) >= t
                ==> r.0.contains(vs[j].0.2)
    }) {
        assert forall|d: Seq<u8>| #[trigger] r.0.contains(d) <==> rd.contains(d) by {
            if r.0.contains(d) {
                let k = choose|k: int| 0 <= k < r.0.len() && r.0[k] == d;
                assert(count_shares(vs, e, i, r.0[k], vs.len() as int) >= t);
                lemma_count_shares_witness(vs, e, i, d, vs.len() as int);
            }
            if rd.contains(d) {
                let j = choose|j: int| 0 <= j < vs.len() && (#[trigger] vs[j]).0.0 == e && vs[j].0.1 == i && vs[j].0.2 == d;
                assert(count_shares(vs, e, i, vs[j].0.2, vs.len() as int) >= t);
            }
        }
    }
}

} // verus!
