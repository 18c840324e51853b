//! The result phase of the group (classic) variant of the beacon: it keeps
//! the slots asked to be reconstructed and the secrets received for them,
//! and answers a slot once the digests holding enough secrets are exactly
//! those asked for, with the beacon value of the summed interpolations.

use vstd::prelude::*;
use crate::batch_eval::{all_canonical, canonical, group_order, le_value, sadd, scalar_add, scalar_from_u64, vals, ScalarBytes};
use crate::classic::{classic_lagrange_at_zero, id_points, lemma_le_value_bound, ClassicReconResult};
use crate::config::{index_of, Committee};
use crate::crypto::{Digest, PublicKey};
use crate::types_and_const::{Epoch, Id, RandomNum};

verus! {

/// One secret of a dealer's polynomial, sent for reconstruction.
pub struct ClassicSingleShare {
    pub c: Digest,
    pub y: ScalarBytes,
}

/// The secrets a party sends for the slot `(epoch, index)`.
pub struct ClassicReconstructShare {
    pub secrets: Vec<ClassicSingleShare>,
    pub epoch: Epoch,
    pub index: usize,
}

/// An input of the result phase.
pub enum ClassicResultEvent {
    /// Reconstruct slot `(epoch, index)` from the dealers with these digests.
    Request(Vec<Digest>, Epoch, usize),
    /// Secrets from a party.
    Shares(PublicKey, ClassicReconstructShare),
}

/// A received secret: slot, dealer's digest, sender and value.
pub type ClassicEntry = (Epoch, usize, Digest, PublicKey, ScalarBytes);

/// A request to reconstruct a slot: the dealers' digests and the slot.
pub type ClassicRequest = (Vec<Digest>, Epoch, usize);

/// A received secret as values.
pub open spec fn ekey(e: ClassicEntry) -> (Epoch, usize, Seq<u8>, Seq<u8>, Seq<u8>) {
    (e.0, e.1, e.2.0@, e.3@, e.4@)
}

/// The state of the result phase.
pub struct ClassicResult {
    pub committee: Committee,
    pub threshold: usize,
    pub requests: Vec<ClassicRequest>,
    pub shares: Vec<ClassicEntry>,
    /// The slots for which a message of secrets arrived since they were
    /// last answered.
    pub seen: Vec<(Epoch, usize)>,
    pub reconstructed: Vec<(Epoch, usize)>,
}

/// The digests of a request are distinct (they form a set).
pub open spec fn digests_distinct(d: Seq<Digest>) -> bool {
    forall|a: int, b: int| 0 <= a < b < d.len() ==> (#[trigger] d[a]).0@ != (#[trigger] d[b]).0@
}

/// The received secrets are distinct, reduced and from members.
pub open spec fn entries_ok(es: Seq<ClassicEntry>, c: Committee) -> bool {
    &&& forall|a: int, b: int| 0 <= a < b < es.len() ==> ekey(#[trigger] es[a]) != ekey(#[trigger] es[b])
    &&& forall|a: int| 0 <= a < es.len() ==> canonical((#[trigger] es[a]).4) && index_of(c.authorities@, es[a].3@) >= 0
}

impl ClassicResult {
    /// The threshold is positive, the received secrets are distinct, reduced
    /// and from members, and every request's digests form a set.
    pub open spec fn wf(&self) -> bool {
        &&& self.threshold >= 1
        &&& self.committee.authorities@.len() < usize::MAX
        &&& entries_ok(self.shares@, self.committee)
        &&& forall|k: int| 0 <= k < self.requests@.len() ==> digests_distinct((#[trigger] self.requests@[k]).0@)
    }

    /// Nothing received, answering slots once `threshold` secrets of every
    /// asked dealer are in.
    pub fn new(committee: Committee, threshold: usize) -> (s: Self)
        requires
            threshold >= 1,
            committee.authorities@.len() < usize::MAX,
        ensures
            s.wf(),
            s.committee == committee,
            s.threshold == threshold,
            s.requests@.len() == 0,
            s.shares@.len() == 0,
            s.seen@.len() == 0,
            s.reconstructed@.len() == 0,
    {
        ClassicResult { committee, threshold, requests: Vec::new(), shares: Vec::new(), seen: Vec::new(), reconstructed: Vec::new() }
    }
}

// ---- counting the secrets of a slot ----

/// The secrets among the first `len` for slot `(e, i)` and digest `c`, in order.
pub open spec fn slot_secrets(es: Seq<ClassicEntry>, e: Epoch, i: usize, c: Seq<u8>, len: int) -> Seq<ClassicEntry>
    decreases len,
{
    if len <= 0 {
        Seq::empty()
    } else {
        let prev = slot_secrets(es, e, i, c, len - 1);
        let x = es[len - 1];
        if x.0 == e && x.1 == i && x.2.0@ == c {
            prev.push(x)
        } else {
            prev
        }
    }
}

/// The number of secrets received for slot `(e, i)` and digest `c`.
pub open spec fn secret_count(es: Seq<ClassicEntry>, e: Epoch, i: usize, c: Seq<u8>) -> nat {
    slot_secrets(es, e, i, c, es.len() as int).len()
}

/// The evaluation points of the senders: their ids (position + 1) as scalars.
pub open spec fn sender_points(ss: Seq<ClassicEntry>, c: Committee) -> Seq<nat> {
    Seq::new(ss.len(), |k: int| ((index_of(c.authorities@, ss[k].3@) + 1) as nat) % group_order())
}

/// The values of the secrets.
pub open spec fn secret_values(ss: Seq<ClassicEntry>) -> Seq<ScalarBytes> {
    Seq::new(ss.len(), |k: int| ss[k].4)
}

/// The request can be answered: every asked digest has at least `th`
/// secrets, and every digest with that many for the slot is asked.
pub open spec fn request_ready(es: Seq<ClassicEntry>, th: usize, r: ClassicRequest) -> bool {
    &&& forall|k: int| 0 <= k < r.0@.len() ==> secret_count(es, r.1, r.2, (#[trigger] r.0@[k]).0@) >= th
    &&& forall|j: int|
        0 <= j < es.len() && (#[trigger] es[j]).0 == r.1 && es[j].1 == r.2 && secret_count(es, r.1, r.2, es[j].2.0@) >= th
            ==> exists|k: int| 0 <= k < r.0@.len() && (#[trigger] r.0@[k]).0@ == es[j].2.0@
}

/// The request can be answered: a message of secrets arrived for its slot,
/// and the digests with enough secrets are exactly those asked for.
pub open spec fn ready_in(seen: Seq<(Epoch, usize)>, es: Seq<ClassicEntry>, th: usize, r: ClassicRequest) -> bool {
    seen.contains(rslot(r)) && request_ready(es, th, r)
}

/// The interpolation at zero of the secrets of digest `c` for slot `(e, i)`.
pub open spec fn digest_secret(es: Seq<ClassicEntry>, c: Committee, e: Epoch, i: usize, d: Seq<u8>) -> nat {
    let ss = slot_secrets(es, e, i, d, es.len() as int);
    classic_lagrange_at_zero(sender_points(ss, c), vals(secret_values(ss)))
}

/// The sum of the secrets of the first `k` asked digests.
pub open spec fn summed_secret(es: Seq<ClassicEntry>, c: Committee, r: ClassicRequest, k: int) -> nat
    decreases k,
{
    if k <= 0 {
        0
    } else {
        sadd(summed_secret(es, c, r, k - 1), digest_secret(es, c, r.1, r.2, r.0@[k - 1].0@))
    }
}

/// The beacon value of a slot: the low 128 bits of the summed secret.
pub open spec fn request_value(es: Seq<ClassicEntry>, c: Committee, r: ClassicRequest) -> nat {
    summed_secret(es, c, r, r.0@.len() as int) % two_pow_128()
}

/// `2^128`.
pub open spec fn two_pow_128() -> nat {
    0x1_0000_0000_0000_0000_0000_0000_0000_0000nat
}

/// A little-endian value splits at any point.
pub proof fn lemma_le_value_append(a: Seq<u8>, b: Seq<u8>)
    ensures
        le_value(a + b) == le_value(a) + vstd::arithmetic::power::pow(256, a.len()) * le_value(b),
    decreases a.len(),
{
    if a.len() == 0 {
        assert(a + b =~= b);
        vstd::arithmetic::power::lemma_pow0(256);
    } else {
        lemma_le_value_append(a.drop_first(), b);
        assert((a + b).drop_first() =~= a.drop_first() + b);
        vstd::arithmetic::power::lemma_pow_adds(256, 1, a.drop_first().len());
        vstd::arithmetic::power::lemma_pow1(256);
        let p = vstd::arithmetic::power::pow(256, a.drop_first().len());
        assert(256 * (le_value(a.drop_first()) + p * le_value(b)) == 256 * le_value(a.drop_first()) + (256 * p) * le_value(b)) by (nonlinear_arith);
    }
}

/// The first 16 bytes of a 32-byte encoding give its value modulo `2^128`.
proof fn lemma_low_half(s: Seq<u8>)
    requires
        s.len() == 32,
    ensures
        le_value(s.subrange(0, 16)) == le_value(s) % two_pow_128(),
{
    let lo = s.subrange(0, 16);
    let hi = s.subrange(16, 32);
    assert(s =~= lo + hi);
    lemma_le_value_append(lo, hi);
    lemma_le_value_bound(lo);
    assert(vstd::arithmetic::power::pow(256, 16) == two_pow_128()) by {
        reveal_with_fuel(vstd::arithmetic::power::pow, 17);
    }
    let p = two_pow_128() as int;
    let h = le_value(hi) as int;
    assert(p * h == h * p) by (nonlinear_arith);
    assert(le_value(s) as int == h * p + le_value(lo) as int);
    vstd::arithmetic::div_mod::lemma_fundamental_div_mod_converse(
        le_value(s) as int,
        two_pow_128() as int,
        le_value(hi) as int,
        le_value(lo) as int,
    );
}

impl ClassicResult {
    /// How many secrets were received for slot `(e, i)` and digest `c`.
    fn count_secrets(&self, e: Epoch, i: usize, c: &Digest) -> (n: usize)
        ensures
            n == secret_count(self.shares@, e, i, c.0@),
    {
        let mut n: usize = 0;
        let mut j: usize = 0;
        while j < self.shares.len()
            invariant
                j <= self.shares@.len(),
                n == slot_secrets(self.shares@, e, i, c.0@, j as int).len(),
                n <= j,
            decreases self.shares.len() - j,
        {
            let x = &self.shares[j];
            if x.0 == e && x.1 == i && crate::crypto::bytes_eq(&x.2.0, &c.0) {
                n = n + 1;
            }
            j = j + 1;
        }
        n
    }

    /// The ids of the senders and the values of the secrets for slot
    /// `(e, i)` and digest `c`, in the order received.
    fn collect_secrets(&self, e: Epoch, i: usize, c: &Digest) -> (r: (Vec<Id>, Vec<ScalarBytes>))
        requires
            self.wf(),
        ensures
            r.0@.len() == r.1@.len(),
            all_canonical(r.1@),
            id_points(r.0@) == sender_points(slot_secrets(self.shares@, e, i, c.0@, self.shares@.len() as int), self.committee),
            r.1@ == secret_values(slot_secrets(self.shares@, e, i, c.0@, self.shares@.len() as int)),
    {
        let mut ids: Vec<Id> = Vec::new();
        let mut ys: Vec<ScalarBytes> = Vec::new();
        let mut j: usize = 0;
        while j < self.shares.len()
            invariant
                j <= self.shares@.len(),
                self.wf(),
                ids@.len() == ys@.len(),
                all_canonical(ys@),
                id_points(ids@) == sender_points(slot_secrets(self.shares@, e, i, c.0@, j as int), self.committee),
                ys@ == secret_values(slot_secrets(self.shares@, e, i, c.0@, j as int)),
            decreases self.shares.len() - j,
        {
            let x = &self.shares[j];
            let ghost before = slot_secrets(self.shares@, e, i, c.0@, j as int);
            if x.0 == e && x.1 == i && crate::crypto::bytes_eq(&x.2.0, &c.0) {
                assert(canonical(self.shares@[j as int].4) && index_of(self.committee.authorities@, self.shares@[j as int].3@) >= 0);
                let id = match self.committee.get_id(&x.3) {
                    Some(id) => id,
                    None => {
                        proof {
                            assert(false);
                        }
                        0
                    },
                };
                let ghost ids0 = ids@;
                ids.push(id);
                ys.push(x.4);
                proof {
                    let after = slot_secrets(self.shares@, e, i, c.0@, j + 1);
                    assert(after == before.push(*x));
                    assert(id_points(ids@) =~= sender_points(after, self.committee)) by {
                        assert forall|k: int| 0 <= k < ids@.len() implies id_points(ids@)[k] == sender_points(after, self.committee)[k] by {
                            if k < ids0.len() {
                                assert(ids@[k] == ids0[k]);
                                assert(id_points(ids0)[k] == sender_points(before, self.committee)[k]);
                            }
                        }
                    }
                    assert(ys@ =~= secret_values(after));
                }
            } else {
                proof {
                    assert(slot_secrets(self.shares@, e, i, c.0@, j + 1) == before);
                }
            }
            j = j + 1;
        }
        (ids, ys)
    }

    /// Whether request `r` can be answered.
    fn is_ready(&self, r: &ClassicRequest) -> (b: bool)
        ensures
            b == request_ready(self.shares@, self.threshold, *r),
    {
        let mut k: usize = 0;
        while k < r.0.len()
            invariant
                k <= r.0@.len(),
                forall|a: int| 0 <= a < k ==> secret_count(self.shares@, r.1, r.2, (#[trigger] r.0@[a]).0@) >= self.threshold,
            decreases r.0.len() - k,
        {
            if self.count_secrets(r.1, r.2, &r.0[k]) < self.threshold {
                return false;
            }
            k = k + 1;
        }
        let mut j: usize = 0;
        while j < self.shares.len()
            invariant
                j <= self.shares@.len(),
                forall|a: int|
                    0 <= a < j && (#[trigger] self.shares@[a]).0 == r.1 && self.shares@[a].1 == r.2 && secret_count(self.shares@, r.1, r.2, self.shares@[a].2.0@) >= self.threshold
                        ==> exists|k: int| 0 <= k < r.0@.len() && (#[trigger] r.0@[k]).0@ == self.shares@[a].2.0@,
            decreases self.shares.len() - j,
        {
            let x = &self.shares[j];
            if x.0 == r.1 && x.1 == r.2 && self.count_secrets(r.1, r.2, &x.2) >= self.threshold {
                let mut found = false;
                let mut k: usize = 0;
                while k < r.0.len()
                    invariant
                        k <= r.0@.len(),
                        found ==> exists|m: int| 0 <= m < r.0@.len() && (#[trigger] r.0@[m]).0@ == x.2.0@,
                        !found ==> forall|m: int| 0 <= m < k ==> (#[trigger] r.0@[m]).0@ != x.2.0@,
                    decreases r.0.len() - k,
                {
                    if crate::crypto::bytes_eq(&r.0[k].0, &x.2.0) {
                        found = true;
                    }
                    k = k + 1;
                }
                if !found {
                    proof {
                        assert(self.shares@[j as int] == *x);
                    }
                    return false;
                }
            }
            j = j + 1;
        }
        true
    }
}

impl ClassicResult {
    /// The beacon value of request `r`: the secrets of every asked digest
    /// interpolated at zero, summed, and read as the low 128 bits.
    fn slot_value(&self, r: &ClassicRequest) -> (v: RandomNum)
        requires
            self.wf(),
        ensures
            v == request_value(self.shares@, self.committee, *r),
    {
        let mut total = scalar_from_u64(0);
        let mut k: usize = 0;
        while k < r.0.len()
            invariant
                k <= r.0@.len(),
                self.wf(),
                canonical(total),
                le_value(total@) == summed_secret(self.shares@, self.committee, *r, k as int),
            decreases r.0.len() - k,
        {
            let (ids, ys) = self.collect_secrets(r.1, r.2, &r.0[k]);
            let part = ClassicReconResult::interpolate(&ids, &ys);
            proof {
                crate::batch_eval::lemma_canonical_sv(total);
                crate::batch_eval::lemma_canonical_sv(part);
            }
            total = scalar_add(&total, &part);
            k = k + 1;
        }
        proof {
            lemma_low_half(total@);
        }
        ClassicReconResult::new(total).secret_to_number()
    }
}

// ---- answering requests ----

/// The requests among the first `len` that can be answered, in order.
pub open spec fn done_of(reqs: Seq<ClassicRequest>, es: Seq<ClassicEntry>, seen: Seq<(Epoch, usize)>, th: usize, len: int) -> Seq<ClassicRequest>
    decreases len,
{
    if len <= 0 {
        Seq::empty()
    } else {
        let prev = done_of(reqs, es, seen, th, len - 1);
        if ready_in(seen, es, th, reqs[len - 1]) {
            prev.push(reqs[len - 1])
        } else {
            prev
        }
    }
}

/// The requests among the first `len` that cannot be answered yet, in order.
pub open spec fn kept_of(reqs: Seq<ClassicRequest>, es: Seq<ClassicEntry>, seen: Seq<(Epoch, usize)>, th: usize, len: int) -> Seq<ClassicRequest>
    decreases len,
{
    if len <= 0 {
        Seq::empty()
    } else {
        let prev = kept_of(reqs, es, seen, th, len - 1);
        if ready_in(seen, es, th, reqs[len - 1]) {
            prev
        } else {
            prev.push(reqs[len - 1])
        }
    }
}

/// The slot of a request.
pub open spec fn rslot(r: ClassicRequest) -> (Epoch, usize) {
    (r.1, r.2)
}

/// The slots of the requests.
pub open spec fn rslots(rs: Seq<ClassicRequest>) -> Seq<(Epoch, usize)> {
    Seq::new(rs.len(), |k: int| rslot(rs[k]))
}

/// The secrets among the first `len` whose slot is not among `slots`.
pub open spec fn drop_slots(es: Seq<ClassicEntry>, slots: Seq<(Epoch, usize)>, len: int) -> Seq<ClassicEntry>
    decreases len,
{
    if len <= 0 {
        Seq::empty()
    } else {
        let prev = drop_slots(es, slots, len - 1);
        if slots.contains((es[len - 1].0, es[len - 1].1)) {
            prev
        } else {
            prev.push(es[len - 1])
        }
    }
}

/// The slots among the first `len` that are not among `slots`.
pub open spec fn drop_seen(seen: Seq<(Epoch, usize)>, slots: Seq<(Epoch, usize)>, len: int) -> Seq<(Epoch, usize)>
    decreases len,
{
    if len <= 0 {
        Seq::empty()
    } else {
        let prev = drop_seen(seen, slots, len - 1);
        if slots.contains(seen[len - 1]) {
            prev
        } else {
            prev.push(seen[len - 1])
        }
    }
}

/// The answers to the answered requests: slot and beacon value.
pub open spec fn answers_of(done: Seq<ClassicRequest>, es: Seq<ClassicEntry>, c: Committee) -> Seq<(Epoch, usize, RandomNum)> {
    Seq::new(done.len(), |k: int| (done[k].1, done[k].2, request_value(es, c, done[k]) as RandomNum))
}

/// Whether slot `(e, i)` is asked for already.
pub open spec fn slot_held(reqs: Seq<ClassicRequest>, e: Epoch, i: usize) -> bool {
    exists|j: int| 0 <= j < reqs.len() && (#[trigger] reqs[j]).1 == e && reqs[j].2 == i
}

/// The secrets after the first `n` secrets of a message from `sender` are
/// added, each unless received already.
pub open spec fn add_secrets(es: Seq<ClassicEntry>, sender: PublicKey, sh: ClassicReconstructShare, n: int) -> Seq<ClassicEntry>
    decreases n,
{
    if n <= 0 {
        es
    } else {
        let prev = add_secrets(es, sender, sh, n - 1);
        let x = sh.secrets@[n - 1];
        let en: ClassicEntry = (sh.epoch, sh.index, x.c, sender, x.y);
        if exists|j: int| 0 <= j < prev.len() && ekey(#[trigger] prev[j]) == ekey(en) {
            prev
        } else {
            prev.push(en)
        }
    }
}

/// The requests and the secrets after the event itself.
pub open spec fn event_state(s: ClassicResult, ev: ClassicResultEvent) -> (Seq<ClassicRequest>, Seq<ClassicEntry>, Seq<(Epoch, usize)>) {
    match ev {
        ClassicResultEvent::Request(d, e, i) => {
            if s.reconstructed@.contains((e, i)) || slot_held(s.requests@, e, i) {
                (s.requests@, s.shares@, s.seen@)
            } else {
                (s.requests@.push((d, e, i)), s.shares@, s.seen@)
            }
        },
        ClassicResultEvent::Shares(sender, sh) => (
            s.requests@,
            add_secrets(s.shares@, sender, sh, sh.secrets@.len() as int),
            if s.seen@.contains((sh.epoch, sh.index)) {
                s.seen@
            } else {
                s.seen@.push((sh.epoch, sh.index))
            },
        ),
    }
}

/// One step: the event is recorded, then every request that can be
/// answered is answered (in the order of the requests), dropped, its slot
/// marked reconstructed and its secrets forgotten.
pub open spec fn classic_step_outcome(
    s: ClassicResult,
    ev: ClassicResultEvent,
    t: ClassicResult,
    answers: Seq<(Epoch, usize, RandomNum)>,
) -> bool {
    let (reqs, es, seen) = event_state(s, ev);
    let done = done_of(reqs, es, seen, s.threshold, reqs.len() as int);
    &&& t.committee == s.committee
    &&& t.threshold == s.threshold
    &&& t.requests@ == kept_of(reqs, es, seen, s.threshold, reqs.len() as int)
    &&& t.shares@ == drop_slots(es, rslots(done), es.len() as int)
    &&& t.seen@ == drop_seen(seen, rslots(done), seen.len() as int)
    &&& t.reconstructed@ == s.reconstructed@ + rslots(done)
    &&& answers == answers_of(done, es, s.committee)
}

/// What a step needs of an event: a request's digests form a set; secrets
/// come from a member and are reduced scalars.
pub open spec fn classic_event_ok(s: ClassicResult, ev: ClassicResultEvent) -> bool {
    match ev {
        ClassicResultEvent::Request(d, e, i) => digests_distinct(d@),
        ClassicResultEvent::Shares(sender, sh) => {
            &&& index_of(s.committee.authorities@, sender@) >= 0
            &&& forall|k: int| 0 <= k < sh.secrets@.len() ==> canonical((#[trigger] sh.secrets@[k]).y)
        },
    }
}

/// Every secret kept after dropping slots is one of the secrets, and the
/// kept secrets are as well formed as all of them.
proof fn lemma_drop_slots(es: Seq<ClassicEntry>, slots: Seq<(Epoch, usize)>, len: int, c: Committee)
    requires
        0 <= len <= es.len(),
        entries_ok(es, c),
    ensures
        forall|x: int| 0 <= x < drop_slots(es, slots, len).len() ==> exists|j: int| 0 <= j < len && #[trigger] drop_slots(es, slots, len)[x] == es[j],
        entries_ok(drop_slots(es, slots, len), c),
    decreases len,
{
    if len > 0 {
        lemma_drop_slots(es, slots, len - 1, c);
        let prev = drop_slots(es, slots, len - 1);
        let cur = drop_slots(es, slots, len);
        if !slots.contains((es[len - 1].0, es[len - 1].1)) {
            assert(cur == prev.push(es[len - 1]));
            assert forall|x: int| 0 <= x < cur.len() implies exists|j: int| 0 <= j < len && #[trigger] cur[x] == es[j] by {
                if x < prev.len() {
                    let j = choose|j: int| 0 <= j < len - 1 && #[trigger] prev[x] == es[j];
                    assert(cur[x] == es[j]);
                } else {
                    assert(cur[x] == es[len - 1]);
                }
            }
            assert forall|a: int, b: int| 0 <= a < b < cur.len() implies ekey(#[trigger] cur[a]) != ekey(#[trigger] cur[b]) by {
                assert(cur[a] == prev[a]);
                if b < prev.len() {
                    assert(cur[b] == prev[b]);
                } else {
                    let j = choose|j: int| 0 <= j < len - 1 && #[trigger] prev[a] == es[j];
                    assert(ekey(es[j]) != ekey(es[len - 1]));
                }
            }
            assert forall|a: int| 0 <= a < cur.len() implies canonical((#[trigger] cur[a]).4) && index_of(c.authorities@, cur[a].3@) >= 0 by {
                if a < prev.len() {
                    assert(cur[a] == prev[a]);
                }
            }
        }
    }
}

/// Every request kept or answered is one of the requests.
proof fn lemma_done_kept_among(reqs: Seq<ClassicRequest>, es: Seq<ClassicEntry>, seen: Seq<(Epoch, usize)>, th: usize, len: int)
    requires
        0 <= len <= reqs.len(),
    ensures
        forall|x: int| 0 <= x < done_of(reqs, es, seen, th, len).len() ==> exists|j: int| 0 <= j < len && #[trigger] done_of(reqs, es, seen, th, len)[x] == reqs[j],
        forall|x: int| 0 <= x < kept_of(reqs, es, seen, th, len).len() ==> exists|j: int| 0 <= j < len && #[trigger] kept_of(reqs, es, seen, th, len)[x] == reqs[j],
    decreases len,
{
    if len > 0 {
        lemma_done_kept_among(reqs, es, seen, th, len - 1);
        let pd = done_of(reqs, es, seen, th, len - 1);
        let pk = kept_of(reqs, es, seen, th, len - 1);
        let d = done_of(reqs, es, seen, th, len);
        let k = kept_of(reqs, es, seen, th, len);
        assert forall|x: int| 0 <= x < d.len() implies exists|j: int| 0 <= j < len && #[trigger] d[x] == reqs[j] by {
            if x < pd.len() {
                let j = choose|j: int| 0 <= j < len - 1 && #[trigger] pd[x] == reqs[j];
                assert(d[x] == reqs[j]);
            } else {
                assert(d[x] == reqs[len - 1]);
            }
        }
        assert forall|x: int| 0 <= x < k.len() implies exists|j: int| 0 <= j < len && #[trigger] k[x] == reqs[j] by {
            if x < pk.len() {
                let j = choose|j: int| 0 <= j < len - 1 && #[trigger] pk[x] == reqs[j];
                assert(k[x] == reqs[j]);
            } else {
                assert(k[x] == reqs[len - 1]);
            }
        }
    }
}

/// A copy of the digests.
fn copy_digests(d: &Vec<Digest>) -> (r: Vec<Digest>)
    ensures
        r@ == d@,
{
    let mut r: Vec<Digest> = Vec::new();
    let mut k: usize = 0;
    while k < d.len()
        invariant
            k <= d@.len(),
            r@ == d@.subrange(0, k as int),
        decreases d.len() - k,
    {
        r.push(Digest(d[k].0));
        proof {
            assert(Digest(d@[k as int].0) == d@[k as int]);
            assert(r@ =~= d@.subrange(0, k + 1));
        }
        k = k + 1;
    }
    assert(r@ =~= d@);
    r
}

impl ClassicResult {
    /// Whether the received secrets hold one with this key.
    fn holds(&self, e: Epoch, i: usize, c: &Digest, sender: &PublicKey, y: &ScalarBytes) -> (b: bool)
        ensures
            b == exists|j: int| 0 <= j < self.shares@.len() && ekey(#[trigger] self.shares@[j]) == (e, i, c.0@, sender@, y@),
    {
        let mut j: usize = 0;
        while j < self.shares.len()
            invariant
                j <= self.shares@.len(),
                forall|a: int| 0 <= a < j ==> ekey(#[trigger] self.shares@[a]) != (e, i, c.0@, sender@, y@),
            decreases self.shares.len() - j,
        {
            let x = &self.shares[j];
            if x.0 == e && x.1 == i && crate::crypto::bytes_eq(&x.2.0, &c.0) && x.3.same(sender) && crate::crypto::bytes_eq(&x.4, y) {
                assert(ekey(self.shares@[j as int]) == (e, i, c.0@, sender@, y@));
                return true;
            }
            j = j + 1;
        }
        false
    }

    /// Whether a message of secrets arrived for slot `(e, i)`.
    fn has_seen(&self, e: Epoch, i: usize) -> (b: bool)
        ensures
            b == self.seen@.contains((e, i)),
    {
        let mut k: usize = 0;
        while k < self.seen.len()
            invariant
                k <= self.seen@.len(),
                forall|a: int| 0 <= a < k ==> self.seen@[a] != (e, i),
            decreases self.seen.len() - k,
        {
            if self.seen[k].0 == e && self.seen[k].1 == i {
                assert(self.seen@[k as int] == (e, i));
                return true;
            }
            k = k + 1;
        }
        false
    }

    /// Records the secrets of a message from `sender`, each unless received
    /// already, and that a message arrived for its slot.
    fn on_shares(&mut self, sender: PublicKey, sh: &ClassicReconstructShare)
        requires
            old(self).wf(),
            index_of(old(self).committee.authorities@, sender@) >= 0,
            forall|a: int| 0 <= a < sh.secrets@.len() ==> canonical((#[trigger] sh.secrets@[a]).y),
        ensures
            final(self).wf(),
            final(self).committee == old(self).committee,
            final(self).threshold == old(self).threshold,
            final(self).requests@ == old(self).requests@,
            final(self).reconstructed@ == old(self).reconstructed@,
            final(self).shares@ == add_secrets(old(self).shares@, sender, *sh, sh.secrets@.len() as int),
            final(self).seen@ == if old(self).seen@.contains((sh.epoch, sh.index)) {
                old(self).seen@
            } else {
                old(self).seen@.push((sh.epoch, sh.index))
            },
    {
        if !self.has_seen(sh.epoch, sh.index) {
            self.seen.push((sh.epoch, sh.index));
        }
        let ghost es0 = self.shares@;
        let mut k: usize = 0;
        while k < sh.secrets.len()
            invariant
                k <= sh.secrets@.len(),
                self.wf(),
                self.committee == old(self).committee,
                self.threshold == old(self).threshold,
                self.requests@ == old(self).requests@,
                self.reconstructed@ == old(self).reconstructed@,
                self.seen@ == (if old(self).seen@.contains((sh.epoch, sh.index)) {
                    old(self).seen@
                } else {
                    old(self).seen@.push((sh.epoch, sh.index))
                }),
                es0 == old(self).shares@,
                index_of(self.committee.authorities@, sender@) >= 0,
                forall|a: int| 0 <= a < sh.secrets@.len() ==> canonical((#[trigger] sh.secrets@[a]).y),
                self.shares@ == add_secrets(es0, sender, *sh, k as int),
            decreases sh.secrets.len() - k,
        {
            let x = &sh.secrets[k];
            let ghost en: ClassicEntry = (sh.epoch, sh.index, x.c, sender, x.y);
            if !self.holds(sh.epoch, sh.index, &x.c, &sender, &x.y) {
                let ghost before = self.shares@;
                self.shares.push((sh.epoch, sh.index, Digest(x.c.0), sender, x.y));
                proof {
                    assert(Digest(x.c.0) == x.c);
                    assert(self.shares@ == before.push(en));
                    assert forall|a: int, b: int| 0 <= a < b < self.shares@.len() implies ekey(#[trigger] self.shares@[a]) != ekey(#[trigger] self.shares@[b]) by {
                        assert(self.shares@[a] == before[a]);
                        if b < before.len() {
                            assert(self.shares@[b] == before[b]);
                        }
                    }
                    assert forall|a: int| 0 <= a < self.shares@.len() implies canonical((#[trigger] self.shares@[a]).4) && index_of(self.committee.authorities@, self.shares@[a].3@) >= 0 by {
                        if a < before.len() {
                            assert(self.shares@[a] == before[a]);
                        }
                    }
                }
            }
            k = k + 1;
        }
    }

    /// Records a request for slot `(e, i)` unless the slot was
    /// reconstructed or is asked for already.
    fn on_request(&mut self, d: Vec<Digest>, e: Epoch, i: usize)
        requires
            old(self).wf(),
            digests_distinct(d@),
        ensures
            final(self).wf(),
            final(self).committee == old(self).committee,
            final(self).threshold == old(self).threshold,
            final(self).shares@ == old(self).shares@,
            final(self).seen@ == old(self).seen@,
            final(self).reconstructed@ == old(self).reconstructed@,
            final(self).requests@ == if old(self).reconstructed@.contains((e, i)) || slot_held(old(self).requests@, e, i) {
                old(self).requests@
            } else {
                old(self).requests@.push((d, e, i))
            },
    {
        let mut k: usize = 0;
        while k < self.reconstructed.len()
            invariant
                k <= self.reconstructed@.len(),
                self.wf(),
                forall|a: int| 0 <= a < k ==> self.reconstructed@[a] != (e, i),
            decreases self.reconstructed.len() - k,
        {
            if self.reconstructed[k].0 == e && self.reconstructed[k].1 == i {
                assert(self.reconstructed@[k as int] == (e, i));
                return;
            }
            k = k + 1;
        }
        let mut j: usize = 0;
        while j < self.requests.len()
            invariant
                j <= self.requests@.len(),
                self.wf(),
                forall|a: int| 0 <= a < j ==> !((#[trigger] self.requests@[a]).1 == e && self.requests@[a].2 == i),
            decreases self.requests.len() - j,
        {
            if self.requests[j].1 == e && self.requests[j].2 == i {
                assert(self.requests@[j as int].1 == e && self.requests@[j as int].2 == i);
                return;
            }
            j = j + 1;
        }
        let ghost before = self.requests@;
        self.requests.push((d, e, i));
        proof {
            assert forall|a: int| 0 <= a < self.requests@.len() implies digests_distinct((#[trigger] self.requests@[a]).0@) by {
                if a < before.len() {
                    assert(self.requests@[a] == before[a]);
                }
            }
        }
    }

    /// Answers every request that can be answered, in order: drops it,
    /// marks its slot reconstructed and forgets its secrets.
    fn reconcile(&mut self) -> (answers: Vec<(Epoch, usize, RandomNum)>)
        requires
            old(self).wf(),
        ensures
            final(self).wf(),
            final(self).committee == old(self).committee,
            final(self).threshold == old(self).threshold,
            ({
                let reqs = old(self).requests@;
                let es = old(self).shares@;
                let seen = old(self).seen@;
                let done = done_of(reqs, es, seen, old(self).threshold, reqs.len() as int);
                &&& final(self).requests@ == kept_of(reqs, es, seen, old(self).threshold, reqs.len() as int)
                &&& final(self).shares@ == drop_slots(es, rslots(done), es.len() as int)
                &&& final(self).seen@ == drop_seen(seen, rslots(done), seen.len() as int)
                &&& final(self).reconstructed@ == old(self).reconstructed@ + rslots(done)
                &&& answers@ == answers_of(done, es, old(self).committee)
            }),
    {
        let ghost reqs = self.requests@;
        let ghost es = self.shares@;
        let ghost seen = self.seen@;
        let th = self.threshold;
        let mut answers: Vec<(Epoch, usize, RandomNum)> = Vec::new();
        let mut kept: Vec<ClassicRequest> = Vec::new();
        let mut slots: Vec<(Epoch, usize)> = Vec::new();
        let mut owned: Vec<ClassicRequest> = Vec::new();
        std::mem::swap(&mut owned, &mut self.requests);
        assert(owned@ == reqs);
        let n = owned.len();
        let mut k: usize = 0;
        while k < n
            invariant
                k <= n,
                n == reqs.len(),
                self.wf(),
                self.committee == old(self).committee,
                self.threshold == old(self).threshold,
                self.reconstructed@ == old(self).reconstructed@,
                self.requests@.len() == 0,
                owned@ == reqs.subrange(k as int, n as int),
                self.shares@ == es,
                self.seen@ == seen,
                th == self.threshold,
                answers@ == answers_of(done_of(reqs, es, seen, th, k as int), es, self.committee),
                kept@ == kept_of(reqs, es, seen, th, k as int),
                slots@ == rslots(done_of(reqs, es, seen, th, k as int)),
            decreases n - k,
        {
            let r = owned.remove(0);
            assert(r == reqs[k as int]);
            proof {
                assert(owned@ =~= reqs.subrange(k + 1, n as int));
            }
            let ghost pd = done_of(reqs, es, seen, th, k as int);
            if self.has_seen(r.1, r.2) && self.is_ready(&r) {
                let v = self.slot_value(&r);
                answers.push((r.1, r.2, v));
                slots.push((r.1, r.2));
                proof {
                    let d = done_of(reqs, es, seen, th, k + 1);
                    assert(d == pd.push(reqs[k as int]));
                    assert(answers@ =~= answers_of(d, es, self.committee));
                    assert(slots@ =~= rslots(d));
                }
            } else {
                kept.push(r);
                proof {
                    assert(done_of(reqs, es, seen, th, k + 1) == pd);
                }
            }
            k = k + 1;
        }
        let ghost done = done_of(reqs, es, seen, th, reqs.len() as int);
        let mut remaining: Vec<ClassicEntry> = Vec::new();
        let mut j: usize = 0;
        while j < self.shares.len()
            invariant
                j <= es.len(),
                self.wf(),
                self.committee == old(self).committee,
                self.threshold == old(self).threshold,
                self.reconstructed@ == old(self).reconstructed@,
                self.shares@ == es,
                self.seen@ == seen,
                slots@ == rslots(done),
                remaining@ == drop_slots(es, rslots(done), j as int),
            decreases es.len() - j,
        {
            let x = &self.shares[j];
            let mut found = false;
            let mut m: usize = 0;
            while m < slots.len()
                invariant
                    m <= slots@.len(),
                    found == exists|z: int| 0 <= z < m && slots@[z] == (x.0, x.1),
                decreases slots.len() - m,
            {
                if slots[m].0 == x.0 && slots[m].1 == x.1 {
                    found = true;
                }
                m = m + 1;
            }
            if !found {
                remaining.push((x.0, x.1, Digest(x.2.0), x.3, x.4));
                proof {
                    assert(Digest(x.2.0) == x.2);
                }
            }
            j = j + 1;
        }
        proof {
            lemma_drop_slots(es, rslots(done), es.len() as int, self.committee);
            lemma_done_kept_among(reqs, es, seen, th, reqs.len() as int);
            assert forall|a: int| 0 <= a < kept@.len() implies digests_distinct((#[trigger] kept@[a]).0@) by {
                let jj = choose|jj: int| 0 <= jj < reqs.len() && #[trigger] kept_of(reqs, es, seen, th, reqs.len() as int)[a] == reqs[jj];
                assert(digests_distinct(reqs[jj].0@));
            }
        }
        let mut seen_left: Vec<(Epoch, usize)> = Vec::new();
        let mut j: usize = 0;
        while j < self.seen.len()
            invariant
                j <= seen.len(),
                self.seen@ == seen,
                slots@ == rslots(done),
                seen_left@ == drop_seen(seen, rslots(done), j as int),
            decreases seen.len() - j,
        {
            let x = self.seen[j];
            let mut found = false;
            let mut m: usize = 0;
            while m < slots.len()
                invariant
                    m <= slots@.len(),
                    found == exists|z: int| 0 <= z < m && slots@[z] == x,
                decreases slots.len() - m,
            {
                if slots[m].0 == x.0 && slots[m].1 == x.1 {
                    found = true;
                }
                m = m + 1;
            }
            if !found {
                seen_left.push(x);
            }
            j = j + 1;
        }
        self.requests = kept;
        self.shares = remaining;
        self.seen = seen_left;
        assert(self.wf());
        let ghost rec0 = self.reconstructed@;
        let mut z: usize = 0;
        while z < slots.len()
            invariant
                z <= slots@.len(),
                self.wf(),
                self.committee == old(self).committee,
                self.threshold == old(self).threshold,
                self.requests@ == kept_of(reqs, es, seen, th, reqs.len() as int),
                self.shares@ == drop_slots(es, rslots(done), es.len() as int),
                self.seen@ == drop_seen(seen, rslots(done), seen.len() as int),
                self.reconstructed@ == rec0 + slots@.subrange(0, z as int),
            decreases slots.len() - z,
        {
            self.reconstructed.push(slots[z]);
            proof {
                assert(self.reconstructed@ =~= rec0 + slots@.subrange(0, z + 1));
            }
            z = z + 1;
        }
        assert(slots@.subrange(0, slots@.len() as int) =~= slots@);
        answers
    }

    /// Takes one event, then answers every request that can be answered.
    pub fn step(&mut self, event: ClassicResultEvent) -> (answers: Vec<(Epoch, usize, RandomNum)>)
        requires
            old(self).wf(),
            classic_event_ok(*old(self), event),
        ensures
            final(self).wf(),
            classic_step_outcome(*old(self), event, *final(self), answers@),
    {
        match event {
            ClassicResultEvent::Request(d, e, i) => {
                self.on_request(d, e, i);
            },
            ClassicResultEvent::Shares(sender, sh) => {
                self.on_shares(sender, &sh);
            },
        }
        self.reconcile()
    }
}

/// The pending requests are for distinct slots, none of them reconstructed.
pub open spec fn classic_requests_fresh(reqs: Seq<ClassicRequest>, rec: Seq<(Epoch, usize)>) -> bool {
    &&& forall|j: int, k: int| 0 <= j < k < reqs.len() ==> rslot(#[trigger] reqs[j]) != rslot(#[trigger] reqs[k])
    &&& forall|j: int| 0 <= j < reqs.len() ==> !rec.contains(rslot(#[trigger] reqs[j]))
}

/// The answered and the kept requests split the requests: each is one of
/// the first `len`, and all their slots differ.
proof fn lemma_requests_split(
    reqs: Seq<ClassicRequest>,
    es: Seq<ClassicEntry>,
    seen: Seq<(Epoch, usize)>,
    t: usize,
    len: int,
)
    requires
        0 <= len <= reqs.len(),
        forall|j: int, k: int| 0 <= j < k < reqs.len() ==> rslot(#[trigger] reqs[j]) != rslot(#[trigger] reqs[k]),
    ensures
        ({
            let done = done_of(reqs, es, seen, t, len);
            let kept = kept_of(reqs, es, seen, t, len);
            &&& forall|x: int| 0 <= x < done.len() ==> exists|j: int| 0 <= j < len && #[trigger] done[x] == reqs[j]
            &&& forall|x: int| 0 <= x < kept.len() ==> exists|j: int| 0 <= j < len && #[trigger] kept[x] == reqs[j]
            &&& forall|x: int, y: int| 0 <= x < y < done.len() ==> rslot(#[trigger] done[x]) != rslot(#[trigger] done[y])
            &&& forall|x: int, y: int| 0 <= x < y < kept.len() ==> rslot(#[trigger] kept[x]) != rslot(#[trigger] kept[y])
            &&& forall|x: int, y: int| 0 <= x < done.len() && 0 <= y < kept.len() ==> rslot(#[trigger] done[x]) != rslot(#[trigger] kept[y])
        }),
    decreases len,
{
    if len > 0 {
        lemma_requests_split(reqs, es, seen, t, len - 1);
        let pd = done_of(reqs, es, seen, t, len - 1);
        let pk = kept_of(reqs, es, seen, t, len - 1);
        let done = done_of(reqs, es, seen, t, len);
        let kept = kept_of(reqs, es, seen, t, len);
        let r = reqs[len - 1];
        // the new request's slot differs from those of all earlier ones
        assert forall|x: int| 0 <= x < pd.len() implies rslot(#[trigger] pd[x]) != rslot(r) by {
            let j = choose|j: int| 0 <= j < len - 1 && #[trigger] pd[x] == reqs[j];
            assert(rslot(reqs[j]) != rslot(reqs[len - 1]));
        }
        assert forall|x: int| 0 <= x < pk.len() implies rslot(#[trigger] pk[x]) != rslot(r) by {
            let j = choose|j: int| 0 <= j < len - 1 && #[trigger] pk[x] == reqs[j];
            assert(rslot(reqs[j]) != rslot(reqs[len - 1]));
        }
        if ready_in(seen, es, t, r) {
            assert(done == pd.push(r));
            assert(kept == pk);
            assert forall|x: int| 0 <= x < done.len() implies exists|j: int| 0 <= j < len && #[trigger] done[x] == reqs[j] by {
                if x < pd.len() {
                    assert(done[x] == pd[x]);
                    let j = choose|j: int| 0 <= j < len - 1 && #[trigger] pd[x] == reqs[j];
                    assert(done[x] == reqs[j]);
                } else {
                    assert(done[x] == reqs[len - 1]);
                }
            }
            assert forall|x: int| 0 <= x < kept.len() implies exists|j: int| 0 <= j < len && #[trigger] kept[x] == reqs[j] by {
                let j = choose|j: int| 0 <= j < len - 1 && #[trigger] pk[x] == reqs[j];
                assert(kept[x] == reqs[j]);
            }
            assert forall|x: int, y: int| 0 <= x < y < done.len() implies rslot(#[trigger] done[x]) != rslot(#[trigger] done[y]) by {
                assert(done[x] == pd[x]);
                if y < pd.len() {
                    assert(done[y] == pd[y]);
                }
            }
            assert forall|x: int, y: int| 0 <= x < done.len() && 0 <= y < kept.len() implies rslot(#[trigger] done[x]) != rslot(#[trigger] kept[y]) by {
                assert(kept[y] == pk[y]);
                if x < pd.len() {
                    assert(done[x] == pd[x]);
                }
            }
        } else {
            assert(kept == pk.push(r));
            assert(done == pd);
            assert forall|x: int| 0 <= x < kept.len() implies exists|j: int| 0 <= j < len && #[trigger] kept[x] == reqs[j] by {
                if x < pk.len() {
                    assert(kept[x] == pk[x]);
                    let j = choose|j: int| 0 <= j < len - 1 && #[trigger] pk[x] == reqs[j];
                    assert(kept[x] == reqs[j]);
                } else {
                    assert(kept[x] == reqs[len - 1]);
                }
            }
            assert forall|x: int| 0 <= x < done.len() implies exists|j: int| 0 <= j < len && #[trigger] done[x] == reqs[j] by {
                let j = choose|j: int| 0 <= j < len - 1 && #[trigger] pd[x] == reqs[j];
                assert(done[x] == reqs[j]);
            }
            assert forall|x: int, y: int| 0 <= x < y < kept.len() implies rslot(#[trigger] kept[x]) != rslot(#[trigger] kept[y]) by {
                assert(kept[x] == pk[x]);
                if y < pk.len() {
                    assert(kept[y] == pk[y]);
                }
            }
            assert forall|x: int, y: int| 0 <= x < done.len() && 0 <= y < kept.len() implies rslot(#[trigger] done[x]) != rslot(#[trigger] kept[y]) by {
                assert(done[x] == pd[x]);
                if y < pk.len() {
                    assert(kept[y] == pk[y]);
                }
            }
        }
    }
}

/// The requests after the event are fresh when those before were.
proof fn lemma_event_fresh(s: ClassicResult, ev: ClassicResultEvent)
    requires
        classic_requests_fresh(s.requests@, s.reconstructed@),
    ensures
        classic_requests_fresh(event_state(s, ev).0, s.reconstructed@),
{
    let reqs = s.requests@;
    let rec = s.reconstructed@;
    match ev {
        ClassicResultEvent::Request(d, ep, i) => {
            if !(rec.contains((ep, i)) || slot_held(reqs, ep, i)) {
                let nr = reqs.push((d, ep, i));
                assert forall|j: int, k: int| 0 <= j < k < nr.len() implies rslot(#[trigger] nr[j]) != rslot(#[trigger] nr[k]) by {
                    assert(nr[j] == reqs[j]);
                    if k < reqs.len() {
                        assert(nr[k] == reqs[k]);
                    } else if rslot(nr[j]) == rslot(nr[k]) {
                        assert(reqs[j].1 == ep && reqs[j].2 == i);
                        assert(slot_held(reqs, ep, i));
                    }
                }
                assert forall|j: int| 0 <= j < nr.len() implies !rec.contains(rslot(#[trigger] nr[j])) by {
                    if j < reqs.len() {
                        assert(nr[j] == reqs[j]);
                    }
                }
            }
        },
        _ => {},
    }
}

/// Law of one step: pending requests stay fresh, the reconstructed slots
/// only grow, and the slots answered are distinct, were not reconstructed
/// before the step and are reconstructed after it.
pub proof fn lemma_classic_step_answers_fresh(
    s: ClassicResult,
    ev: ClassicResultEvent,
    t: ClassicResult,
    answers: Seq<(Epoch, usize, RandomNum)>,
)
    requires
        classic_step_outcome(s, ev, t, answers),
        classic_requests_fresh(s.requests@, s.reconstructed@),
    ensures
        classic_requests_fresh(t.requests@, t.reconstructed@),
        t.reconstructed@.len() >= s.reconstructed@.len(),
        t.reconstructed@.subrange(0, s.reconstructed@.len() as int) == s.reconstructed@,
        forall|x: int, y: int| 0 <= x < y < answers.len() ==> (#[trigger] answers[x]).0 != (#[trigger] answers[y]).0
            || answers[x].1 != answers[y].1,
        forall|x: int| 0 <= x < answers.len() ==> !s.reconstructed@.contains(((#[trigger] answers[x]).0, answers[x].1))
            && t.reconstructed@.contains((answers[x].0, answers[x].1)),
{
    lemma_event_fresh(s, ev);
    let (reqs, es, seen) = event_state(s, ev);
    let rec = s.reconstructed@;
    let th = s.threshold;
    let done = done_of(reqs, es, seen, th, reqs.len() as int);
    let kept = kept_of(reqs, es, seen, th, reqs.len() as int);
    lemma_requests_split(reqs, es, seen, th, reqs.len() as int);
    let nrec = rec + rslots(done);
    assert(nrec.subrange(0, rec.len() as int) =~= rec);
    assert forall|j: int| 0 <= j < kept.len() implies !nrec.contains(rslot(#[trigger] kept[j])) by {
        let jj = choose|jj: int| 0 <= jj < reqs.len() && #[trigger] kept[j] == reqs[jj];
        if nrec.contains(rslot(kept[j])) {
            let z = choose|z: int| 0 <= z < nrec.len() && nrec[z] == rslot(kept[j]);
            if z < rec.len() {
                assert(rec[z] == nrec[z]);
                assert(rec.contains(rslot(reqs[jj])));
            } else {
                assert(nrec[z] == rslots(done)[z - rec.len()]);
            }
        }
    }
    assert forall|x: int| 0 <= x < answers.len() implies !rec.contains(((#[trigger] answers[x]).0, answers[x].1))
        && t.reconstructed@.contains((answers[x].0, answers[x].1)) by {
        let jj = choose|jj: int| 0 <= jj < reqs.len() && #[trigger] done[x] == reqs[jj];
        assert(rslot(reqs[jj]) == (answers[x].0, answers[x].1));
        assert(nrec[rec.len() + x] == rslots(done)[x]);
    }
    assert forall|x: int, y: int| 0 <= x < y < answers.len() implies (#[trigger] answers[x]).0 != (#[trigger] answers[y]).0
        || answers[x].1 != answers[y].1 by {
        assert(rslot(done[x]) != rslot(done[y]));
    }
}

/// In a run, a reconstructed slot stays reconstructed.
proof fn lemma_classic_reconstructed_stays(
    states: Seq<ClassicResult>,
    events: Seq<ClassicResultEvent>,
    answers: Seq<Seq<(Epoch, usize, RandomNum)>>,
    a: int,
    b: int,
    slot: (Epoch, usize),
)
    requires
        states.len() == events.len() + 1,
        answers.len() == events.len(),
        forall|k: int| 0 <= k < events.len() ==> classic_step_outcome(states[k], events[k], #[trigger] states[k + 1], answers[k]),
        forall|k: int| 0 <= k < states.len() ==> classic_requests_fresh((#[trigger] states[k]).requests@, states[k].reconstructed@),
        0 <= a <= b < states.len(),
        states[a].reconstructed@.contains(slot),
    ensures
        states[b].reconstructed@.contains(slot),
    decreases b - a,
{
    if a < b {
        assert(classic_step_outcome(states[a], events[a], states[a + 1], answers[a]));
        lemma_classic_step_answers_fresh(states[a], events[a], states[a + 1], answers[a]);
        let r0 = states[a].reconstructed@;
        let r1 = states[a + 1].reconstructed@;
        let z = choose|z: int| 0 <= z < r0.len() && r0[z] == slot;
        assert(r1.subrange(0, r0.len() as int)[z] == r1[z]);
        lemma_classic_reconstructed_stays(states, events, answers, a + 1, b, slot);
    }
}

/// In a run from fresh requests, every state's requests are fresh.
proof fn lemma_classic_run_fresh(
    states: Seq<ClassicResult>,
    events: Seq<ClassicResultEvent>,
    answers: Seq<Seq<(Epoch, usize, RandomNum)>>,
    k: int,
)
    requires
        states.len() == events.len() + 1,
        answers.len() == events.len(),
        forall|k: int| 0 <= k < events.len() ==> classic_step_outcome(states[k], events[k], #[trigger] states[k + 1], answers[k]),
        classic_requests_fresh(states[0].requests@, states[0].reconstructed@),
        0 <= k < states.len(),
    ensures
        classic_requests_fresh(states[k].requests@, states[k].reconstructed@),
    decreases k,
{
    if k > 0 {
        lemma_classic_run_fresh(states, events, answers, k - 1);
        let j = k - 1;
        assert(classic_step_outcome(states[j], events[j], states[j + 1], answers[j]));
        lemma_classic_step_answers_fresh(states[j], events[j], states[j + 1], answers[j]);
        assert(states[j + 1] == states[k]);
    }
}

/// Law: over a run of steps that starts with fresh requests (as a new
/// result phase does, with none), every slot is answered at most once.
pub proof fn lemma_classic_slot_answered_once(
    states: Seq<ClassicResult>,
    events: Seq<ClassicResultEvent>,
    answers: Seq<Seq<(Epoch, usize, RandomNum)>>,
)
    requires
        states.len() == events.len() + 1,
        answers.len() == events.len(),
        forall|k: int| 0 <= k < events.len() ==> classic_step_outcome(states[k], events[k], #[trigger] states[k + 1], answers[k]),
        classic_requests_fresh(states[0].requests@, states[0].reconstructed@),
    ensures
        forall|a: int, x: int, b: int, y: int|
            0 <= a < answers.len() && 0 <= b < answers.len() && 0 <= x < answers[a].len() && 0 <= y < answers[b].len()
                && (a != b || x != y) ==> (#[trigger] answers[a][x]).0 != (#[trigger] answers[b][y]).0
                || answers[a][x].1 != answers[b][y].1,
{
    assert forall|k: int| 0 <= k < states.len() implies classic_requests_fresh((#[trigger] states[k]).requests@, states[k].reconstructed@) by {
        lemma_classic_run_fresh(states, events, answers, k);
    }
    assert forall|a: int, x: int, b: int, y: int|
        0 <= a < answers.len() && 0 <= b < answers.len() && 0 <= x < answers[a].len() && 0 <= y < answers[b].len()
            && (a != b || x != y) implies (#[trigger] answers[a][x]).0 != (#[trigger] answers[b][y]).0
            || answers[a][x].1 != answers[b][y].1 by {
        assert(classic_step_outcome(states[a], events[a], states[a + 1], answers[a]));
        assert(classic_step_outcome(states[b], events[b], states[b + 1], answers[b]));
        lemma_classic_step_answers_fresh(states[a], events[a], states[a + 1], answers[a]);
        lemma_classic_step_answers_fresh(states[b], events[b], states[b + 1], answers[b]);
        if a < b {
            lemma_classic_reconstructed_stays(states, events, answers, a + 1, b, (answers[a][x].0, answers[a][x].1));
        } else if b < a {
            lemma_classic_reconstructed_stays(states, events, answers, b + 1, a, (answers[b][y].0, answers[b][y].1));
        } else if x > y {
            assert(answers[a][y].0 != answers[a][x].0 || answers[a][y].1 != answers[a][x].1);
        }
    }
}

/// The running sum over the first `k` asked digests is their sum modulo
/// the group order.
proof fn lemma_summed_secret_fold(es: Seq<ClassicEntry>, c: Committee, r: ClassicRequest, k: int)
    requires
        0 <= k <= r.0@.len(),
    ensures
        summed_secret(es, c, r, k) as int == r.0@.take(k).map_values(
            |d: Digest| digest_secret(es, c, r.1, r.2, d.0@) as int,
        ).fold_left(0int, |acc: int, v: int| acc + v) % (group_order() as int),
    decreases k,
{
    let f = |d: Digest| digest_secret(es, c, r.1, r.2, d.0@) as int;
    let m = group_order() as int;
    if k > 0 {
        lemma_summed_secret_fold(es, c, r, k - 1);
        let s = r.0@.take(k).map_values(f);
        assert(s.drop_last() =~= r.0@.take(k - 1).map_values(f));
        assert(s.last() == f(r.0@[k - 1]));
        let prev = s.drop_last().fold_left(0int, |acc: int, v: int| acc + v);
        vstd::arithmetic::div_mod::lemma_add_mod_noop(prev, f(r.0@[k - 1]), m);
        vstd::arithmetic::div_mod::lemma_mod_twice(prev, m);
        vstd::arithmetic::div_mod::lemma_mod_twice(f(r.0@[k - 1]), m);
        vstd::arithmetic::div_mod::lemma_add_mod_noop(prev % m, f(r.0@[k - 1]), m);
    } else {
        assert(r.0@.take(k).map_values(f) =~= Seq::<int>::empty());
    }
}

/// Law: the beacon value of an answered classic slot is the low 128 bits of
/// the sum, modulo the group order, over every asked dealer digest of the
/// secret interpolated at zero from that dealer's secrets; no asked dealer
/// is left out.
pub proof fn lemma_request_value_sums_every_dealer(es: Seq<ClassicEntry>, c: Committee, r: ClassicRequest)
    ensures
        request_value(es, c, r) as int == (r.0@.map_values(
            |d: Digest| digest_secret(es, c, r.1, r.2, d.0@) as int,
        ).fold_left(0int, |acc: int, v: int| acc + v) % (group_order() as int)) % (two_pow_128() as int),
{
    lemma_summed_secret_fold(es, c, r, r.0@.len() as int);
    assert(r.0@.take(r.0@.len() as int) =~= r.0@);
}

/// Law: a classic request is answered exactly when a message of secrets
/// arrived for its slot, every asked dealer digest has at least `th`
/// secrets for the slot, and every dealer digest with at least `th`
/// secrets for the slot is asked for.
pub proof fn lemma_classic_ready_exactly(seen: Seq<(Epoch, usize)>, es: Seq<ClassicEntry>, th: usize, r: ClassicRequest)
    ensures
        ready_in(seen, es, th, r) <==> {
            &&& seen.contains((r.1, r.2))
            &&& forall|k: int| 0 <= k < r.0@.len() ==> secret_count(es, r.1, r.2, (#[trigger] r.0@[k]).0@) >= th
            &&& forall|j: int|
                0 <= j < es.len() && (#[trigger] es[j]).0 == r.1 && es[j].1 == r.2 && secret_count(es, r.1, r.2, es[j].2.0@) >= th
                    ==> exists|k: int| 0 <= k < r.0@.len() && (#[trigger] r.0@[k]).0@ == es[j].2.0@
        },
{
}

} // verus!
