//! The DAG of certificates as the consensus reads it: for every round, the
//! certificate of each author with its digest.  Rounds and authors are
//! association lists with distinct keys, read as maps.

use vstd::prelude::*;
use crate::assoc::{assoc_map, key_index_from, keys_distinct, lemma_assoc_absent, lemma_assoc_at, lemma_key_index_from, lemma_put_keyed, put_keyed};
use crate::crypto::{bytes_eq, Digest, PublicKey};
use crate::types_and_const::Round;

verus! {

/// Consensus metadata a header may carry: its virtual round and parents.
pub struct Metadata {
    pub virtual_round: Round,
    pub virtual_parents: Vec<Digest>,
}

/// A certificate as the consensus reads it: its author, round, digest,
/// parents and metadata.
pub struct Certificate {
    pub origin: PublicKey,
    pub round: Round,
    pub digest: Digest,
    pub parents: Vec<Digest>,
    pub metadata: Option<Metadata>,
}

/// Digests as byte sequences.
pub open spec fn digests(v: Seq<Digest>) -> Seq<Seq<u8>> {
    v.map_values(|d: Digest| d.0@)
}

/// A certificate as values: author, round, digest, parents and metadata.
pub type CertView = (Seq<u8>, Round, Seq<u8>, Seq<Seq<u8>>, Option<(Round, Seq<Seq<u8>>)>);

/// A stored entry as values: the digest and the certificate.
pub type EntryView = (Seq<u8>, CertView);

/// The DAG as values: rounds, each with its authors' entries.
pub type DagView = Seq<(Round, Seq<(Seq<u8>, EntryView)>)>;

impl Metadata {
    /// A copy of the metadata.
    pub fn duplicate(&self) -> (m: Metadata)
        ensures
            m.virtual_round == self.virtual_round,
            m.virtual_parents@ == self.virtual_parents@,
    {
        Metadata { virtual_round: self.virtual_round, virtual_parents: copy_digests(&self.virtual_parents) }
    }
}

impl Certificate {
    /// The certificate as values.
    pub open spec fn view_cert(&self) -> CertView {
        (
            self.origin@,
            self.round,
            self.digest.0@,
            digests(self.parents@),
            match self.metadata {
                Some(m) => Some((m.virtual_round, digests(m.virtual_parents@))),
                None => None,
            },
        )
    }

    /// A copy of the certificate.
    pub fn duplicate(&self) -> (c: Certificate)
        ensures
            c.view_cert() == self.view_cert(),
    {
        let metadata = match &self.metadata {
            Some(m) => Some(m.duplicate()),
            None => None,
        };
        Certificate {
            origin: self.origin,
            round: self.round,
            digest: Digest(self.digest.0),
            parents: copy_digests(&self.parents),
            metadata,
        }
    }

    /// Whether `d` is among the parents.
    pub fn has_parent(&self, d: &Digest) -> (r: bool)
        ensures
            r == digests(self.parents@).contains(d.0@),
    {
        contains_digest(&self.parents, d)
    }
}

/// Whether two digest lists are equal.
fn same_digests(a: &Vec<Digest>, b: &Vec<Digest>) -> (r: bool)
    ensures
        r == (digests(a@) == digests(b@)),
{
    if a.len() != b.len() {
        assert(digests(a@).len() != digests(b@).len());
        return false;
    }
    let mut k: usize = 0;
    while k < a.len()
        invariant
            k <= a@.len(),
            a@.len() == b@.len(),
            forall|i: int| 0 <= i < k ==> (#[trigger] a@[i]).0@ == b@[i].0@,
        decreases a.len() - k,
    {
        if !bytes_eq(&a[k].0, &b[k].0) {
            assert(digests(a@)[k as int] != digests(b@)[k as int]);
            return false;
        }
        k = k + 1;
    }
    assert(digests(a@) =~= digests(b@));
    true
}

/// Whether two certificates are the same (every field equal).
pub fn same_certificate(a: &Certificate, b: &Certificate) -> (r: bool)
    ensures
        r == (a.view_cert() == b.view_cert()),
{
    if !bytes_eq(&a.origin.0, &b.origin.0) || a.round != b.round || !bytes_eq(&a.digest.0, &b.digest.0) || !same_digests(&a.parents, &b.parents) {
        return false;
    }
    match (&a.metadata, &b.metadata) {
        (None, None) => true,
        (Some(x), Some(y)) => x.virtual_round == y.virtual_round && same_digests(&x.virtual_parents, &y.virtual_parents),
        _ => false,
    }
}

/// A copy of the digests.
fn copy_digests(v: &Vec<Digest>) -> (r: Vec<Digest>)
    ensures
        r@ == v@,
{
    let mut r: Vec<Digest> = Vec::new();
    let mut k: usize = 0;
    while k < v.len()
        invariant
            k <= v@.len(),
            r@ == v@.subrange(0, k as int),
        decreases v.len() - k,
    {
        r.push(Digest(v[k].0));
        proof {
            assert(r@ =~= v@.subrange(0, k + 1));
        }
        k = k + 1;
    }
    assert(v@.subrange(0, v@.len() as int) =~= v@);
    r
}

/// Whether `d` occurs in the list.
pub fn contains_digest(v: &Vec<Digest>, d: &Digest) -> (r: bool)
    ensures
        r == digests(v@).contains(d.0@),
{
    let mut k: usize = 0;
    while k < v.len()
        invariant
            k <= v@.len(),
            forall|i: int| 0 <= i < k ==> (#[trigger] v@[i]).0@ != d.0@,
        decreases v.len() - k,
    {
        if bytes_eq(&v[k].0, &d.0) {
            assert(digests(v@)[k as int] == d.0@);
            return true;
        }
        k = k + 1;
    }
    proof {
        if digests(v@).contains(d.0@) {
            let i = choose|i: int| 0 <= i < digests(v@).len() && digests(v@)[i] == d.0@;
            assert(v@[i].0@ == d.0@);
        }
    }
    false
}

/// The certificates of one round, by author.
pub struct DagRound {
    pub round: Round,
    pub certs: Vec<(PublicKey, (Digest, Certificate))>,
}

/// The DAG: rounds with their certificates by author.
pub struct Dag {
    pub rounds: Vec<DagRound>,
}

/// An entry of a round as values.
pub open spec fn entry_view(e: (PublicKey, (Digest, Certificate))) -> (Seq<u8>, EntryView) {
    (e.0@, (e.1.0.0@, e.1.1.view_cert()))
}

/// The entries of a round as values.
pub open spec fn entries_view(s: Seq<(PublicKey, (Digest, Certificate))>) -> Seq<(Seq<u8>, EntryView)> {
    s.map_values(|e: (PublicKey, (Digest, Certificate))| entry_view(e))
}

/// The entries stored for round `r`, empty when the round is absent.
pub open spec fn round_entries(d: DagView, r: Round) -> Seq<(Seq<u8>, EntryView)> {
    if assoc_map(d).dom().contains(r) {
        assoc_map(d)[r]
    } else {
        Seq::empty()
    }
}

/// The round is present.
pub open spec fn has_round(d: DagView, r: Round) -> bool {
    assoc_map(d).dom().contains(r)
}

/// The entry of author `k` at round `r`, if any.
pub open spec fn dag_get(d: DagView, r: Round, k: Seq<u8>) -> Option<EntryView> {
    let m = assoc_map(round_entries(d, r));
    if m.dom().contains(k) {
        Some(m[k])
    } else {
        None
    }
}

/// Some entry has digest `x`.
pub open spec fn has_digest(s: Seq<(Seq<u8>, EntryView)>, x: Seq<u8>) -> bool {
    exists|j: int| 0 <= j < s.len() && (#[trigger] s[j]).1.0 == x
}

/// Rounds are distinct, and so are the authors within each round.
pub open spec fn dag_wf(d: DagView) -> bool {
    &&& keys_distinct(d)
    &&& forall|i: int| 0 <= i < d.len() ==> keys_distinct((#[trigger] d[i]).1)
}

/// The DAG after storing entry `e` for author `k` at round `r`.
pub open spec fn dag_put(d: DagView, r: Round, k: Seq<u8>, e: EntryView) -> DagView {
    put_keyed(d, r, put_keyed(round_entries(d, r), k, e))
}

/// The position of author `k` among the entries of a round.
fn find_author(certs: &Vec<(PublicKey, (Digest, Certificate))>, k: &PublicKey) -> (p: Option<usize>)
    ensures
        p matches Some(j) ==> j < certs@.len() && j as int == key_index_from(entries_view(certs@), k@, 0),
        p is None ==> key_index_from(entries_view(certs@), k@, 0) < 0,
{
    let ghost ev = entries_view(certs@);
    let mut j: usize = 0;
    while j < certs.len()
        invariant
            j <= certs@.len(),
            ev == entries_view(certs@),
            key_index_from(ev, k@, 0) == key_index_from(ev, k@, j as int),
        decreases certs.len() - j,
    {
        if bytes_eq(&certs[j].0.0, &k.0) {
            assert(ev[j as int].0 == k@);
            return Some(j);
        }
        assert(ev[j as int].0 != k@);
        j = j + 1;
    }
    None
}

/// Stores `e` for author `k` among the entries of a round, replacing what
/// was there.
pub(crate) fn put_author(certs: &mut Vec<(PublicKey, (Digest, Certificate))>, k: PublicKey, e: (Digest, Certificate))
    ensures
        entries_view(final(certs)@) == put_keyed(entries_view(old(certs)@), k@, (e.0.0@, e.1.view_cert())),
{
    let ghost before = entries_view(certs@);
    let ghost ev = (e.0.0@, e.1.view_cert());
    match find_author(certs, &k) {
        Some(j) => {
            certs.set(j, (k, e));
            assert(entries_view(certs@) =~= before.update(j as int, (k@, ev)));
        },
        None => {
            certs.push((k, e));
            assert(entries_view(certs@) =~= before.push((k@, ev)));
        },
    }
}

/// The entries whose key is at least `lo`, in order.
pub open spec fn keep_at_least<V>(s: Seq<(Round, V)>, lo: int) -> Seq<(Round, V)>
    decreases s.len(),
{
    if s.len() == 0 {
        Seq::empty()
    } else if s.last().0 >= lo {
        keep_at_least(s.drop_last(), lo).push(s.last())
    } else {
        keep_at_least(s.drop_last(), lo)
    }
}

/// What is kept comes from the list, and distinct keys stay distinct.
pub proof fn lemma_keep_at_least<V>(s: Seq<(Round, V)>, lo: int)
    ensures
        forall|i: int| 0 <= i < keep_at_least(s, lo).len() ==> exists|j: int| 0 <= j < s.len() && #[trigger] keep_at_least(s, lo)[i] == s[j],
        keys_distinct(s) ==> keys_distinct(keep_at_least(s, lo)),
        forall|i: int| 0 <= i < keep_at_least(s, lo).len() ==> (#[trigger] keep_at_least(s, lo)[i]).0 >= lo,
    decreases s.len(),
{
    if s.len() > 0 {
        let t = s.drop_last();
        lemma_keep_at_least(t, lo);
        let kt = keep_at_least(t, lo);
        let ks = keep_at_least(s, lo);
        assert forall|i: int| 0 <= i < ks.len() implies exists|j: int| 0 <= j < s.len() && #[trigger] ks[i] == s[j] by {
            if i < kt.len() {
                let j = choose|j: int| 0 <= j < t.len() && kt[i] == t[j];
                assert(ks[i] == s[j]);
            } else {
                assert(ks[i] == s[s.len() - 1]);
            }
        }
        if keys_distinct(s) {
            assert(keys_distinct(t));
            assert forall|a: int, b: int| 0 <= a < ks.len() && 0 <= b < ks.len() && a != b implies ks[a].0 != ks[b].0 by {
                if a < kt.len() && b < kt.len() {
                } else if a < kt.len() {
                    let j = choose|j: int| 0 <= j < t.len() && kt[a] == t[j];
                    assert(s[j] == t[j]);
                } else if b < kt.len() {
                    let j = choose|j: int| 0 <= j < t.len() && kt[b] == t[j];
                    assert(s[j] == t[j]);
                }
            }
        }
    }
}

impl Dag {
    /// The DAG as values.
    pub open spec fn view_dag(&self) -> DagView {
        self.rounds@.map_values(|x: DagRound| (x.round, entries_view(x.certs@)))
    }

    /// The empty DAG.
    pub fn new() -> (d: Dag)
        ensures
            d.view_dag() == Seq::<(Round, Seq<(Seq<u8>, EntryView)>)>::empty(),
    {
        let d = Dag { rounds: Vec::new() };
        assert(d.view_dag() =~= Seq::<(Round, Seq<(Seq<u8>, EntryView)>)>::empty());
        d
    }

    /// The position of round `r`.
    pub fn find_round(&self, r: Round) -> (p: Option<usize>)
        requires
            dag_wf(self.view_dag()),
        ensures
            p is None <==> !has_round(self.view_dag(), r),
            p matches Some(i) ==> i < self.rounds@.len() && self.rounds@[i as int].round == r
                && round_entries(self.view_dag(), r) == entries_view(self.rounds@[i as int].certs@),
    {
        let ghost dv = self.view_dag();
        let mut i: usize = 0;
        while i < self.rounds.len()
            invariant
                i <= self.rounds@.len(),
                dv == self.view_dag(),
                dag_wf(dv),
                forall|x: int| 0 <= x < i ==> (#[trigger] dv[x]).0 != r,
            decreases self.rounds.len() - i,
        {
            if self.rounds[i].round == r {
                proof {
                    lemma_assoc_at(dv, i as int);
                }
                return Some(i);
            }
            i = i + 1;
        }
        proof {
            lemma_assoc_absent(dv, r);
        }
        None
    }

    /// The entry of author `k` at round `r`, if any.
    pub fn get(&self, r: Round, k: &PublicKey) -> (e: Option<&(Digest, Certificate)>)
        requires
            dag_wf(self.view_dag()),
        ensures
            e is None <==> dag_get(self.view_dag(), r, k@) is None,
            e matches Some(x) ==> dag_get(self.view_dag(), r, k@) == Some((x.0.0@, x.1.view_cert())),
    {
        match self.find_round(r) {
            None => None,
            Some(i) => {
                let certs = &self.rounds[i].certs;
                let ghost ev = entries_view(certs@);
                assert(keys_distinct(ev)) by {
                    assert(self.view_dag()[i as int].1 == ev);
                }
                match find_author(certs, k) {
                    Some(j) => {
                        proof {
                            lemma_key_index_from(ev, k@, 0);
                            lemma_assoc_at(ev, j as int);
                        }
                        Some(&certs[j].1)
                    },
                    None => {
                        proof {
                            lemma_key_index_from(ev, k@, 0);
                            lemma_assoc_absent(ev, k@);
                        }
                        None
                    },
                }
            },
        }
    }

    /// Stores `e` for author `k` at round `r`, replacing what was there.
    pub fn put(&mut self, r: Round, k: PublicKey, e: (Digest, Certificate))
        requires
            dag_wf(old(self).view_dag()),
        ensures
            dag_wf(final(self).view_dag()),
            final(self).view_dag() == dag_put(old(self).view_dag(), r, k@, (e.0.0@, e.1.view_cert())),
    {
        let ghost dv = self.view_dag();
        let ghost ev = (e.0.0@, e.1.view_cert());
        let ghost inner = round_entries(dv, r);
        proof {
            lemma_key_index_from(dv, r, 0);
        }
        match self.find_round(r) {
            Some(i) => {
                let ghost before = entries_view(self.rounds@[i as int].certs@);
                assert(inner == before);
                assert(keys_distinct(before)) by {
                    assert(dv[i as int].1 == before);
                }
                proof {
                    lemma_key_index_from(before, k@, 0);
                    lemma_put_keyed(before, k@, ev);
                }
                let mut round = DagRound { round: r, certs: Vec::new() };
                std::mem::swap(&mut round, &mut self.rounds[i]);
                let mut certs = round.certs;
                put_author(&mut certs, k, e);
                let ghost newinner = entries_view(certs@);
                assert(newinner == put_keyed(before, k@, ev));
                self.rounds.set(i, DagRound { round: r, certs });
                proof {
                    assert(key_index_from(dv, r, 0) == i as int) by {
                        lemma_key_index_from(dv, r, 0);
                        let p = key_index_from(dv, r, 0);
                        if p != i as int {
                            assert(dv[p].0 == r);
                            assert(dv[i as int].0 == r);
                        }
                    }
                    assert(self.view_dag() =~= dv.update(i as int, (r, newinner)));
                    lemma_put_keyed(dv, r, newinner);
                    assert forall|x: int| 0 <= x < self.view_dag().len() implies keys_distinct((#[trigger] self.view_dag()[x]).1) by {
                        if x != i as int {
                            assert(self.view_dag()[x] == dv[x]);
                        }
                    }
                }
            },
            None => {
                assert(inner == Seq::<(Seq<u8>, EntryView)>::empty());
                let mut certs: Vec<(PublicKey, (Digest, Certificate))> = Vec::new();
                certs.push((k, e));
                let ghost newinner = entries_view(certs@);
                assert(newinner =~= seq![(k@, ev)]);
                proof {
                    lemma_key_index_from(inner, k@, 0);
                    assert(put_keyed(inner, k@, ev) =~= seq![(k@, ev)]);
                    assert(key_index_from(dv, r, 0) < 0) by {
                        let p = key_index_from(dv, r, 0);
                        if p >= 0 {
                            assert(dv[p].0 == r);
                            assert(assoc_map(dv).dom().contains(r));
                        }
                    }
                }
                self.rounds.push(DagRound { round: r, certs });
                proof {
                    assert(self.view_dag() =~= dv.push((r, newinner)));
                    lemma_put_keyed(dv, r, newinner);
                    assert forall|x: int| 0 <= x < self.view_dag().len() implies keys_distinct((#[trigger] self.view_dag()[x]).1) by {
                        if x < dv.len() {
                            assert(self.view_dag()[x] == dv[x]);
                        } else {
                            assert(self.view_dag()[x].1 == newinner);
                        }
                    }
                }
            },
        }
    }

    /// Keeps the rounds `r` with `r + gc_depth > last_committed_round`.
    pub fn retain_recent(&mut self, last_committed_round: Round, gc_depth: Round)
        requires
            dag_wf(old(self).view_dag()),
        ensures
            dag_wf(final(self).view_dag()),
            final(self).view_dag() == keep_at_least(old(self).view_dag(), last_committed_round - gc_depth + 1),
    {
        let ghost lo = last_committed_round - gc_depth + 1;
        let ghost orig = self.view_dag();
        let mut i: usize = 0;
        let ghost mut p: int = 0;
        while i < self.rounds.len()
            invariant
                0 <= p <= orig.len(),
                lo == last_committed_round - gc_depth + 1,
                self.view_dag() == keep_at_least(orig.take(p), lo) + orig.skip(p),
                i == keep_at_least(orig.take(p), lo).len(),
            decreases self.rounds@.len() - i,
        {
            let ghost cur = self.view_dag();
            let ghost kp = keep_at_least(orig.take(p), lo);
            assert(orig.skip(p) =~= seq![orig[p]] + orig.skip(p + 1));
            assert(cur[i as int] == orig[p]);
            assert(orig.take(p + 1).drop_last() =~= orig.take(p));
            assert(orig.take(p + 1).last() == orig[p]);
            if (self.rounds[i].round as u128) + (gc_depth as u128) > last_committed_round as u128 {
                proof {
                    assert(orig[p].0 >= lo);
                    assert(keep_at_least(orig.take(p + 1), lo) == kp.push(orig[p]));
                    assert(self.view_dag() =~= kp.push(orig[p]) + orig.skip(p + 1));
                    p = p + 1;
                }
                i = i + 1;
            } else {
                self.rounds.remove(i);
                proof {
                    assert(orig[p].0 < lo);
                    assert(keep_at_least(orig.take(p + 1), lo) == kp);
                    assert(self.view_dag() =~= cur.remove(i as int));
                    assert(self.view_dag() =~= kp + orig.skip(p + 1));
                    p = p + 1;
                }
            }
        }
        proof {
            assert(p == orig.len()) by {
                if p < orig.len() {
                    assert(self.view_dag().len() > i);
                }
            }
            assert(orig.take(p) =~= orig);
            assert(self.view_dag() =~= keep_at_least(orig, lo));
            lemma_keep_at_least(orig, lo);
            let kv = keep_at_least(orig, lo);
            assert forall|x: int| 0 <= x < kv.len() implies keys_distinct((#[trigger] kv[x]).1) by {
                let j = choose|j: int| 0 <= j < orig.len() && kv[x] == orig[j];
            }
        }
    }

    /// Whether some certificate of round `r` has digest `d`.
    pub fn round_has_digest(&self, r: Round, d: &Digest) -> (b: bool)
        requires
            dag_wf(self.view_dag()),
        ensures
            b == has_digest(round_entries(self.view_dag(), r), d.0@),
    {
        match self.find_round(r) {
            None => false,
            Some(ri) => {
                let certs = &self.rounds[ri].certs;
                let ghost ev = entries_view(certs@);
                let mut j: usize = 0;
                while j < certs.len()
                    invariant
                        j <= certs@.len(),
                        ev == entries_view(certs@),
                        round_entries(self.view_dag(), r) == ev,
                        forall|x: int| 0 <= x < j ==> (#[trigger] ev[x]).1.0 != d.0@,
                    decreases certs.len() - j,
                {
                    if bytes_eq(&certs[j].1.0.0, &d.0) {
                        assert(ev[j as int].1.0 == d.0@);
                        return true;
                    }
                    j = j + 1;
                }
                false
            },
        }
    }
}

/// Reading the DAG after storing an entry gives that entry back at its
/// round and author, and what was there before everywhere else.
pub proof fn lemma_put_then_get(d: DagView, r: Round, k: Seq<u8>, e: EntryView, r2: Round, k2: Seq<u8>)
    requires
        dag_wf(d),
    ensures
        dag_wf(dag_put(d, r, k, e)),
        dag_get(dag_put(d, r, k, e), r2, k2) == if r2 == r && k2 == k {
            Some(e)
        } else {
            dag_get(d, r2, k2)
        },
{
    let inner = round_entries(d, r);
    assert(keys_distinct(inner)) by {
        if assoc_map(d).dom().contains(r) {
            let i = choose|i: int| 0 <= i < d.len() && (#[trigger] d[i]).0 == r;
            lemma_assoc_at(d, i);
        }
    }
    lemma_put_keyed(inner, k, e);
    let newinner = put_keyed(inner, k, e);
    lemma_put_keyed(d, r, newinner);
    let nd = dag_put(d, r, k, e);
    assert(assoc_map(nd) == assoc_map(d).insert(r, newinner));
    // every round of the new DAG has distinct authors
    assert forall|i: int| 0 <= i < nd.len() implies keys_distinct((#[trigger] nd[i]).1) by {
        lemma_key_index_from(d, r, 0);
        let p = key_index_from(d, r, 0);
        if p >= 0 {
            if i == p {
                assert(nd[i].1 == newinner);
            } else {
                assert(nd[i] == d[i]);
            }
        } else {
            if i < d.len() {
                assert(nd[i] == d[i]);
            } else {
                assert(nd[i].1 == newinner);
            }
        }
    }
    assert(round_entries(nd, r) == newinner);
    if r2 != r {
        assert(round_entries(nd, r2) == round_entries(d, r2));
    }
}

/// A round is kept exactly when it was there and is at least `lo`.
pub proof fn lemma_keep_rounds(d: DagView, lo: int, r: Round)
    requires
        dag_wf(d),
    ensures
        has_round(keep_at_least(d, lo), r) <==> (has_round(d, r) && r >= lo),
        has_round(keep_at_least(d, lo), r) ==> round_entries(keep_at_least(d, lo), r) == round_entries(d, r),
{
    lemma_keep_at_least(d, lo);
    let kd = keep_at_least(d, lo);
    if has_round(kd, r) {
        let i = choose|i: int| 0 <= i < kd.len() && (#[trigger] kd[i]).0 == r;
        let j = choose|j: int| 0 <= j < d.len() && #[trigger] kd[i] == d[j];
        assert(d[j].0 == r);
        lemma_assoc_at(d, j);
        lemma_assoc_at(kd, i);
    }
    if has_round(d, r) && r >= lo {
        let j = choose|j: int| 0 <= j < d.len() && (#[trigger] d[j]).0 == r;
        lemma_keep_member(d, lo, j);
    }
}

/// An entry whose key is at least `lo` is kept.
proof fn lemma_keep_member<V>(s: Seq<(Round, V)>, lo: int, j: int)
    requires
        0 <= j < s.len(),
        s[j].0 >= lo,
    ensures
        keep_at_least(s, lo).contains(s[j]),
    decreases s.len(),
{
    if j == s.len() - 1 {
        assert(keep_at_least(s, lo).last() == s[j]);
    } else {
        lemma_keep_member(s.drop_last(), lo, j);
        let k = keep_at_least(s.drop_last(), lo);
        let w = choose|x: int| 0 <= x < k.len() && k[x] == s[j];
        if s.last().0 >= lo {
            assert(keep_at_least(s, lo)[w] == s[j]);
        }
    }
}

} // verus!
