//! Committee and node parameters.
//!
//! Network addresses are kept as the text of socket addresses; turning them
//! into sockets is left to the caller.

use vstd::prelude::*;
use crate::crypto::{PublicKey, SecretKey, bytes_lt, bytes_eq, bytes_less, generate_production_keypair, keys_match, lemma_bytes_lt_irreflexive, lemma_bytes_lt_transitive, lemma_bytes_lt_total, lemma_bytes_lt_asymmetric};
use crate::types_and_const::{Id, Stake, WorkerId};

verus! {

/// Node parameters.
#[derive(Clone, Copy, Debug)]
pub struct Parameters {
    /// The preferred header size, in bytes.
    pub header_size: usize,
    /// The maximum delay between two headers, in ms.
    pub max_header_delay: u64,
    /// The depth of the garbage collection, in rounds.
    pub gc_depth: u64,
    /// The delay after which sync requests are retried, in ms.
    pub sync_retry_delay: u64,
    /// With how many nodes to sync when retrying.
    pub sync_retry_nodes: usize,
    /// The preferred batch size, in bytes.
    pub batch_size: usize,
    /// The delay after which workers seal a batch, in ms.
    pub max_batch_delay: u64,
}

/// Calls `format!("{}{}{}", prefix, value, suffix)` of std.  Claimed: the
/// text is the prefix, the decimal digits of `value` and the suffix.
#[verifier::external_body]
fn format_line(prefix: &str, value: u64, suffix: &str) -> (r: String)
    ensures
        r@ == prefix@ + decimal_chars(value as nat) + suffix@,
{
    format!("{}{}{}", prefix, value, suffix)
}

/// Decimal digits of `n` as characters.
pub open spec fn decimal_chars(n: nat) -> Seq<char>
    decreases n,
{
    if n < 10 {
        seq![(48 + n) as char]
    } else {
        decimal_chars(n / 10).push((48 + n % 10) as char)
    }
}

impl Parameters {
    /// The default parameters.
    pub fn default() -> (p: Parameters)
        ensures
            p.header_size == 1000,
            p.max_header_delay == 100,
            p.gc_depth == 50,
            p.sync_retry_delay == 5000,
            p.sync_retry_nodes == 3,
            p.batch_size == 500000,
            p.max_batch_delay == 100,
    {
        Parameters {
            header_size: 1000,
            max_header_delay: 100,
            gc_depth: 50,
            sync_retry_delay: 5000,
            sync_retry_nodes: 3,
            batch_size: 500000,
            max_batch_delay: 100,
        }
    }

    /// The lines that report the parameters, in order.
    pub fn log(&self) -> (lines: Vec<String>)
        ensures
            lines.len() == 7,
            lines[0]@ == "Header size set to "@ + decimal_chars(self.header_size as nat) + " B"@,
            lines[1]@ == "Max header delay set to "@ + decimal_chars(self.max_header_delay as nat)
                + " ms"@,
            lines[2]@ == "Garbage collection depth set to "@ + decimal_chars(self.gc_depth as nat)
                + " rounds"@,
            lines[3]@ == "Sync retry delay set to "@ + decimal_chars(self.sync_retry_delay as nat)
                + " ms"@,
            lines[4]@ == "Sync retry nodes set to "@ + decimal_chars(self.sync_retry_nodes as nat)
                + " nodes"@,
            lines[5]@ == "Batch size set to "@ + decimal_chars(self.batch_size as nat) + " B"@,
            lines[6]@ == "Max batch delay set to "@ + decimal_chars(self.max_batch_delay as nat)
                + " ms"@,
    {
        let mut lines: Vec<String> = Vec::new();
        lines.push(format_line("Header size set to ", self.header_size as u64, " B"));
        lines.push(format_line("Max header delay set to ", self.max_header_delay, " ms"));
        lines.push(format_line("Garbage collection depth set to ", self.gc_depth, " rounds"));
        lines.push(format_line("Sync retry delay set to ", self.sync_retry_delay, " ms"));
        lines.push(format_line("Sync retry nodes set to ", self.sync_retry_nodes as u64, " nodes"));
        lines.push(format_line("Batch size set to ", self.batch_size as u64, " B"));
        lines.push(format_line("Max batch delay set to ", self.max_batch_delay, " ms"));
        lines
    }
}

/// Addresses of a primary.
#[derive(Debug)]
pub struct PrimaryAddresses {
    /// Address to receive messages from other primaries (WAN).
    pub primary_to_primary: String,
    /// Address to receive messages from our workers (LAN).
    pub worker_to_primary: String,
    pub breeze_addr: String,
    pub init_bft_addr: String,
}

impl Clone for PrimaryAddresses {
    fn clone(&self) -> (r: Self)
        ensures
            r == *self,
    {
        PrimaryAddresses {
            primary_to_primary: self.primary_to_primary.clone(),
            worker_to_primary: self.worker_to_primary.clone(),
            breeze_addr: self.breeze_addr.clone(),
            init_bft_addr: self.init_bft_addr.clone(),
        }
    }
}

/// Addresses of a worker.
#[derive(Debug)]
pub struct WorkerAddresses {
    /// Address to receive client transactions (WAN).
    pub transactions: String,
    /// Address to receive messages from other workers (WAN).
    pub worker_to_worker: String,
    /// Address to receive messages from our primary (LAN).
    pub primary_to_worker: String,
}

impl Clone for WorkerAddresses {
    fn clone(&self) -> (r: Self)
        ensures
            r == *self,
    {
        WorkerAddresses {
            transactions: self.transactions.clone(),
            worker_to_worker: self.worker_to_worker.clone(),
            primary_to_worker: self.primary_to_worker.clone(),
        }
    }
}

/// One member of the committee.
pub struct Authority {
    /// The voting power of this authority.
    pub stake: Stake,
    /// The network addresses of the primary.
    pub primary: PrimaryAddresses,
    /// The workers' ids and addresses.
    pub workers: Vec<(WorkerId, WorkerAddresses)>,
}

/// Errors of committee lookups.
#[derive(Debug, Clone, Copy)]
pub enum ConfigError {
    NotInCommittee(PublicKey),
}

/// The members of the committee, ordered by their public keys.
pub struct Committee {
    pub authorities: Vec<(PublicKey, Authority)>,
}

/// The keys of a sequence of members are strictly increasing.
pub open spec fn keys_sorted(a: Seq<(PublicKey, Authority)>) -> bool {
    forall|i: int, j: int| 0 <= i < j < a.len() ==> bytes_lt(a[i].0@, a[j].0@)
}

/// Index of the member with key `k`, or -1.
pub open spec fn index_of(a: Seq<(PublicKey, Authority)>, k: Seq<u8>) -> int
    decreases a.len(),
{
    if a.len() == 0 {
        -1
    } else if a.last().0@ == k && index_of(a.drop_last(), k) < 0 {
        a.len() - 1
    } else {
        index_of(a.drop_last(), k)
    }
}

/// The members other than `me`, in order.
pub open spec fn others_of(a: Seq<(PublicKey, Authority)>, me: Seq<u8>) -> Seq<(PublicKey, Authority)>
    decreases a.len(),
{
    if a.len() == 0 {
        Seq::empty()
    } else if a.last().0@ == me {
        others_of(a.drop_last(), me)
    } else {
        others_of(a.drop_last(), me).push(a.last())
    }
}

/// Sum of the stakes.
pub open spec fn total_stake(a: Seq<(PublicKey, Authority)>) -> nat
    decreases a.len(),
{
    if a.len() == 0 {
        0
    } else {
        total_stake(a.drop_last()) + a.last().1.stake as nat
    }
}

/// The first entry of `workers` with id `id`, or -1.
pub open spec fn worker_index(w: Seq<(WorkerId, WorkerAddresses)>, id: WorkerId) -> int
    decreases w.len(),
{
    if w.len() == 0 {
        -1
    } else if w.last().0 == id && worker_index(w.drop_last(), id) < 0 {
        w.len() - 1
    } else {
        worker_index(w.drop_last(), id)
    }
}

pub proof fn lemma_index_of_bounds(a: Seq<(PublicKey, Authority)>, k: Seq<u8>)
    ensures
        -1 <= index_of(a, k) < a.len(),
        index_of(a, k) >= 0 ==> a[index_of(a, k)].0@ == k,
        index_of(a, k) < 0 ==> forall|i: int| 0 <= i < a.len() ==> a[i].0@ != k,
        index_of(a, k) >= 0 ==> forall|i: int| 0 <= i < index_of(a, k) ==> a[i].0@ != k,
    decreases a.len(),
{
    if a.len() > 0 {
        let b = a.drop_last();
        lemma_index_of_bounds(b, k);
        assert forall|i: int| 0 <= i < b.len() implies a[i] == b[i] by {}
    }
}

proof fn lemma_index_of_prefix(a: Seq<(PublicKey, Authority)>, k: Seq<u8>, n: int)
    requires
        0 <= n <= a.len(),
    ensures
        index_of(a.subrange(0, n), k) == (if 0 <= index_of(a, k) < n {
            index_of(a, k)
        } else {
            -1
        }),
{
    lemma_index_of_bounds(a, k);
    lemma_index_of_bounds(a.subrange(0, n), k);
    let s = a.subrange(0, n);
    let i = index_of(s, k);
    let j = index_of(a, k);
    if i >= 0 {
        assert(s[i] == a[i]);
        if j >= 0 && j < i {
            assert(s[j] == a[j]);
        }
    }
    if j >= 0 && j < n {
        assert(s[j] == a[j]);
    }
}

proof fn lemma_worker_index_bounds(w: Seq<(WorkerId, WorkerAddresses)>, id: WorkerId)
    ensures
        -1 <= worker_index(w, id) < w.len(),
        worker_index(w, id) >= 0 ==> w[worker_index(w, id)].0 == id,
        worker_index(w, id) < 0 ==> forall|i: int| 0 <= i < w.len() ==> w[i].0 != id,
        worker_index(w, id) >= 0 ==> forall|i: int| 0 <= i < worker_index(w, id) ==> w[i].0 != id,
    decreases w.len(),
{
    if w.len() > 0 {
        let b = w.drop_last();
        lemma_worker_index_bounds(b, id);
        assert forall|i: int| 0 <= i < b.len() implies w[i] == b[i] by {}
    }
}

/// Searches the member with key `k`.
fn find(a: &Vec<(PublicKey, Authority)>, k: &PublicKey) -> (r: Option<usize>)
    ensures
        match r {
            Some(i) => i == index_of(a@, k@) && i < a@.len(),
            None => index_of(a@, k@) < 0,
        },
{
    proof {
        lemma_index_of_bounds(a@, k@);
    }
    let mut i: usize = 0;
    while i < a.len()
        invariant
            i <= a.len(),
            forall|j: int| 0 <= j < i ==> a@[j].0@ != k@,
        decreases a.len() - i,
    {
        if a[i].0.same(k) {
            proof {
                lemma_index_of_bounds(a@, k@);
                assert(a@[i as int].0@ == k@);
                let x = index_of(a@, k@);
                assert(x >= 0);
                if x < i {
                    assert(a@[x].0@ != k@);
                }
            }
            return Some(i);
        }
        i = i + 1;
    }
    None
}

/// Searches the worker with id `id`.
fn find_worker(w: &Vec<(WorkerId, WorkerAddresses)>, id: WorkerId) -> (r: Option<usize>)
    ensures
        match r {
            Some(i) => i == worker_index(w@, id) && i < w@.len(),
            None => worker_index(w@, id) < 0,
        },
{
    proof {
        lemma_worker_index_bounds(w@, id);
    }
    let mut i: usize = 0;
    while i < w.len()
        invariant
            i <= w.len(),
            forall|j: int| 0 <= j < i ==> w@[j].0 != id,
        decreases w.len() - i,
    {
        if w[i].0 == id {
            proof {
                lemma_worker_index_bounds(w@, id);
                assert(w@[i as int].0 == id);
                let x = worker_index(w@, id);
                assert(x >= 0);
                if x < i {
                    assert(w@[x].0 != id);
                }
            }
            return Some(i);
        }
        i = i + 1;
    }
    None
}

proof fn lemma_others_of_push(a: Seq<(PublicKey, Authority)>, me: Seq<u8>, n: int)
    requires
        0 <= n < a.len(),
    ensures
        others_of(a.subrange(0, n + 1), me) == if a[n].0@ == me {
            others_of(a.subrange(0, n), me)
        } else {
            others_of(a.subrange(0, n), me).push(a[n])
        },
{
    assert(a.subrange(0, n + 1).drop_last() =~= a.subrange(0, n));
}

proof fn lemma_total_stake_push(a: Seq<(PublicKey, Authority)>, n: int)
    requires
        0 <= n < a.len(),
    ensures
        total_stake(a.subrange(0, n + 1)) == total_stake(a.subrange(0, n)) + a[n].1.stake,
{
    assert(a.subrange(0, n + 1).drop_last() =~= a.subrange(0, n));
}

impl Committee {
    /// The members are ordered by strictly increasing keys.
    pub open spec fn wf(&self) -> bool {
        keys_sorted(self.authorities@)
    }

    /// The stake of the member with key `k` (zero for a non-member).
    pub open spec fn spec_stake(&self, k: Seq<u8>) -> nat {
        let i = index_of(self.authorities@, k);
        if i >= 0 {
            self.authorities@[i].1.stake as nat
        } else {
            0
        }
    }

    /// The empty committee.
    pub fn new() -> (c: Committee)
        ensures
            c.wf(),
            c.authorities@.len() == 0,
    {
        Committee { authorities: Vec::new() }
    }

    /// Adds a member, or replaces the member with the same key, keeping the
    /// members ordered by key.
    pub fn insert(&mut self, name: PublicKey, authority: Authority)
        requires
            old(self).wf(),
        ensures
            final(self).wf(),
            index_of(old(self).authorities@, name@) >= 0 ==> final(self).authorities@ == old(
                self,
            ).authorities@.update(index_of(old(self).authorities@, name@), (name, authority)),
            index_of(old(self).authorities@, name@) < 0 ==> exists|p: int|
                0 <= p <= old(self).authorities@.len() && final(self).authorities@ == old(
                    self,
                ).authorities@.insert(p, (name, authority)),
    {
        proof {
            lemma_index_of_bounds(self.authorities@, name@);
        }
        let mut p: usize = 0;
        while p < self.authorities.len() && bytes_less(&self.authorities[p].0.0, &name.0)
            invariant
                p <= self.authorities.len(),
                keys_sorted(self.authorities@),
                forall|j: int| 0 <= j < p ==> bytes_lt(self.authorities@[j].0@, name@),
            decreases self.authorities.len() - p,
        {
            p = p + 1;
        }
        let ghost before = self.authorities@;
        if p < self.authorities.len() && bytes_eq(&self.authorities[p].0.0, &name.0) {
            proof {
                assert(index_of(before, name@) == p) by {
                    let i = index_of(before, name@);
                    if i != p {
                        if i >= 0 && i < p {
                            lemma_bytes_lt_irreflexive(name@);
                        }
                    }
                }
            }
            self.authorities.set(p, (name, authority));
            proof {
                assert forall|i: int, j: int|
                    0 <= i < j < self.authorities@.len() implies bytes_lt(
                    self.authorities@[i].0@,
                    self.authorities@[j].0@,
                ) by {
                    assert(bytes_lt(before[i].0@, before[j].0@));
                }
            }
        } else {
            proof {
                assert forall|i: int| 0 <= i < before.len() implies before[i].0@ != name@ by {
                    if i < p {
                        assert(bytes_lt(before[i].0@, name@));
                        lemma_bytes_lt_irreflexive(name@);
                    } else {
                        if p < before.len() {
                            assert(!bytes_lt(before[p as int].0@, name@));
                            assert(before[p as int].0@ != name@);
                            lemma_bytes_lt_total(before[p as int].0@, name@);
                            if i > p {
                                assert(bytes_lt(before[p as int].0@, before[i].0@));
                                lemma_bytes_lt_transitive(name@, before[p as int].0@, before[i].0@);
                                lemma_bytes_lt_irreflexive(name@);
                            }
                        }
                    }
                }
            }
            self.authorities.insert(p, (name, authority));
            proof {
                let after = self.authorities@;
                assert(after == before.insert(p as int, (name, authority)));
                if p < before.len() {
                    assert(!bytes_lt(before[p as int].0@, name@));
                    lemma_bytes_lt_total(before[p as int].0@, name@);
                    assert(bytes_lt(name@, before[p as int].0@));
                }
                assert forall|i: int, j: int|
                    0 <= i < j < after.len() implies bytes_lt(after[i].0@, after[j].0@) by {
                    if j < p {
                        assert(bytes_lt(before[i].0@, before[j].0@));
                    } else if j == p {
                        assert(after[i] == before[i]);
                    } else if i == p {
                        assert(after[j] == before[j - 1]);
                        if j - 1 > p {
                            assert(bytes_lt(before[p as int].0@, before[j - 1].0@));
                            lemma_bytes_lt_transitive(name@, before[p as int].0@, before[j - 1].0@);
                        }
                    } else if i < p {
                        assert(after[j] == before[j - 1]);
                        assert(bytes_lt(before[i].0@, name@));
                        if j - 1 == p {
                            assert(bytes_lt(name@, before[p as int].0@));
                            lemma_bytes_lt_transitive(before[i].0@, name@, before[p as int].0@);
                        } else {
                            assert(bytes_lt(before[i].0@, before[j - 1].0@));
                        }
                    } else {
                        assert(bytes_lt(before[i - 1].0@, before[j - 1].0@));
                    }
                }
            }
        }
    }

    /// Returns the number of authorities.
    pub fn size(&self) -> (n: usize)
        ensures
            n == self.authorities@.len(),
    {
        self.authorities.len()
    }

    /// Return the stake of a specific authority.
    pub fn stake(&self, name: &PublicKey) -> (s: Stake)
        ensures
            s == self.spec_stake(name@),
    {
        match find(&self.authorities, name) {
            Some(i) => self.authorities[i].1.stake,
            None => 0,
        }
    }

    /// Returns the stake of all authorities except `myself`.
    pub fn others_stake(&self, myself: &PublicKey) -> (r: Vec<(PublicKey, Stake)>)
        ensures
            r@ == others_of(self.authorities@, myself@).map_values(
                |e: (PublicKey, Authority)| (e.0, e.1.stake),
            ),
    {
        let mut r: Vec<(PublicKey, Stake)> = Vec::new();
        let mut i: usize = 0;
        while i < self.authorities.len()
            invariant
                i <= self.authorities.len(),
                r@ == others_of(self.authorities@.subrange(0, i as int), myself@).map_values(
                    |e: (PublicKey, Authority)| (e.0, e.1.stake),
                ),
            decreases self.authorities.len() - i,
        {
            proof {
                lemma_others_of_push(self.authorities@, myself@, i as int);
            }
            if !self.authorities[i].0.same(myself) {
                r.push((self.authorities[i].0, self.authorities[i].1.stake));
            }
            i = i + 1;
            proof {
                assert(r@ =~= others_of(self.authorities@.subrange(0, i as int), myself@).map_values(
                    |e: (PublicKey, Authority)| (e.0, e.1.stake),
                ));
            }
        }
        assert(self.authorities@.subrange(0, self.authorities@.len() as int)
            =~= self.authorities@);
        r
    }

    /// Returns the quorum (2f+1) in number of authorities, with the fault
    /// tolerance `f = (n - 1) / 3` (no quorum, 0, for an empty committee).
    pub fn authorities_quorum_threshold(&self) -> (t: usize)
        ensures
            t == quorum_size(self.authorities@.len()),
    {
        let n = self.authorities.len();
        if n == 0 {
            0
        } else {
            2 * ((n - 1) / 3) + 1
        }
    }

    /// Returns the fault tolerance (f): `(n - 1) / 3`, for a
    /// committee that is not empty.
    pub fn authorities_fault_tolerance(&self) -> (f: usize)
        requires
            self.authorities@.len() >= 1,
        ensures
            f == (self.authorities@.len() - 1) / 3,
    {
        (self.authorities.len() - 1) / 3
    }

    /// Sum of all stakes.
    fn total_votes(&self) -> (t: Stake)
        requires
            total_stake(self.authorities@) <= u32::MAX,
        ensures
            t == total_stake(self.authorities@),
    {
        let mut t: Stake = 0;
        let mut i: usize = 0;
        proof {
            assert(self.authorities@.subrange(0, 0) =~= Seq::<(PublicKey, Authority)>::empty());
        }
        while i < self.authorities.len()
            invariant
                i <= self.authorities.len(),
                total_stake(self.authorities@) <= u32::MAX,
                t == total_stake(self.authorities@.subrange(0, i as int)),
            decreases self.authorities.len() - i,
        {
            proof {
                lemma_total_stake_push(self.authorities@, i as int);
                lemma_total_stake_prefix(self.authorities@, i + 1);
            }
            t = t + self.authorities[i].1.stake;
            i = i + 1;
        }
        assert(self.authorities@.subrange(0, self.authorities@.len() as int)
            =~= self.authorities@);
        t
    }

    /// Returns the stake required to reach a quorum: `2 * total / 3 + 1`.
    /// Twice the total stake must fit in `u32`.
    pub fn quorum_threshold(&self) -> (t: Stake)
        requires
            2 * total_stake(self.authorities@) <= u32::MAX,
        ensures
            t == 2 * total_stake(self.authorities@) / 3 + 1,
    {
        let total_votes = self.total_votes();
        2 * total_votes / 3 + 1
    }

    /// Returns the stake required to reach availability (f+1):
    /// `(total + 2) / 3`.
    pub fn validity_threshold(&self) -> (t: Stake)
        requires
            total_stake(self.authorities@) + 2 <= u32::MAX,
        ensures
            t == (total_stake(self.authorities@) + 2) / 3,
    {
        let total_votes = self.total_votes();
        (total_votes + 2) / 3
    }

    /// The position (counted from 1) of the member with key `key`.
    pub fn get_id(&self, key: &PublicKey) -> (r: Option<Id>)
        ensures
            index_of(self.authorities@, key@) >= 0 ==> r is Some,
            r matches Some(id) ==> id == index_of(self.authorities@, key@) + 1,
            index_of(self.authorities@, key@) < 0 ==> r is None,
    {
        proof {
            lemma_index_of_bounds(self.authorities@, key@);
        }
        match find(&self.authorities, key) {
            Some(i) => {
                assert(i < self.authorities.len());
                Some(i + 1)
            },
            None => None,
        }
    }

    /// Every member's key with its position (counted from 1).
    pub fn get_all_ids(&self) -> (r: Vec<(PublicKey, Id)>)
        ensures
            r.len() == self.authorities@.len(),
            forall|i: int|
                0 <= i < r.len() ==> (#[trigger] r[i]).0 == self.authorities@[i].0 && r[i].1 == i
                    + 1,
    {
        let mut r: Vec<(PublicKey, Id)> = Vec::new();
        let mut i: usize = 0;
        while i < self.authorities.len()
            invariant
                i <= self.authorities.len(),
                r.len() == i,
                forall|k: int|
                    0 <= k < i ==> (#[trigger] r[k]).0 == self.authorities@[k].0 && r[k].1 == k + 1,
            decreases self.authorities.len() - i,
        {
            r.push((self.authorities[i].0, i + 1));
            i = i + 1;
        }
        r
    }

    /// Returns the primary addresses of the target primary.
    pub fn primary(&self, to: &PublicKey) -> (r: Result<PrimaryAddresses, ConfigError>)
        ensures
            index_of(self.authorities@, to@) >= 0 ==> r == Ok::<PrimaryAddresses, ConfigError>(
                self.authorities@[index_of(self.authorities@, to@)].1.primary,
            ),
            index_of(self.authorities@, to@) < 0 ==> r == Err::<PrimaryAddresses, ConfigError>(
                ConfigError::NotInCommittee(*to),
            ),
    {
        match find(&self.authorities, to) {
            Some(i) => Ok(self.authorities[i].1.primary.clone()),
            None => Err(ConfigError::NotInCommittee(*to)),
        }
    }

    /// Returns the breeze address of the target primary.
    pub fn breeze_address(&self, to: &PublicKey) -> (r: Result<String, ConfigError>)
        ensures
            index_of(self.authorities@, to@) >= 0 ==> r == Ok::<String, ConfigError>(
                self.authorities@[index_of(self.authorities@, to@)].1.primary.breeze_addr,
            ),
            index_of(self.authorities@, to@) < 0 ==> r == Err::<String, ConfigError>(
                ConfigError::NotInCommittee(*to),
            ),
    {
        match find(&self.authorities, to) {
            Some(i) => Ok(self.authorities[i].1.primary.breeze_addr.clone()),
            None => Err(ConfigError::NotInCommittee(*to)),
        }
    }

    /// Returns the address of the initial agreement of the target primary.
    pub fn init_bft_address(&self, to: &PublicKey) -> (r: Result<String, ConfigError>)
        ensures
            index_of(self.authorities@, to@) >= 0 ==> r == Ok::<String, ConfigError>(
                self.authorities@[index_of(self.authorities@, to@)].1.primary.init_bft_addr,
            ),
            index_of(self.authorities@, to@) < 0 ==> r == Err::<String, ConfigError>(
                ConfigError::NotInCommittee(*to),
            ),
    {
        match find(&self.authorities, to) {
            Some(i) => Ok(self.authorities[i].1.primary.init_bft_addr.clone()),
            None => Err(ConfigError::NotInCommittee(*to)),
        }
    }

    /// Returns the addresses of all primaries except `myself`.
    pub fn others_primaries(&self, myself: &PublicKey) -> (r: Vec<(PublicKey, PrimaryAddresses)>)
        ensures
            r@ == others_of(self.authorities@, myself@).map_values(
                |e: (PublicKey, Authority)| (e.0, e.1.primary),
            ),
    {
        let mut r: Vec<(PublicKey, PrimaryAddresses)> = Vec::new();
        let mut i: usize = 0;
        while i < self.authorities.len()
            invariant
                i <= self.authorities.len(),
                r@ == others_of(self.authorities@.subrange(0, i as int), myself@).map_values(
                    |e: (PublicKey, Authority)| (e.0, e.1.primary),
                ),
            decreases self.authorities.len() - i,
        {
            proof {
                lemma_others_of_push(self.authorities@, myself@, i as int);
            }
            if !self.authorities[i].0.same(myself) {
                r.push((self.authorities[i].0, self.authorities[i].1.primary.clone()));
            }
            i = i + 1;
            proof {
                assert(r@ =~= others_of(self.authorities@.subrange(0, i as int), myself@).map_values(
                    |e: (PublicKey, Authority)| (e.0, e.1.primary),
                ));
            }
        }
        assert(self.authorities@.subrange(0, self.authorities@.len() as int)
            =~= self.authorities@);
        r
    }

    /// Returns all the breeze addresses.
    pub fn all_breeze_addresses(&self) -> (r: Vec<(PublicKey, String)>)
        ensures
            r.len() == self.authorities@.len(),
            forall|i: int|
                0 <= i < r.len() ==> (#[trigger] r[i]) == (
                    self.authorities@[i].0,
                    self.authorities@[i].1.primary.breeze_addr,
                ),
    {
        let mut r: Vec<(PublicKey, String)> = Vec::new();
        let mut i: usize = 0;
        while i < self.authorities.len()
            invariant
                i <= self.authorities.len(),
                r.len() == i,
                forall|k: int|
                    0 <= k < i ==> (#[trigger] r[k]) == (
                        self.authorities@[k].0,
                        self.authorities@[k].1.primary.breeze_addr,
                    ),
            decreases self.authorities.len() - i,
        {
            r.push((self.authorities[i].0, self.authorities[i].1.primary.breeze_addr.clone()));
            i = i + 1;
        }
        r
    }

    /// Returns all the addresses of the initial agreement.
    pub fn all_init_bft_addresses(&self) -> (r: Vec<(PublicKey, String)>)
        ensures
            r.len() == self.authorities@.len(),
            forall|i: int|
                0 <= i < r.len() ==> (#[trigger] r[i]) == (
                    self.authorities@[i].0,
                    self.authorities@[i].1.primary.init_bft_addr,
                ),
    {
        let mut r: Vec<(PublicKey, String)> = Vec::new();
        let mut i: usize = 0;
        while i < self.authorities.len()
            invariant
                i <= self.authorities.len(),
                r.len() == i,
                forall|k: int|
                    0 <= k < i ==> (#[trigger] r[k]) == (
                        self.authorities@[k].0,
                        self.authorities@[k].1.primary.init_bft_addr,
                    ),
            decreases self.authorities.len() - i,
        {
            r.push((self.authorities[i].0, self.authorities[i].1.primary.init_bft_addr.clone()));
            i = i + 1;
        }
        r
    }

    /// Returns the addresses of a specific worker (`id`) of a specific
    /// authority (`to`).  An unknown authority and an unknown worker are both
    /// reported as `NotInCommittee(to)`.
    pub fn worker(&self, to: &PublicKey, id: &WorkerId) -> (r: Result<WorkerAddresses, ConfigError>)
        ensures
            ({
                let i = index_of(self.authorities@, to@);
                if i >= 0 && worker_index(self.authorities@[i].1.workers@, *id) >= 0 {
                    r == Ok::<WorkerAddresses, ConfigError>(
                        self.authorities@[i].1.workers@[worker_index(
                            self.authorities@[i].1.workers@,
                            *id,
                        )].1,
                    )
                } else {
                    r == Err::<WorkerAddresses, ConfigError>(ConfigError::NotInCommittee(*to))
                }
            }),
    {
        match find(&self.authorities, to) {
            Some(i) => match find_worker(&self.authorities[i].1.workers, *id) {
                Some(j) => Ok(self.authorities[i].1.workers[j].1.clone()),
                None => Err(ConfigError::NotInCommittee(*to)),
            },
            None => Err(ConfigError::NotInCommittee(*to)),
        }
    }

    /// Returns the addresses of all our workers, in the stored order.
    pub fn our_workers(&self, myself: &PublicKey) -> (r: Result<Vec<WorkerAddresses>, ConfigError>)
        ensures
            ({
                let i = index_of(self.authorities@, myself@);
                if i >= 0 {
                    r matches Ok(v) && v@ == self.authorities@[i].1.workers@.map_values(
                        |w: (WorkerId, WorkerAddresses)| w.1,
                    )
                } else {
                    r == Err::<Vec<WorkerAddresses>, ConfigError>(
                        ConfigError::NotInCommittee(*myself),
                    )
                }
            }),
    {
        match find(&self.authorities, myself) {
            Some(i) => {
                let workers = &self.authorities[i].1.workers;
                let mut v: Vec<WorkerAddresses> = Vec::new();
                let mut k: usize = 0;
                while k < workers.len()
                    invariant
                        k <= workers.len(),
                        v@ == workers@.subrange(0, k as int).map_values(
                            |w: (WorkerId, WorkerAddresses)| w.1,
                        ),
                    decreases workers.len() - k,
                {
                    v.push(workers[k].1.clone());
                    k = k + 1;
                    proof {
                        assert(v@ =~= workers@.subrange(0, k as int).map_values(
                            |w: (WorkerId, WorkerAddresses)| w.1,
                        ));
                    }
                }
                assert(workers@.subrange(0, workers@.len() as int) =~= workers@);
                Ok(v)
            },
            None => Err(ConfigError::NotInCommittee(*myself)),
        }
    }

    /// Returns the addresses of all workers with a specific id except the
    /// ones of the authority specified by `myself`.
    pub fn others_workers(&self, myself: &PublicKey, id: &WorkerId) -> (r: Vec<(PublicKey, WorkerAddresses)>)
        ensures
            r@ == others_with_worker(others_of(self.authorities@, myself@), *id),
    {
        let mut r: Vec<(PublicKey, WorkerAddresses)> = Vec::new();
        let mut i: usize = 0;
        while i < self.authorities.len()
            invariant
                i <= self.authorities.len(),
                r@ == others_with_worker(
                    others_of(self.authorities@.subrange(0, i as int), myself@),
                    *id,
                ),
            decreases self.authorities.len() - i,
        {
            proof {
                lemma_others_of_push(self.authorities@, myself@, i as int);
            }
            let ghost o = others_of(self.authorities@.subrange(0, i as int), myself@);
            if !self.authorities[i].0.same(myself) {
                match find_worker(&self.authorities[i].1.workers, *id) {
                    Some(j) => {
                        r.push((self.authorities[i].0, self.authorities[i].1.workers[j].1.clone()));
                    },
                    None => {},
                }
                proof {
                    assert(o.push(self.authorities@[i as int]).drop_last() =~= o);
                }
            }
            i = i + 1;
        }
        assert(self.authorities@.subrange(0, self.authorities@.len() as int)
            =~= self.authorities@);
        r
    }
}

/// For each member in `a` that has a worker with id `id`, its key and that
/// worker's addresses.
pub open spec fn others_with_worker(a: Seq<(PublicKey, Authority)>, id: WorkerId) -> Seq<
    (PublicKey, WorkerAddresses),
>
    decreases a.len(),
{
    if a.len() == 0 {
        Seq::empty()
    } else {
        let rest = others_with_worker(a.drop_last(), id);
        let w = a.last().1.workers@;
        if worker_index(w, id) >= 0 {
            rest.push((a.last().0, w[worker_index(w, id)].1))
        } else {
            rest
        }
    }
}

proof fn lemma_total_stake_prefix(a: Seq<(PublicKey, Authority)>, n: int)
    requires
        0 <= n <= a.len(),
    ensures
        total_stake(a.subrange(0, n)) <= total_stake(a),
    decreases a.len() - n,
{
    if n < a.len() {
        lemma_total_stake_prefix(a, n + 1);
        lemma_total_stake_push(a, n);
    } else {
        assert(a.subrange(0, n) =~= a);
    }
}

/// Law: with total stake `N = 3f + 1 + k` (`0 <= k < 3`) the quorum
/// threshold is `N - f` and the validity threshold is `f + 1`; a quorum is
/// never more than the total stake, and two quorums share at least a
/// validity threshold of stake.
pub proof fn lemma_stake_thresholds(c: Committee)
    requires
        total_stake(c.authorities@) >= 1,
    ensures
        ({
            let n = total_stake(c.authorities@) as int;
            let f = (n - 1) / 3;
            let quorum = 2 * n / 3 + 1;
            let validity = (n + 2) / 3;
            &&& quorum == n - f
            &&& validity == f + 1
            &&& quorum <= n
            &&& 2 * quorum - n >= validity
        }),
{
}

/// Law: the quorum of authorities is at least `2f + 1`, and exactly
/// `2f + 1` when the committee has `3f + 1` members.
pub proof fn lemma_authority_thresholds(c: Committee)
    requires
        c.authorities@.len() >= 1,
    ensures
        ({
            let n = c.authorities@.len() as int;
            let f = (n - 1) / 3;
            let quorum = (2 * n + 1) / 3;
            &&& quorum >= 2 * f + 1
            &&& n % 3 == 1 ==> quorum == 2 * f + 1
            &&& quorum <= n
        }),
{
}

/// Law: in a well-formed committee the position of every member is the id
/// that `get_id` gives its key, so `get_all_ids` and `get_id` agree.
pub proof fn lemma_ids_agree(c: Committee, i: int)
    requires
        c.wf(),
        0 <= i < c.authorities@.len(),
    ensures
        index_of(c.authorities@, c.authorities@[i].0@) == i,
{
    let a = c.authorities@;
    lemma_index_of_bounds(a, a[i].0@);
    let x = index_of(a, a[i].0@);
    if x != i {
        if x < i {
            assert(bytes_lt(a[x].0@, a[i].0@));
        } else {
            assert(bytes_lt(a[i].0@, a[x].0@));
        }
        lemma_bytes_lt_irreflexive(a[i].0@);
    }
}

/// The quorum `2f + 1` of a committee of `n` authorities, with
/// `f = (n - 1) / 3` (0 for no authorities).
pub open spec fn quorum_size(n: nat) -> nat {
    if n == 0 {
        0
    } else {
        (2 * ((n - 1) / 3) + 1) as nat
    }
}

/// A node's key pair.
#[derive(Clone, Copy)]
pub struct KeyPair {
    /// The node's public key (and identifier).
    pub name: PublicKey,
    /// The node's secret key.
    pub secret: SecretKey,
}

impl KeyPair {
    /// A fresh key pair.
    pub fn new() -> (k: KeyPair)
        ensures
            keys_match(k.name@, k.secret@),
    {
        let (name, secret) = generate_production_keypair();
        KeyPair { name, secret }
    }

    /// A fresh key pair.
    pub fn default() -> (k: KeyPair)
        ensures
            keys_match(k.name@, k.secret@),
    {
        Self::new()
    }
}

} // verus!
