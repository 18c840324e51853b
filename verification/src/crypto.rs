//! Digests, post-quantum (Dilithium2) keys and signatures.
//!
//! Keys and signatures are held as their byte encodings; signing, opening
//! and key generation are done by `pqcrypto-dilithium`.

use pqcrypto_dilithium::dilithium2;
use pqcrypto_traits::sign::{PublicKey as _, SecretKey as _, SignedMessage as _};
use vstd::prelude::*;
use crate::hashing::{sha256, spec_sha256};

verus! {

/// Size of a Dilithium2 public key in bytes.
pub const PUBLIC_KEY_BYTES: usize = 1312;

/// Size of a Dilithium2 secret key in bytes.
pub const SECRET_KEY_BYTES: usize = 2560;

/// A hash digest (32 bytes).
#[derive(Clone, Copy, Hash, PartialEq, Eq, PartialOrd, Ord, Default, Debug)]
pub struct Digest(pub [u8; 32]);

/// Every message that can be hashed.
pub trait Hash {
    fn digest(&self) -> Digest;
}

/// Errors of signature verification.
#[derive(Debug, Clone, Copy, PartialEq, Eq, Structural)]
pub enum CryptoError {
    InvalidSignature,
}

/// Copies a byte slice into a vector.
pub(crate) fn bytes_to_vec(s: &[u8]) -> (v: Vec<u8>)
    ensures
        v@ == s@,
{
    let mut v: Vec<u8> = Vec::new();
    let mut k: usize = 0;
    while k < s.len()
        invariant
            k <= s.len(),
            v@ == s@.subrange(0, k as int),
        decreases s.len() - k,
    {
        v.push(s[k]);
        k = k + 1;
        assert(v@ =~= s@.subrange(0, k as int));
    }
    assert(s@.subrange(0, s.len() as int) =~= s@);
    v
}

/// Byte-wise equality of two byte strings.
pub fn bytes_eq(a: &[u8], b: &[u8]) -> (r: bool)
    ensures
        r == (a@ == b@),
{
    if a.len() != b.len() {
        return false;
    }
    let mut k: usize = 0;
    while k < a.len()
        invariant
            a.len() == b.len(),
            k <= a.len(),
            forall|i: int| 0 <= i < k ==> a@[i] == b@[i],
        decreases a.len() - k,
    {
        if a[k] != b[k] {
            return false;
        }
        k = k + 1;
    }
    assert(a@ =~= b@);
    true
}

/// Lexicographic order on byte strings (as `Ord` on byte slices).
pub open spec fn bytes_lt(a: Seq<u8>, b: Seq<u8>) -> bool
    decreases a.len(),
{
    if a.len() == 0 {
        b.len() > 0
    } else if b.len() == 0 {
        false
    } else if a[0] != b[0] {
        a[0] < b[0]
    } else {
        bytes_lt(a.drop_first(), b.drop_first())
    }
}

/// Lemma: the lexicographic order is irreflexive.
pub proof fn lemma_bytes_lt_irreflexive(a: Seq<u8>)
    ensures
        !bytes_lt(a, a),
    decreases a.len(),
{
    if a.len() > 0 {
        lemma_bytes_lt_irreflexive(a.drop_first());
    }
}

/// Lemma: the lexicographic order is transitive.
pub proof fn lemma_bytes_lt_transitive(a: Seq<u8>, b: Seq<u8>, c: Seq<u8>)
    requires
        bytes_lt(a, b),
        bytes_lt(b, c),
    ensures
        bytes_lt(a, c),
    decreases a.len(),
{
    if a.len() > 0 && b.len() > 0 && c.len() > 0 {
        if a[0] == b[0] && b[0] == c[0] {
            lemma_bytes_lt_transitive(a.drop_first(), b.drop_first(), c.drop_first());
        }
    }
}

/// Lemma: two different byte strings are ordered one way or the other.
pub proof fn lemma_bytes_lt_total(a: Seq<u8>, b: Seq<u8>)
    requires
        a != b,
    ensures
        bytes_lt(a, b) || bytes_lt(b, a),
    decreases a.len(),
{
    if a.len() > 0 && b.len() > 0 && a[0] == b[0] {
        if a.drop_first() == b.drop_first() {
            assert(a =~= seq![a[0]] + a.drop_first());
            assert(b =~= seq![b[0]] + b.drop_first());
        }
        lemma_bytes_lt_total(a.drop_first(), b.drop_first());
    } else if a.len() == 0 && b.len() == 0 {
        assert(a =~= b);
    }
}

/// Lemma: the lexicographic order is asymmetric.
pub proof fn lemma_bytes_lt_asymmetric(a: Seq<u8>, b: Seq<u8>)
    requires
        bytes_lt(a, b),
    ensures
        !bytes_lt(b, a),
{
    if bytes_lt(b, a) {
        lemma_bytes_lt_transitive(a, b, a);
        lemma_bytes_lt_irreflexive(a);
    }
}

/// Lexicographic comparison of byte strings.
pub fn bytes_less(a: &[u8], b: &[u8]) -> (r: bool)
    ensures
        r == bytes_lt(a@, b@),
{
    let mut k: usize = 0;
    proof {
        assert(a@.skip(0) =~= a@);
        assert(b@.skip(0) =~= b@);
    }
    while k < a.len() && k < b.len()
        invariant
            k <= a.len(),
            k <= b.len(),
            bytes_lt(a@, b@) == bytes_lt(a@.skip(k as int), b@.skip(k as int)),
        decreases a.len() - k,
    {
        proof {
            assert(a@.skip(k as int)[0] == a@[k as int]);
            assert(b@.skip(k as int)[0] == b@[k as int]);
            assert(a@.skip(k as int).drop_first() =~= a@.skip(k + 1));
            assert(b@.skip(k as int).drop_first() =~= b@.skip(k + 1));
        }
        if a[k] != b[k] {
            return a[k] < b[k];
        }
        k = k + 1;
    }
    a.len() - k < b.len() - k
}

/// The 32 bytes of `item`, when it has exactly 32.
fn slice_to_array32(item: &[u8]) -> (r: Option<[u8; 32]>)
    ensures
        r is Some <==> item@.len() == 32,
        r matches Some(a) ==> a@ == item@,
{
    if item.len() != 32 {
        return None;
    }
    let mut a = [0u8; 32];
    let mut k: usize = 0;
    while k < 32
        invariant
            k <= 32,
            item@.len() == 32,
            forall|j: int| 0 <= j < k ==> a@[j] == item@[j],
        decreases 32 - k,
    {
        a[k] = item[k];
        k = k + 1;
    }
    assert(a@ =~= item@);
    Some(a)
}

impl Digest {
    /// The digest's bytes.
    pub fn to_vec(&self) -> (v: Vec<u8>)
        ensures
            v@ == self.0@,
    {
        bytes_to_vec(&self.0)
    }

    /// Number of bytes (always 32).
    pub fn size(&self) -> (n: usize)
        ensures
            n == 32,
    {
        self.0.len()
    }

    /// The digest made of exactly 32 bytes, if `item` has that length.
    pub fn try_from(item: &[u8]) -> (r: Option<Digest>)
        ensures
            r is Some <==> item@.len() == 32,
            r matches Some(d) ==> d.0@ == item@,
    {
        match slice_to_array32(item) {
            Some(a) => Some(Digest(a)),
            None => None,
        }
    }

    /// Equality of digests.
    pub fn same(&self, other: &Digest) -> (r: bool)
        ensures
            r == (self.0@ == other.0@),
    {
        bytes_eq(&self.0, &other.0)
    }
}

/// The Dilithium2 signed message of `msg` under the secret key `sk`
/// (deterministic signing, as `pqcrypto-dilithium` builds it).
pub uninterp spec fn spec_dilithium_sign(msg: Seq<u8>, sk: Seq<u8>) -> Seq<u8>;

/// The result of opening the signed message `sm` with the public key `pk`:
/// the message when the signature is valid.
pub uninterp spec fn spec_dilithium_open(sm: Seq<u8>, pk: Seq<u8>) -> Option<Seq<u8>>;

/// `sk` signs for `pk`: every message signed with `sk` opens under `pk` to
/// that message.
pub open spec fn keys_match(pk: Seq<u8>, sk: Seq<u8>) -> bool {
    forall|m: Seq<u8>| #[trigger] spec_dilithium_open(spec_dilithium_sign(m, sk), pk) == Some(m)
}

/// Calls `dilithium2::keypair()`.  Claimed: the two keys belong together,
/// a message signed with the secret key opens under the public key to the
/// message (as the crate's own sign-then-open test checks); the keys are
/// random, and nothing more is claimed of them.
#[verifier::external_body]
fn dilithium_keypair() -> (r: ([u8; 1312], [u8; 2560]))
    ensures
        keys_match(r.0@, r.1@),
{
    let (pk, sk) = dilithium2::keypair();
    let mut p = [0u8; 1312];
    p.copy_from_slice(pk.as_bytes());
    let mut s = [0u8; 2560];
    s.copy_from_slice(sk.as_bytes());
    (p, s)
}

/// Calls `dilithium2::sign(msg, sk)`.  Claimed: the signed message is the
/// named result of the two arguments.
#[verifier::external_body]
fn dilithium_sign(msg: &[u8], sk: &[u8; 2560]) -> (r: Vec<u8>)
    ensures
        r@ == spec_dilithium_sign(msg@, sk@),
{
    let key = dilithium2::SecretKey::from_bytes(sk).unwrap();
    dilithium2::sign(msg, &key).as_bytes().to_vec()
}

/// Calls `dilithium2::open(sm, pk)`.  Claimed: the result is the named
/// result of the two arguments (`None` for a rejected signature).
#[verifier::external_body]
fn dilithium_open(sm: &Vec<u8>, pk: &[u8; 1312]) -> (r: Option<Vec<u8>>)
    ensures
        match r {
            Some(m) => spec_dilithium_open(sm@, pk@) == Some(m@),
            None => spec_dilithium_open(sm@, pk@) is None,
        },
{
    let key = dilithium2::PublicKey::from_bytes(pk).unwrap();
    let signed = dilithium2::SignedMessage::from_bytes(sm).unwrap();
    dilithium2::open(&signed, &key).ok()
}

/// A Dilithium2 public key, by its encoding.
#[derive(Clone, Copy, Debug, Hash, PartialEq, Eq, PartialOrd, Ord)]
pub struct PublicKey(pub [u8; 1312]);

/// A Dilithium2 secret key, by its encoding.
#[derive(Clone, Copy)]
pub struct SecretKey(pub [u8; 2560]);

/// A Dilithium2 signed message, by its encoding.
#[derive(Debug, Hash, PartialEq, Eq, PartialOrd, Ord)]
pub struct Signature(pub Vec<u8>);

impl Clone for Signature {
    fn clone(&self) -> (r: Self)
        ensures
            r@ == self@,
    {
        Signature(self.0.clone())
    }
}

impl View for PublicKey {
    type V = Seq<u8>;

    open spec fn view(&self) -> Seq<u8> {
        self.0@
    }
}

impl View for SecretKey {
    type V = Seq<u8>;

    open spec fn view(&self) -> Seq<u8> {
        self.0@
    }
}

impl View for Signature {
    type V = Seq<u8>;

    open spec fn view(&self) -> Seq<u8> {
        self.0@
    }
}

impl PublicKey {
    /// A fresh public key (its secret key is dropped).
    pub fn new_random_test() -> (pk: PublicKey)
        ensures
            exists|sk: SecretKey| keys_match(pk@, #[trigger] sk@),
    {
        let (pk, sk) = dilithium_keypair();
        let key = PublicKey(pk);
        assert(keys_match(key@, SecretKey(sk)@));
        key
    }

    /// SHA-256 of the key's encoding.
    pub fn to_hash32(&self) -> (h: [u8; 32])
        ensures
            h@ == spec_sha256(self@),
    {
        let bytes = bytes_to_vec(&self.0);
        sha256(&bytes)
    }

    /// Equality of keys.
    pub fn same(&self, other: &PublicKey) -> (r: bool)
        ensures
            r == (self@ == other@),
    {
        bytes_eq(&self.0, &other.0)
    }

    /// The all-zero key (the default key).
    pub fn default() -> (pk: PublicKey)
        ensures
            forall|i: int| 0 <= i < 1312 ==> pk@[i] == 0,
    {
        PublicKey([0u8; 1312])
    }
}

/// A fresh key pair.
pub fn generate_keypair() -> (r: (PublicKey, SecretKey))
    ensures
        keys_match(r.0@, r.1@),
{
    let (pk, sk) = dilithium_keypair();
    (PublicKey(pk), SecretKey(sk))
}

/// A fresh key pair for production use.
pub fn generate_production_keypair() -> (r: (PublicKey, SecretKey))
    ensures
        keys_match(r.0@, r.1@),
{
    generate_keypair()
}

/// Outcome of checking a signature that could be opened.
pub open spec fn spec_verify(sig: Seq<u8>, digest: Seq<u8>, pk: Seq<u8>) -> bool {
    spec_dilithium_open(sig, pk) == Some(digest)
}

/// Checking the votes in order, stopping at the first failure, opens every
/// signed message it meets.
pub open spec fn batch_checkable(votes: Seq<(PublicKey, Signature)>, digest: Seq<u8>) -> bool {
    forall|i: int|
        0 <= i < votes.len() && (forall|j: int| 0 <= j < i ==> spec_verify((#[trigger] votes[j]).1@, digest, votes[j].0@))
            ==> spec_dilithium_open((#[trigger] votes[i]).1@, votes[i].0@) is Some
}

impl Signature {
    /// Signs the digest.
    pub fn new(digest: &Digest, secret: &SecretKey) -> (s: Signature)
        ensures
            s@ == spec_dilithium_sign(digest.0@, secret@),
    {
        Signature(dilithium_sign(&digest.0, &secret.0))
    }

    /// The empty signed message.
    pub fn default() -> (s: Signature)
        ensures
            s@.len() == 0,
    {
        Signature(Vec::new())
    }

    /// Checks that the signed message opens, under `public_key`, to exactly
    /// the digest, for a signed message that can be opened at all (see
    /// [`Signature::check`] for any message).
    pub fn verify(&self, digest: &Digest, public_key: &PublicKey) -> (r: Result<(), CryptoError>)
        requires
            spec_dilithium_open(self@, public_key@) is Some,
        ensures
            r is Ok <==> spec_verify(self@, digest.0@, public_key@),
            r matches Err(e) ==> e == CryptoError::InvalidSignature,
    {
        let opened = dilithium_open(&self.0, &public_key.0);
        match opened {
            Some(msg) => {
                let expected = digest.to_vec();
                if bytes_eq(&expected, &msg) {
                    Ok(())
                } else {
                    Err(CryptoError::InvalidSignature)
                }
            },
            None => {
                proof {
                    assert(false);
                }
                Err(CryptoError::InvalidSignature)
            },
        }
    }

    /// [`Signature::verify`] on every input: `None` where the signed message
    /// cannot be opened at all, otherwise the outcome
    /// of `verify`.
    pub fn check(&self, digest: &Digest, public_key: &PublicKey) -> (r: Option<
        Result<(), CryptoError>,
    >)
        ensures
            r is None <==> spec_dilithium_open(self@, public_key@) is None,
            r matches Some(v) ==> (v is Ok <==> spec_verify(self@, digest.0@, public_key@)),
            r matches Some(v) ==> (v matches Err(e) ==> e == CryptoError::InvalidSignature),
    {
        let opened = dilithium_open(&self.0, &public_key.0);
        match opened {
            Some(_) => Some(self.verify(digest, public_key)),
            None => None,
        }
    }

    /// Checks the votes on the digest in order; the first failure is
    /// returned.  Every signed message met before any failing vote must open
    /// (see [`Signature::check_batch`] for any votes).
    pub fn verify_batch(digest: &Digest, votes: &Vec<(PublicKey, Signature)>) -> (r: Result<
        (),
        CryptoError,
    >)
        requires
            batch_checkable(votes@, digest.0@),
        ensures
            r is Ok <==> forall|i: int|
                0 <= i < votes.len() ==> spec_verify(
                    (#[trigger] votes[i]).1@,
                    digest.0@,
                    votes[i].0@,
                ),
            r matches Err(e) ==> e == CryptoError::InvalidSignature,
    {
        let mut k: usize = 0;
        while k < votes.len()
            invariant
                k <= votes.len(),
                batch_checkable(votes@, digest.0@),
                forall|i: int|
                    0 <= i < k ==> spec_verify((#[trigger] votes[i]).1@, digest.0@, votes[i].0@),
            decreases votes.len() - k,
        {
            let (key, sig) = (&votes[k].0, &votes[k].1);
            assert(spec_dilithium_open(votes@[k as int].1@, votes@[k as int].0@) is Some);
            match sig.verify(digest, key) {
                Ok(()) => {},
                Err(e) => {
                    return Err(e);
                },
            }
            k = k + 1;
        }
        Ok(())
    }

    /// [`Signature::verify_batch`] on any votes: `None` where a signed
    /// message met before any failing vote cannot be opened, otherwise the
    /// outcome of `verify_batch`.
    pub fn check_batch(digest: &Digest, votes: &Vec<(PublicKey, Signature)>) -> (r: Option<
        Result<(), CryptoError>,
    >)
        ensures
            r is None <==> !batch_checkable(votes@, digest.0@),
            r matches Some(v) ==> (v is Ok <==> forall|i: int|
                0 <= i < votes.len() ==> spec_verify(
                    (#[trigger] votes[i]).1@,
                    digest.0@,
                    votes[i].0@,
                )),
            r matches Some(v) ==> (v matches Err(e) ==> e == CryptoError::InvalidSignature),
    {
        let mut k: usize = 0;
        while k < votes.len()
            invariant
                k <= votes.len(),
                forall|i: int|
                    0 <= i < k ==> spec_verify((#[trigger] votes[i]).1@, digest.0@, votes[i].0@),
            decreases votes.len() - k,
        {
            match votes[k].1.check(digest, &votes[k].0) {
                None => {
                    return None;
                },
                Some(Ok(())) => {},
                Some(Err(_)) => {
                    proof {
                        assert forall|i: int|
                            0 <= i < votes@.len() && (forall|j: int| 0 <= j < i ==> spec_verify((#[trigger] votes@[j]).1@, digest.0@, votes@[j].0@))
                                implies spec_dilithium_open((#[trigger] votes@[i]).1@, votes@[i].0@) is Some by {
                            if i > k {
                                assert(spec_verify(votes@[k as int].1@, digest.0@, votes@[k as int].0@));
                            }
                        }
                    }
                    return Some(Self::verify_batch(digest, votes));
                },
            }
            k = k + 1;
        }
        Some(Self::verify_batch(digest, votes))
    }
}

} // verus!
