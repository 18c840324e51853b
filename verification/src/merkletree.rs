//! Merkle trees over SHA-256 (from `rs_merkle`): building a tree with an
//! inclusion proof for every leaf, and checking a proof.

use rs_merkle::{algorithms::Sha256, Hasher, MerkleProof, MerkleTree};
use vstd::prelude::*;
use crate::crypto::Digest;
use crate::hashing::spec_sha256;

verus! {

/// The root of the Merkle tree over the given leaf hashes.
pub uninterp spec fn spec_merkle_root(leaves: Seq<Seq<u8>>) -> Seq<u8>;

/// The serialised inclusion proof of leaf `index` in the tree over the given
/// leaf hashes.
pub uninterp spec fn spec_merkle_proof(leaves: Seq<Seq<u8>>, index: int) -> Seq<u8>;

/// Whether a parsed proof shows that `leaf` is leaf `index` of a tree of
/// `total` leaves with the given root.
pub uninterp spec fn spec_merkle_verify(
    proof: Seq<u8>,
    root: Seq<u8>,
    index: int,
    leaf: Seq<u8>,
    total: int,
) -> bool;

/// Errors of Merkle tree handling.
#[derive(Debug, Clone, Copy, PartialEq, Eq, Structural)]
pub enum MerkleError {
    /// The tree has no leaves, so no root.
    NoRoot,
    /// A serialised proof is not a whole number of 32-byte hashes.
    WrongProofSize,
}

/// The 32-byte arrays as byte sequences.
pub open spec fn hash_views(s: Seq<[u8; 32]>) -> Seq<Seq<u8>> {
    s.map_values(|h: [u8; 32]| h@)
}

/// Calls `rs_merkle::algorithms::Sha256::hash`, which runs `sha2`'s
/// SHA-256.  Claimed: the digest of `data`.
#[verifier::external_body]
fn leaf_hash(data: &Vec<u8>) -> (h: [u8; 32])
    ensures
        h@ == spec_sha256(data@),
{
    Sha256::hash(data.as_slice())
}

/// Calls `MerkleTree::<Sha256>::from_leaves(leaves).root()`.  Claimed: no
/// root exactly when there are no leaves (the tree then has no layer);
/// otherwise the root is named.
#[verifier::external_body]
fn tree_root(leaves: &Vec<[u8; 32]>) -> (r: Option<[u8; 32]>)
    ensures
        r is None <==> leaves@.len() == 0,
        r matches Some(h) ==> h@ == spec_merkle_root(hash_views(leaves@)),
{
    MerkleTree::<Sha256>::from_leaves(leaves.as_slice()).root()
}

/// Calls `MerkleTree::<Sha256>::from_leaves(leaves).proof(&[index])` and
/// serialises the proof with `to_bytes`.  Claimed: the result is named; for
/// a leaf of the tree it is a whole number of 32-byte hashes and, parsed
/// back, verifies that leaf against the tree's root (the round trip that
/// the documentation of `proof` shows).
#[verifier::external_body]
fn tree_proof(leaves: &Vec<[u8; 32]>, index: usize) -> (p: Vec<u8>)
    ensures
        p@ == spec_merkle_proof(hash_views(leaves@), index as int),
        index < leaves@.len() ==> p@.len() % 32 == 0 && spec_merkle_verify(
            p@,
            spec_merkle_root(hash_views(leaves@)),
            index as int,
            leaves@[index as int]@,
            leaves@.len() as int,
        ),
{
    let tree = MerkleTree::<Sha256>::from_leaves(leaves.as_slice());
    tree.proof(&[index]).to_bytes()
}

/// Calls `MerkleProof::<Sha256>::try_from(proof)` and, when it parses,
/// `verify(root, &[index], &[leaf], total)`.  Claimed: parsing fails exactly
/// when the length is not a multiple of 32 (`from_bytes` checks that and
/// nothing else can fail for 32-byte hashes); the outcome of `verify` is
/// named.
#[verifier::external_body]
fn proof_verifies(proof: Vec<u8>, root: [u8; 32], index: usize, leaf: [u8; 32], total: usize) -> (r:
    Option<bool>)
    ensures
        r is None <==> proof@.len() % 32 != 0,
        r matches Some(b) ==> b == spec_merkle_verify(
            proof@,
            root@,
            index as int,
            leaf@,
            total as int,
        ),
{
    match MerkleProof::<Sha256>::try_from(proof) {
        Ok(p) => Some(p.verify(root, &[index], &[leaf], total)),
        Err(_) => None,
    }
}

/// The leaf hashes of the inputs.
pub open spec fn leaf_hashes(input: Seq<Vec<u8>>) -> Seq<Seq<u8>> {
    input.map_values(|d: Vec<u8>| spec_sha256(d@))
}

/// Builds the Merkle tree over the SHA-256 hashes of the inputs and gives
/// its root with the inclusion proof of every leaf, leaf `i` proved at
/// index `i` (the position it has in the tree, which the checks use; the
/// index is not shifted by one).  Fails on an empty input, which has no
/// root.
pub fn generate_merkle_tree(input: Vec<Vec<u8>>) -> (r: Result<(Digest, Vec<(usize, Vec<u8>)>), MerkleError>)
    ensures
        r is Err <==> input@.len() == 0,
        r matches Err(e) ==> e == MerkleError::NoRoot,
        r matches Ok((root, proofs)) ==> {
            &&& root.0@ == spec_merkle_root(leaf_hashes(input@))
            &&& proofs@.len() == input@.len()
            &&& forall|i: int|
                0 <= i < proofs@.len() ==> (#[trigger] proofs@[i]).0 == i && proofs@[i].1@
                    == spec_merkle_proof(leaf_hashes(input@), i)
            &&& forall|i: int|
                0 <= i < proofs@.len() ==> (#[trigger] proofs@[i]).1@.len() % 32 == 0 && spec_merkle_verify(
                    proofs@[i].1@,
                    root.0@,
                    i,
                    spec_sha256(input@[i]@),
                    input@.len() as int,
                )
        },
{
    let mut leaves: Vec<[u8; 32]> = Vec::new();
    let mut k: usize = 0;
    while k < input.len()
        invariant
            k <= input.len(),
            hash_views(leaves@) == leaf_hashes(input@).subrange(0, k as int),
        decreases input.len() - k,
    {
        let h = leaf_hash(&input[k]);
        let ghost before = leaves@;
        assert(hash_views(before).len() == before.len());
        assert(before.len() == k);
        leaves.push(h);
        proof {
            assert(leaves@ == before.push(h));
            assert forall|j: int| 0 <= j <= k implies #[trigger] hash_views(leaves@)[j] == leaf_hashes(input@)[j] by {
                if j < k {
                    assert(leaves@[j] == before[j]);
                    assert(hash_views(before)[j] == leaf_hashes(input@).subrange(0, k as int)[j]);
                } else {
                    assert(leaves@[j] == h);
                }
            }
        }
        k = k + 1;
        assert(hash_views(leaves@) =~= leaf_hashes(input@).subrange(0, k as int));
    }
    assert(hash_views(leaves@) =~= leaf_hashes(input@));
    let root = match tree_root(&leaves) {
        Some(h) => h,
        None => {
            return Err(MerkleError::NoRoot);
        },
    };
    let mut proofs: Vec<(usize, Vec<u8>)> = Vec::new();
    let mut i: usize = 0;
    while i < leaves.len()
        invariant
            i <= leaves.len(),
            leaves@.len() == input@.len(),
            hash_views(leaves@) == leaf_hashes(input@),
            proofs@.len() == i,
            forall|j: int|
                0 <= j < i ==> (#[trigger] proofs@[j]).0 == j && proofs@[j].1@ == spec_merkle_proof(
                    leaf_hashes(input@),
                    j,
                ),
            root@ == spec_merkle_root(hash_views(leaves@)),
            forall|j: int|
                0 <= j < i ==> (#[trigger] proofs@[j]).1@.len() % 32 == 0 && spec_merkle_verify(
                    proofs@[j].1@,
                    root@,
                    j,
                    spec_sha256(input@[j]@),
                    input@.len() as int,
                ),
        decreases leaves.len() - i,
    {
        let p = tree_proof(&leaves, i);
        proof {
            assert(hash_views(leaves@)[i as int] == leaves@[i as int]@);
            assert(leaf_hashes(input@)[i as int] == spec_sha256(input@[i as int]@));
        }
        proofs.push((i, p));
        i = i + 1;
    }
    Ok((Digest(root), proofs))
}

/// Checks an inclusion proof of `leaf` at the given index against `root`.
/// Fails when the proof does not parse.
pub fn verify_merkle_proof(
    leaf: &Vec<u8>,
    proof_tuple: (usize, Vec<u8>),
    root: Digest,
    total_leaves_count: usize,
) -> (r: Result<bool, MerkleError>)
    ensures
        r is Err <==> proof_tuple.1@.len() % 32 != 0,
        r matches Err(e) ==> e == MerkleError::WrongProofSize,
        r matches Ok(b) ==> b == spec_merkle_verify(
            proof_tuple.1@,
            root.0@,
            proof_tuple.0 as int,
            spec_sha256(leaf@),
            total_leaves_count as int,
        ),
{
    let leaf_to_prove = leaf_hash(leaf);
    match proof_verifies(proof_tuple.1, root.0, proof_tuple.0, leaf_to_prove, total_leaves_count) {
        Some(b) => Ok(b),
        None => Err(MerkleError::WrongProofSize),
    }
}

} // verus!
