//! The dealer of the lattice-based batched secret sharing: it commits to a
//! batch of random polynomials, gives every party its evaluations with an
//! evaluation proof, and commits to each layer of evaluations with a Merkle
//! tree.  Parties check their shares against the commitment and the roots.

use vstd::prelude::*;
use crate::calculation::{
    ProofUnit, check_proofs, proof_views, proofs_accepted, proofs_wf, reduce_seq, residue_seq,
    vec_to_dvec, vectors_entries, verify_params_ok, x_vector, zq, matrix_wf, level_fits, f_vector,
    commit_t, commit_bits, poly_eval, v_fold, fs_rows, fs_prefix, proof_run, generate_f_vector,
    generate_t, generate_x_vectors, generate_polynomial_evaluation, generate_v,
    generate_fiat_shamir_challenge_matrix, generate_proof, x_vectors_wf,
};
use crate::polynomial::Polynomial;
use vstd::arithmetic::power::pow;
use crate::crypto::{Digest, PublicKey, bytes_to_vec};
use crate::hashing::{be_bytes, push_be_u128, sha256, spec_sha256};
use crate::merkletree::{MerkleError, generate_merkle_tree, leaf_hashes, spec_merkle_proof, spec_merkle_root, spec_merkle_verify, verify_merkle_proof};
use crate::model::Share;
use crate::types_and_const::{Epoch, Id, ZqMod};
use crate::zq_int::{ZqInt, zq_seq_wf};
use crate::zq_matrix::{ZqMatrix, ZqVector, is_rect, zq_matrix_ncols, zq_matrix_rows};

verus! {

/// The common reference string as it is stored: the commitment matrix by
/// rows of residues, and the parameters.
pub struct CommonReferenceString {
    pub a: Vec<Vec<ZqMod>>,
    pub q: ZqMod,
    pub log_q: usize,
    pub g: usize,
    pub n: usize,
    pub kappa: usize,
    pub r: usize,
    pub ell: usize,
}

/// The common reference string with the commitment matrix over `Z_q`.
pub struct PQCrs {
    pub a: ZqMatrix,
    pub q: ZqMod,
    pub log_q: usize,
    pub g: usize,
    pub n: usize,
    pub kappa: usize,
    pub r: usize,
    pub ell: usize,
}

/// The rows of `a` laid end to end.
pub open spec fn flatten_rows(a: Seq<Vec<ZqMod>>, ncols: int) -> Seq<ZqMod> {
    Seq::new((a.len() * ncols) as nat, |k: int| a[k / ncols]@[k % ncols])
}

impl PQCrs {
    /// Builds the matrix over `Z_q` from the stored rows.  The residues are
    /// read row by row and placed column by column, as `DMatrix::from_vec`
    /// fills a matrix.
    pub fn from(crs: &CommonReferenceString) -> (p: PQCrs)
        requires
            crs.q % 2 == 1,
            crs.a@.len() > 0,
            crs.a@[0]@.len() > 0,
            forall|i: int| 0 <= i < crs.a@.len() ==> (#[trigger] crs.a@[i])@.len() == crs.a@[0]@.len(),
            crs.a@.len() * crs.a@[0]@.len() <= usize::MAX,
        ensures
            zq_matrix_rows(p.a).len() == crs.a@.len(),
            zq_matrix_ncols(p.a) == crs.a@[0]@.len(),
            is_rect(zq_matrix_rows(p.a), zq_matrix_ncols(p.a)),
            forall|i: int, j: int|
                0 <= i < crs.a@.len() && 0 <= j < crs.a@[0]@.len() ==> #[trigger] zq_matrix_rows(p.a)[i][j]
                    == zq(
                    flatten_rows(crs.a@, crs.a@[0]@.len() as int)[i + j * crs.a@.len()] as int % (
                    crs.q as int),
                    crs.q,
                ),
            p.q == crs.q,
            p.log_q == crs.log_q,
            p.g == crs.g,
            p.n == crs.n,
            p.kappa == crs.kappa,
            p.r == crs.r,
            p.ell == crs.ell,
    {
        let nrows = crs.a.len();
        let ncols = crs.a[0].len();
        let ghost flat = flatten_rows(crs.a@, ncols as int);
        let mut data: Vec<ZqInt> = Vec::new();
        let mut i: usize = 0;
        while i < nrows
            invariant
                i <= nrows,
                nrows == crs.a@.len(),
                ncols == crs.a@[0]@.len(),
                ncols > 0,
                crs.q % 2 == 1,
                nrows * ncols <= usize::MAX,
                forall|k: int| 0 <= k < crs.a@.len() ==> (#[trigger] crs.a@[k])@.len() == ncols,
                flat == flatten_rows(crs.a@, ncols as int),
                data@ == reduce_seq(flat, crs.q).subrange(0, (i * ncols) as int),
            decreases nrows - i,
        {
            assert(i * ncols + ncols <= nrows * ncols) by (nonlinear_arith)
                requires
                    i < nrows,
            ;
            let row = &crs.a[i];
            let mut j: usize = 0;
            while j < ncols
                invariant
                    j <= ncols,
                    i < nrows,
                    nrows == crs.a@.len(),
                    ncols == crs.a@[0]@.len(),
                    ncols > 0,
                    crs.q % 2 == 1,
                    i * ncols + ncols <= nrows * ncols,
                    *row == crs.a@[i as int],
                    row@.len() == ncols,
                    flat == flatten_rows(crs.a@, ncols as int),
                    data@ == reduce_seq(flat, crs.q).subrange(0, i * ncols + j),
                decreases ncols - j,
            {
                data.push(ZqInt::new(row[j], crs.q));
                proof {
                    crate::calculation::lemma_block_index(i as int, j as int, ncols as int);
                    assert(data@ =~= reduce_seq(flat, crs.q).subrange(0, i * ncols + j + 1));
                }
                j = j + 1;
            }
            assert(i * ncols + ncols == (i + 1) * ncols) by (nonlinear_arith);
            i = i + 1;
        }
        assert(data@ =~= reduce_seq(flat, crs.q));
        let a = ZqMatrix::from_column_major(nrows, ncols, data);
        proof {
            assert forall|i: int, j: int|
                0 <= i < nrows && 0 <= j < ncols implies #[trigger] zq_matrix_rows(a)[i][j] == zq(
                flat[i + j * nrows] as int % (crs.q as int),
                crs.q,
            ) by {
                assert(i + j * nrows < nrows * ncols) by (nonlinear_arith)
                    requires
                        0 <= i < nrows,
                        0 <= j < ncols,
            ;
            }
        }
        PQCrs {
            a,
            q: crs.q,
            log_q: crs.log_q,
            g: crs.g,
            n: crs.n,
            kappa: crs.kappa,
            r: crs.r,
            ell: crs.ell,
        }
    }
}

/// A dealer's shares, one per party, with the party's key.
pub struct Shares(pub Vec<(Share, PublicKey)>);

/// The residues, each as 16 big-endian bytes, one after another.
pub open spec fn concat_be(s: Seq<ZqMod>) -> Seq<u8>
    decreases s.len(),
{
    if s.len() == 0 {
        Seq::empty()
    } else {
        concat_be(s.drop_last()) + be_bytes(s.last() as nat, 16)
    }
}

/// The digest of a commitment: SHA-256 of its residues in 16 big-endian
/// bytes each.
pub fn hash_c(t: &Vec<ZqMod>) -> (d: Digest)
    ensures
        d.0@ == spec_sha256(concat_be(t@)),
{
    let mut data: Vec<u8> = Vec::new();
    let mut i: usize = 0;
    while i < t.len()
        invariant
            i <= t.len(),
            data@ == concat_be(t@.subrange(0, i as int)),
        decreases t.len() - i,
    {
        push_be_u128(t[i], &mut data);
        proof {
            let s = t@.subrange(0, i + 1);
            assert(s.drop_last() =~= t@.subrange(0, i as int));
        }
        i = i + 1;
    }
    assert(t@.subrange(0, t@.len() as int) =~= t@);
    Digest(sha256(&data))
}

/// The SHA-256 digest of a residue in 16 big-endian bytes.
pub open spec fn residue_digest(x: ZqMod) -> Seq<u8> {
    spec_sha256(be_bytes(x as nat, 16))
}

/// The digest of each residue, as the leaves of a Merkle tree.
pub fn hash_u128_vec_to_bytes_vec(inputs: Vec<ZqMod>) -> (out: Vec<Vec<u8>>)
    ensures
        out@.len() == inputs@.len(),
        forall|i: int| 0 <= i < inputs@.len() ==> (#[trigger] out@[i])@ == residue_digest(inputs@[i]),
{
    let mut out: Vec<Vec<u8>> = Vec::new();
    let mut i: usize = 0;
    while i < inputs.len()
        invariant
            i <= inputs.len(),
            out@.len() == i,
            forall|k: int| 0 <= k < i ==> (#[trigger] out@[k])@ == residue_digest(inputs@[k]),
        decreases inputs.len() - i,
    {
        let mut bytes: Vec<u8> = Vec::new();
        push_be_u128(inputs[i], &mut bytes);
        assert(bytes@ =~= be_bytes(inputs@[i as int] as nat, 16));
        let h = sha256(&bytes);
        out.push(bytes_to_vec(&h));
        i = i + 1;
    }
    out
}

/// Regroups the proofs of all layers by party: the result has one entry per
/// party `j` (numbered from 1) holding its proof in every layer.  Unless
/// there is no layer or the first is empty (then the result is empty),
/// every layer must hold one proof per party, at positions `0..n`.
pub fn transpose_merkle_proofs(matrix: Vec<Vec<(usize, Vec<u8>)>>) -> (result: Vec<(usize, Vec<Vec<u8>>)>)
    requires
        matrix@.len() > 0 && matrix@[0]@.len() > 0 ==> {
            &&& forall|i: int| 0 <= i < matrix@.len() ==> (#[trigger] matrix@[i])@.len() == matrix@[0]@.len()
            &&& forall|i: int, j: int|
                0 <= i < matrix@.len() && 0 <= j < matrix@[i]@.len() ==> #[trigger] matrix@[i]@[j].0 == j
        },
    ensures
        matrix@.len() == 0 || matrix@[0]@.len() == 0 ==> result@.len() == 0,
        matrix@.len() > 0 ==> result@.len() == matrix@[0]@.len(),
        forall|j: int|
            0 <= j < result@.len() ==> (#[trigger] result@[j]).0 == j + 1 && result@[j].1@.len()
                == matrix@.len(),
        forall|j: int, i: int|
            0 <= j < result@.len() && 0 <= i < matrix@.len() ==> #[trigger] result@[j].1@[i]@
                == matrix@[i]@[j].1@,
{
    if matrix.len() == 0 || matrix[0].len() == 0 {
        return Vec::new();
    }
    let b = matrix.len();
    let n = matrix[0].len();
    let mut result: Vec<(usize, Vec<Vec<u8>>)> = Vec::new();
    let mut j: usize = 0;
    while j < n
        invariant
            j <= n,
            b == matrix@.len(),
            n == matrix@[0]@.len(),
            forall|i: int| 0 <= i < matrix@.len() ==> (#[trigger] matrix@[i])@.len() == n,
            result@.len() == j,
            forall|k: int|
                0 <= k < j ==> (#[trigger] result@[k]).0 == k + 1 && result@[k].1@.len() == b,
            forall|k: int, i: int|
                0 <= k < j && 0 <= i < b ==> #[trigger] result@[k].1@[i]@ == matrix@[i]@[k].1@,
        decreases n - j,
    {
        let mut column: Vec<Vec<u8>> = Vec::new();
        let mut i: usize = 0;
        while i < b
            invariant
                i <= b,
                j < n,
                b == matrix@.len(),
                forall|k: int| 0 <= k < matrix@.len() ==> (#[trigger] matrix@[k])@.len() == n,
                column@.len() == i,
                forall|k: int| 0 <= k < i ==> (#[trigger] column@[k])@ == matrix@[k]@[j as int].1@,
            decreases b - i,
        {
            column.push(bytes_to_vec(matrix[i][j].1.as_slice()));
            i = i + 1;
        }
        result.push((j + 1, column));
        j = j + 1;
    }
    result
}

/// The SHA-256 digest of a residue, computed as a Merkle leaf.
fn residue_leaf(x: ZqMod) -> (leaf: Vec<u8>)
    ensures
        leaf@ == residue_digest(x),
{
    let mut bytes: Vec<u8> = Vec::new();
    push_be_u128(x, &mut bytes);
    assert(bytes@ =~= be_bytes(x as nat, 16));
    let h = sha256(&bytes);
    bytes_to_vec(&h)
}

/// The evaluation vectors at a party's id: vector `i` holds `x^(r^i * j)`
/// for `x = id mod q`.
pub open spec fn id_x_vectors(id: Id, q: ZqMod, r: usize, ell: usize) -> Seq<Seq<ZqInt>> {
    Seq::new((ell + 1) as nat, |i: int| x_vector(zq(id as int % (q as int), q), r as nat, i as nat))
}

/// The openings of a share's evaluation proof as vectors modulo `q`.
pub open spec fn share_proof_views(eval_proof: Seq<(Vec<ZqMod>, Vec<ZqMod>)>, q: ZqMod) -> Seq<
    (Seq<ZqInt>, Seq<ZqInt>),
> {
    eval_proof.map_values(|p: (Vec<ZqMod>, Vec<ZqMod>)| (reduce_seq(p.0@, q), reduce_seq(p.1@, q)))
}

/// Whether the share of party `id` carries an accepted evaluation proof of
/// its evaluations `y_k` against the commitment `t`.
pub open spec fn share_accepted(crs: &PQCrs, share: &Share, id: Id) -> bool {
    proofs_accepted(
        share_proof_views(share.eval_proof@, crs.q),
        zq_matrix_rows(crs.a),
        zq_matrix_ncols(crs.a) as int,
        reduce_seq(share.t@, crs.q),
        reduce_seq(share.y_k@, crs.q),
        id_x_vectors(id, crs.q, crs.r, crs.ell),
        crs.ell as nat,
        crs.r,
        crs.kappa,
        crs.n,
        crs.q,
        crs.log_q,
    )
}

/// The parameters of the reference string let a share be checked.
pub open spec fn crs_verify_ok(crs: &PQCrs, id: Id) -> bool {
    &&& crs.ell < usize::MAX
    &&& vstd::arithmetic::power::pow(crs.r as int, crs.ell as nat) <= usize::MAX
    &&& verify_params_ok(
        crs.a,
        id_x_vectors(id, crs.q, crs.r, crs.ell),
        crs.ell as nat,
        crs.r,
        crs.kappa,
        crs.n,
        crs.q,
        crs.log_q,
    )
}

impl Shares {
    /// Whether the share of party `id` is accepted (see [`share_accepted`]).
    pub fn check_shares(crs: &PQCrs, share: &Share, id: Id) -> (ok: bool)
        requires
            crs.q % 2 == 1,
            crs_verify_ok(crs, id),
        ensures
            ok == share_accepted(crs, share, id),
    {
        let q = crs.q;
        let mut proofs: Vec<ProofUnit> = Vec::new();
        let mut k: usize = 0;
        while k < share.eval_proof.len()
            invariant
                k <= share.eval_proof.len(),
                q == crs.q,
                q % 2 == 1,
                proof_views(proofs@) == share_proof_views(share.eval_proof@, q).subrange(0, k as int),
                proofs_wf(proofs@, q),
            decreases share.eval_proof.len() - k,
        {
            let unit = ProofUnit::from_residue_vecs(&share.eval_proof[k], q);
            proof {
                assert forall|z: int| 0 <= z < unit.y.entries().len() implies (#[trigger] unit.y.entries()[z]).wf() && unit.y.entries()[z].modulus == q by {
                    vstd::arithmetic::div_mod::lemma_mod_bound(share.eval_proof@[k as int].0@[z] as int, q as int);
                }
                assert forall|z: int| 0 <= z < unit.v.entries().len() implies (#[trigger] unit.v.entries()[z]).wf() && unit.v.entries()[z].modulus == q by {
                    vstd::arithmetic::div_mod::lemma_mod_bound(share.eval_proof@[k as int].1@[z] as int, q as int);
                }
            }
            let ghost before = proofs@;
            let ghost uv = (unit.y.entries(), unit.v.entries());
            let ghost unit_g = unit;
            assert(proof_views(before).len() == before.len());
            proofs.push(unit);
            proof {
                assert(proofs@ == before.push(unit_g));
                assert forall|z: int| 0 <= z <= k implies #[trigger] proof_views(proofs@)[z] == share_proof_views(share.eval_proof@, q)[z] by {
                    if z < k {
                        assert(proofs@[z] == before[z]);
                        assert(proof_views(before)[z] == share_proof_views(share.eval_proof@, q).subrange(0, k as int)[z]);
                    }
                }
                assert(proof_views(proofs@) =~= share_proof_views(share.eval_proof@, q).subrange(0, k + 1));
                assert forall|z: int| 0 <= z < proofs@.len() implies zq_seq_wf((#[trigger] proofs@[z]).y.entries(), q) && zq_seq_wf(proofs@[z].v.entries(), q) by {
                    if z < k {
                        assert(proofs@[z] == before[z]);
                    }
                }
            }
            k = k + 1;
        }
        assert(proof_views(proofs@) =~= share_proof_views(share.eval_proof@, q));
        let t = vec_to_dvec(&share.t, q);
        let u = vec_to_dvec(&share.y_k, q);
        let x0 = ZqInt::new(id as ZqMod, q);
        let x = crate::calculation::generate_x_vectors(x0, crs.ell, crs.r);
        assert(vectors_entries(x@) =~= id_x_vectors(id, q, crs.r, crs.ell));
        check_proofs(&proofs, &crs.a, t, u, x, crs.ell, crs.r, crs.kappa, crs.n, q, crs.log_q)
    }

    /// Checks the share of party `id`; only shares whose proof is accepted
    /// are admitted (see [`Shares::check_shares`] for any share).
    pub fn verify_shares(crs: &PQCrs, share: &Share, id: Id) -> (ok: bool)
        requires
            crs.q % 2 == 1,
            crs_verify_ok(crs, id),
            share_accepted(crs, share, id),
        ensures
            ok,
    {
        Self::check_shares(crs, share, id)
    }

    /// Checks that every Merkle proof of the share parses; the outcome of
    /// each check against its root is not looked at.
    pub fn verify_merkle_batch(id: usize, share: &Share, roots: &Vec<Digest>) -> (ok: bool)
        requires
            id >= 1,
            share.merkle_proofs@.len() >= share.y_k@.len(),
            roots@.len() >= share.y_k@.len(),
        ensures
            ok == forall|i: int|
                0 <= i < share.y_k@.len() ==> (#[trigger] share.merkle_proofs@[i])@.len() % 32 == 0,
    {
        let mut idx: usize = 0;
        while idx < share.y_k.len()
            invariant
                idx <= share.y_k.len(),
                id >= 1,
                share.merkle_proofs@.len() >= share.y_k@.len(),
                roots@.len() >= share.y_k@.len(),
                forall|i: int| 0 <= i < idx ==> (#[trigger] share.merkle_proofs@[i])@.len() % 32 == 0,
            decreases share.y_k.len() - idx,
        {
            let leaf = residue_leaf(share.y_k[idx]);
            let proof = bytes_to_vec(share.merkle_proofs[idx].as_slice());
            match verify_merkle_proof(&leaf, (id - 1, proof), roots[idx], share.total_party_num) {
                Ok(_) => {},
                Err(_) => {
                    return false;
                },
            }
            idx = idx + 1;
        }
        true
    }

    /// Checks a party's Merkle proofs, one per evaluation: the lengths must
    /// agree and every proof must parse; the outcome of each check against
    /// its root is not looked at.
    pub fn verify_merkle(
        y: &Vec<ZqMod>,
        proof: (usize, Vec<Vec<u8>>),
        root: Vec<Digest>,
        total_leaves_count: usize,
    ) -> (ok: bool)
        ensures
            ok == (proof.1@.len() == root@.len() && y@.len() == root@.len() && forall|i: int|
                0 <= i < root@.len() ==> (#[trigger] proof.1@[i])@.len() % 32 == 0),
    {
        if proof.1.len() != root.len() || y.len() != root.len() {
            return false;
        }
        let mut i: usize = 0;
        while i < proof.1.len()
            invariant
                i <= proof.1.len(),
                proof.1@.len() == root@.len(),
                y@.len() == root@.len(),
                forall|k: int| 0 <= k < i ==> (#[trigger] proof.1@[k])@.len() % 32 == 0,
            decreases proof.1.len() - i,
        {
            let leaf = residue_leaf(y[i]);
            let p = bytes_to_vec(proof.1[i].as_slice());
            match verify_merkle_proof(&leaf, (proof.0, p), root[i], total_leaves_count) {
                Ok(_) => {},
                Err(_) => {
                    return false;
                },
            }
            i = i + 1;
        }
        true
    }
}

/// The leaf hashes of the Merkle tree of layer `idx`: for each party, the
/// hash of the digest of its `idx`-th evaluation.
pub open spec fn layer_leaves(shares: Seq<(Share, PublicKey)>, idx: int) -> Seq<Seq<u8>> {
    Seq::new(shares.len(), |j: int| spec_sha256(residue_digest(shares[j].0.y_k@[idx])))
}

/// Commits to each layer of evaluations (the `idx`-th evaluation of every
/// party) with a Merkle tree: gives the roots, and for each party `j`
/// (numbered from 1) its inclusion proof in every layer.
pub fn generate_merkle_proofs(shares: &Vec<(Share, PublicKey)>) -> (r: (Vec<Digest>, Vec<(usize, Vec<Vec<u8>>)>))
    requires
        shares@.len() > 0,
        forall|j: int| 0 <= j < shares@.len() ==> (#[trigger] shares@[j]).0.y_k@.len() >= shares@[0].0.y_k@.len(),
    ensures
        r.0@.len() == shares@[0].0.y_k@.len(),
        forall|idx: int| 0 <= idx < r.0@.len() ==> (#[trigger] r.0@[idx]).0@ == spec_merkle_root(layer_leaves(shares@, idx)),
        shares@[0].0.y_k@.len() == 0 ==> r.1@.len() == 0,
        shares@[0].0.y_k@.len() > 0 ==> r.1@.len() == shares@.len(),
        forall|j: int| 0 <= j < r.1@.len() ==> (#[trigger] r.1@[j]).0 == j + 1 && r.1@[j].1@.len() == shares@[0].0.y_k@.len(),
        forall|j: int, idx: int|
            0 <= j < r.1@.len() && 0 <= idx < shares@[0].0.y_k@.len() ==> #[trigger] r.1@[j].1@[idx]@
                == spec_merkle_proof(layer_leaves(shares@, idx), j),
{
    let len = shares[0].0.y_k.len();
    let mut roots: Vec<Digest> = Vec::new();
    let mut proofs: Vec<Vec<(usize, Vec<u8>)>> = Vec::new();
    let mut idx: usize = 0;
    while idx < len
        invariant
            idx <= len,
            len == shares@[0].0.y_k@.len(),
            shares@.len() > 0,
            forall|j: int| 0 <= j < shares@.len() ==> (#[trigger] shares@[j]).0.y_k@.len() >= len,
            roots@.len() == idx,
            proofs@.len() == idx,
            forall|k: int| 0 <= k < idx ==> (#[trigger] roots@[k]).0@ == spec_merkle_root(layer_leaves(shares@, k)),
            forall|k: int| 0 <= k < idx ==> (#[trigger] proofs@[k])@.len() == shares@.len(),
            forall|k: int, j: int|
                0 <= k < idx && 0 <= j < shares@.len() ==> (#[trigger] proofs@[k]@[j]).0 == j
                    && proofs@[k]@[j].1@ == spec_merkle_proof(layer_leaves(shares@, k), j),
        decreases len - idx,
    {
        let mut layer: Vec<ZqMod> = Vec::new();
        let mut j: usize = 0;
        while j < shares.len()
            invariant
                j <= shares.len(),
                idx < len,
                forall|z: int| 0 <= z < shares@.len() ==> (#[trigger] shares@[z]).0.y_k@.len() >= len,
                layer@.len() == j,
                forall|z: int| 0 <= z < j ==> layer@[z] == (#[trigger] shares@[z]).0.y_k@[idx as int],
            decreases shares.len() - j,
        {
            layer.push(shares[j].0.y_k[idx]);
            j = j + 1;
        }
        let leaves = hash_u128_vec_to_bytes_vec(layer);
        let ghost lv = leaves@;
        proof {
            assert(leaf_hashes(lv) =~= layer_leaves(shares@, idx as int));
        }
        match generate_merkle_tree(leaves) {
            Ok((root, merkle_proof)) => {
                roots.push(root);
                proofs.push(merkle_proof);
            },
            Err(_) => {
                assert(false);
            },
        }
        idx = idx + 1;
    }
    let ghost pm = proofs@;
    let transposed = transpose_merkle_proofs(proofs);
    proof {
        assert forall|j: int, idx: int|
            0 <= j < transposed@.len() && 0 <= idx < len implies #[trigger] transposed@[j].1@[idx]@
                == spec_merkle_proof(layer_leaves(shares@, idx), j) by {
            assert(transposed@[j].1@[idx]@ == pm[idx]@[j].1@);
        }
    }
    (roots, transposed)
}

/// The residues of a vector over `Z_q`.
pub fn dvec_zint_to_vec_int(v: &ZqVector) -> (out: Vec<ZqMod>)
    ensures
        out@ == residue_seq(v.entries()),
{
    let n = v.len();
    let mut out: Vec<ZqMod> = Vec::new();
    let mut i: usize = 0;
    while i < n
        invariant
            i <= n,
            n == v.entries().len(),
            out@ == residue_seq(v.entries()).subrange(0, i as int),
        decreases n - i,
    {
        out.push(v.get(i).residue());
        i = i + 1;
        assert(out@ =~= residue_seq(v.entries()).subrange(0, i as int));
    }
    assert(out@ =~= residue_seq(v.entries()));
    out
}

/// The residues of every opening of a proof.
pub open spec fn proof_residues(p: Seq<(Seq<ZqInt>, Seq<ZqInt>)>) -> Seq<(Seq<ZqMod>, Seq<ZqMod>)> {
    p.map_values(|u: (Seq<ZqInt>, Seq<ZqInt>)| (residue_seq(u.0), residue_seq(u.1)))
}

/// The views of a list of residue pairs.
pub open spec fn residue_pair_views(p: Seq<(Vec<ZqMod>, Vec<ZqMod>)>) -> Seq<(Seq<ZqMod>, Seq<ZqMod>)> {
    p.map_values(|u: (Vec<ZqMod>, Vec<ZqMod>)| (u.0@, u.1@))
}

/// The residues of every opening of a proof.
pub fn proof_unit_to_vec(v: &Vec<ProofUnit>) -> (out: Vec<(Vec<ZqMod>, Vec<ZqMod>)>)
    ensures
        residue_pair_views(out@) == proof_residues(proof_views(v@)),
{
    let mut out: Vec<(Vec<ZqMod>, Vec<ZqMod>)> = Vec::new();
    let mut i: usize = 0;
    while i < v.len()
        invariant
            i <= v.len(),
            out@.len() == i,
            forall|k: int| 0 <= k < i ==> (#[trigger] out@[k]).0@ == residue_seq(v@[k].y.entries()) && out@[k].1@ == residue_seq(v@[k].v.entries()),
        decreases v.len() - i,
    {
        out.push(v[i].to_residue_vecs());
        i = i + 1;
    }
    assert(residue_pair_views(out@) =~= proof_residues(proof_views(v@)));
    out
}

impl Shares {
    /// The digest of the dealer's commitment (the same in every share).
    pub fn get_c_ref(&self) -> (c: &Digest)
        requires
            self.0@.len() > 0,
        ensures
            *c == self.0@[0].0.c,
    {
        &self.0[0].0.c
    }

    /// The shares with their parties' keys.
    pub fn get_shares_ref(&self) -> (s: &Vec<(Share, PublicKey)>)
        ensures
            *s == self.0,
    {
        &self.0
    }
}

/// The reference string lets a dealer share a batch: the modulus is odd
/// and below `2^log_q`, the matrix has `n` rows of `r * n * log_q` entries
/// reduced modulo `q`, and all sizes of the commitment and of the proof fit
/// a `usize`.
pub open spec fn crs_deal_ok(crs: &PQCrs) -> bool {
    let q = crs.q;
    let log_q = crs.log_q;
    let r = crs.r;
    let ell = crs.ell;
    let kappa = crs.kappa;
    let n = crs.n;
    &&& q % 2 == 1
    &&& log_q < 128
    &&& q <= (1u128 << log_q)
    &&& matrix_wf(crs.a, q)
    &&& zq_matrix_rows(crs.a).len() == n
    &&& zq_matrix_ncols(crs.a) == r * n * log_q
    &&& ell + 1 < usize::MAX
    &&& level_fits(r, (ell + 1) as nat, kappa, n)
    &&& pow(r as int, (ell + 1) as nat) * kappa * n * log_q <= usize::MAX
    &&& pow(r as int, ell as nat) * n * log_q <= usize::MAX
    &&& pow(r as int, ell as nat) * n <= usize::MAX
    &&& pow(r as int, ell as nat) <= usize::MAX
    &&& kappa * n <= usize::MAX
    &&& r * kappa * kappa + 7 <= 256 * 0xffff_ffff
    &&& r * kappa * kappa + 7 <= usize::MAX
}

/// The coefficient vector of the dealt polynomials.
pub open spec fn dealt_f(polys: Seq<Polynomial>, crs: &PQCrs) -> Seq<ZqInt> {
    f_vector(
        polys,
        pow(crs.r as int, (crs.ell + 1) as nat),
        (pow(crs.r as int, (crs.ell + 1) as nat) * crs.kappa * crs.n) as nat,
        polys[0].coeffs().len() - 1,
        crs.q,
    )
}

/// The commitment of `f` after levels `ell` down to `i`.
pub open spec fn commit_of(f: Seq<ZqInt>, crs: &PQCrs, i: int) -> Seq<ZqInt> {
    commit_t(
        f,
        zq_matrix_rows(crs.a),
        zq_matrix_ncols(crs.a) as int,
        crs.r,
        i,
        crs.ell as int,
        crs.kappa,
        crs.n,
        crs.log_q,
        crs.q,
    )
}

/// The openings of the commitment of `f`, one per level.
pub open spec fn openings_of(f: Seq<ZqInt>, crs: &PQCrs) -> Seq<Seq<ZqInt>> {
    Seq::new(
        (crs.ell + 1) as nat,
        |j: int|
            commit_bits(
                commit_of(f, crs, j + 1),
                crs.r,
                j as nat,
                crs.kappa,
                crs.n,
                crs.log_q,
                crs.q,
            ),
    )
}

/// The evaluations of `f` for party `id`.
pub open spec fn eval_of(f: Seq<ZqInt>, crs: &PQCrs, id: Id) -> Seq<ZqInt> {
    poly_eval(
        f,
        id_x_vectors(id, crs.q, crs.r, crs.ell),
        crs.r,
        crs.ell as nat,
        crs.ell as nat,
        crs.kappa,
        crs.n,
        crs.q,
    )
}

/// The first folded evaluation of `f` for party `id`.
pub open spec fn first_fold_of(f: Seq<ZqInt>, crs: &PQCrs, id: Id) -> Seq<ZqInt> {
    v_fold(
        f,
        id_x_vectors(id, crs.q, crs.r, crs.ell),
        crs.r,
        crs.ell as int,
        crs.ell as int,
        1,
        crs.kappa,
        crs.n,
        crs.q,
    )
}

/// The evaluation proof of `f` for party `id`: the first opening with the
/// first folded evaluation, then the rounds of [`proof_run`].
pub open spec fn proof_of(f: Seq<ZqInt>, crs: &PQCrs, id: Id) -> Seq<(Seq<ZqInt>, Seq<ZqInt>)> {
    let xs = id_x_vectors(id, crs.q, crs.r, crs.ell);
    let s = openings_of(f, crs);
    let v0 = first_fold_of(f, crs, id);
    let c = fs_rows(
        fs_prefix(commit_of(f, crs, 0), eval_of(f, crs, id), xs, s[0], v0),
        crs.r as nat,
        crs.kappa as nat,
        crs.q,
    );
    seq![(s[0], v0)] + proof_run(
        xs,
        f,
        s,
        s[0],
        v0,
        c,
        crs.ell as nat,
        1,
        crs.r,
        crs.n,
        crs.kappa,
        crs.q,
        crs.log_q,
    ).0
}

/// The share of party `id` is dealt from the coefficient vector `f`.
pub open spec fn share_dealt(sh: Share, f: Seq<ZqInt>, crs: &PQCrs, id: Id, epoch: Epoch, total: usize) -> bool {
    &&& sh.t@ == residue_seq(commit_of(f, crs, 0))
    &&& sh.c.0@ == spec_sha256(concat_be(sh.t@))
    &&& sh.y_k@ == residue_seq(eval_of(f, crs, id))
    &&& residue_pair_views(sh.eval_proof@) == proof_residues(proof_of(f, crs, id))
    &&& sh.epoch == epoch
    &&& sh.total_party_num == total
}

/// The shares and roots are those dealt from `f` to the parties `ids`: one
/// share per party in order, and the Merkle roots of the layers of
/// evaluations with every party's inclusion proofs.
pub open spec fn shares_dealt(
    shares: Seq<(Share, PublicKey)>,
    roots: Seq<Digest>,
    f: Seq<ZqInt>,
    crs: &PQCrs,
    ids: Seq<(PublicKey, Id)>,
    epoch: Epoch,
) -> bool {
    let layers = crs.kappa * crs.n;
    &&& shares.len() == ids.len()
    &&& forall|k: int|
        0 <= k < shares.len() ==> (#[trigger] shares[k]).1 == ids[k].0 && share_dealt(
            shares[k].0,
            f,
            crs,
            ids[k].1,
            epoch,
            ids.len() as usize,
        )
    &&& roots.len() == layers
    &&& forall|idx: int|
        0 <= idx < roots.len() ==> (#[trigger] roots[idx]).0@ == spec_merkle_root(
            layer_leaves(shares, idx),
        )
    &&& forall|k: int|
        0 <= k < shares.len() ==> (#[trigger] shares[k]).0.merkle_proofs@.len() == layers
    &&& forall|k: int, idx: int|
        0 <= k < shares.len() && 0 <= idx < layers ==> (#[trigger] shares[k].0.merkle_proofs@[idx])@
            == spec_merkle_proof(layer_leaves(shares, idx), k)
}

/// A copy of a list of vectors.
fn dup_vectors(v: &Vec<ZqVector>) -> (out: Vec<ZqVector>)
    ensures
        vectors_entries(out@) == vectors_entries(v@),
{
    let mut out: Vec<ZqVector> = Vec::new();
    let mut i: usize = 0;
    while i < v.len()
        invariant
            i <= v.len(),
            out@.len() == i,
            forall|k: int| 0 <= k < i ==> (#[trigger] out@[k]).entries() == v@[k].entries(),
        decreases v.len() - i,
    {
        out.push(v[i].duplicate());
        i = i + 1;
    }
    assert(vectors_entries(out@) =~= vectors_entries(v@));
    out
}

/// A copy of a list of residues.
fn copy_residues(v: &Vec<ZqMod>) -> (out: Vec<ZqMod>)
    ensures
        out@ == v@,
{
    let mut out: Vec<ZqMod> = Vec::new();
    let mut i: usize = 0;
    while i < v.len()
        invariant
            i <= v.len(),
            out@ == v@.subrange(0, i as int),
        decreases v.len() - i,
    {
        out.push(v[i]);
        i = i + 1;
        assert(out@ =~= v@.subrange(0, i as int));
    }
    assert(out@ =~= v@);
    out
}

/// The share of party `(pk, id)`: its evaluations of `f` and the proof for
/// them, with the commitment `t` and its digest.
fn deal_one(
    f: &ZqVector,
    t_vec: &Vec<ZqMod>,
    t_hash: Digest,
    s_vectors: &Vec<ZqVector>,
    t: &ZqVector,
    pk: PublicKey,
    id: Id,
    epoch: Epoch,
    total: usize,
    crs: &PQCrs,
) -> (sh: (Share, PublicKey))
    requires
        crs_deal_ok(crs),
        zq_seq_wf(f.entries(), crs.q),
        f.entries().len() == pow(crs.r as int, (crs.ell + 1) as nat) * crs.kappa * crs.n,
        t.entries() == commit_of(f.entries(), crs, 0),
        t_vec@ == residue_seq(t.entries()),
        t_hash.0@ == spec_sha256(concat_be(t_vec@)),
        vectors_entries(s_vectors@) == openings_of(f.entries(), crs),
    ensures
        sh.1 == pk,
        share_dealt(sh.0, f.entries(), crs, id, epoch, total),
        sh.0.merkle_proofs@.len() == 0,
        sh.0.y_k@.len() == crs.kappa * crs.n,
{
    let q = crs.q;
    let r = crs.r;
    let ell = crs.ell;
    let kappa = crs.kappa;
    let n = crs.n;
    let log_q = crs.log_q;
    let ghost fv = f.entries();
    let x0 = ZqInt::new(id as ZqMod, q);
    let x = generate_x_vectors(x0, ell, r);
    let ghost xs = id_x_vectors(id, q, r, ell);
    proof {
        assert(vectors_entries(x@) =~= xs);
        assert forall|i: int| 0 <= i < xs.len() implies (#[trigger] xs[i]).len() == r && zq_seq_wf(xs[i], q) by {
            assert forall|j: int| 0 <= j < xs[i].len() implies (#[trigger] xs[i][j]).wf() && xs[i][j].modulus == q by {
                vstd::arithmetic::div_mod::lemma_mod_bound(
                    pow(x0.value as int, (pow(r as int, i as nat) * j) as nat),
                    q as int,
                );
            }
        }
        crate::calculation::lemma_level_fits_lower(r, ell as nat, (ell + 1) as nat, kappa, n);
    }
    let u = generate_polynomial_evaluation(f.duplicate(), &x, r, ell, ell, kappa, n, q);
    let mut v0 = generate_v(f.duplicate(), &x, r, ell, ell, 1, kappa, n, q);
    let ghost sv = openings_of(fv, crs);
    assert(vectors_entries(s_vectors@).len() == s_vectors@.len());
    assert(s_vectors@.len() == ell + 1);
    assert(vectors_entries(s_vectors@)[0] == s_vectors@[0].entries());
    let s0 = s_vectors[0].duplicate();
    assert(s0.entries() == sv[0]);
    let c = generate_fiat_shamir_challenge_matrix(t, &u, &x, &s0, &v0, r, kappa, q);
    let ghost v0e = v0.entries();
    let mut proof: Vec<ProofUnit> = Vec::new();
    proof.push(ProofUnit::new(s0.duplicate(), v0.duplicate()));
    assert(proof_views(proof@) =~= seq![(sv[0], v0e)]);
    let mut x2 = dup_vectors(&x);
    let mut f2 = f.duplicate();
    let mut s2 = dup_vectors(s_vectors);
    let mut y2 = s0.duplicate();
    proof {
        reveal(pow);
        assert(pow(r as int, 1) == r * pow(r as int, 0));
        assert forall|j: int| 0 <= j < sv.len() implies (#[trigger] sv[j]).len() == pow(
            r as int,
            (j + 1) as nat,
        ) * kappa * n * log_q && zq_seq_wf(sv[j], q) by {
            let m = pow(r as int, (j + 1) as nat) * kappa * n;
            vstd::arithmetic::power::lemma_pow_positive(1, 0);
            if r >= 1 {
                vstd::arithmetic::power::lemma_pow_positive(r as int, (j + 1) as nat);
            } else {
                assert(pow(r as int, (j + 1) as nat) == r * pow(r as int, j as nat));
            }
            assert(m >= 0) by (nonlinear_arith)
                requires
                    m == pow(r as int, (j + 1) as nat) * kappa * n,
                    pow(r as int, (j + 1) as nat) >= 0,
            ;
            assert forall|z: int| 0 <= z < sv[j].len() implies (#[trigger] sv[j][z]).wf() && sv[j][z].modulus == q by {
                vstd::arithmetic::div_mod::lemma_mod_bound(1, q as int);
                vstd::arithmetic::div_mod::lemma_small_mod(0, q as nat);
            }
        }
        assert(r * kappa * n * log_q == pow(r as int, 1) * kappa * n * log_q);
    }
    generate_proof(
        &mut proof,
        &mut x2,
        &mut f2,
        &mut s2,
        &mut y2,
        &mut v0,
        c,
        ell,
        1,
        r,
        n,
        kappa,
        q,
        log_q,
    );
    proof {
        assert(vectors_entries(x@) == xs);
        assert(u.entries() == eval_of(fv, crs, id));
        assert(v0e == first_fold_of(fv, crs, id));
        assert(proof_views(proof@) == proof_of(fv, crs, id));
    }
    let share = Share {
        t: copy_residues(t_vec),
        c: t_hash,
        y_k: dvec_zint_to_vec_int(&u),
        merkle_proofs: Vec::new(),
        eval_proof: proof_unit_to_vec(&proof),
        epoch,
        total_party_num: total,
    };
    (share, pk)
}

/// The polynomials can be laid out in one coefficient vector: between 1
/// and `kappa * n` of them, reduced modulo `q`, all of one degree `t` with
/// `t + 1 <= r^(ell+1)`.
pub open spec fn polys_ok(polys: Seq<Polynomial>, crs: &PQCrs) -> bool {
    &&& 1 <= polys.len() <= crs.kappa * crs.n
    &&& forall|p: int|
        0 <= p < polys.len() ==> (#[trigger] polys[p]).wf() && polys[p].spec_modulus() == crs.q
    &&& forall|p: int|
        0 <= p < polys.len() ==> (#[trigger] polys[p]).coeffs().len() == polys[0].coeffs().len()
    &&& polys[0].coeffs().len() <= pow(crs.r as int, (crs.ell + 1) as nat)
}

impl Shares {
    /// Deals the given polynomials to the parties `ids`: commits to their
    /// coefficients, gives every party its evaluations with an evaluation
    /// proof, and commits to every layer of evaluations with a Merkle tree
    /// (see [`shares_dealt`]).
    pub fn from_polynomials(
        polynomials: Vec<Polynomial>,
        epoch: Epoch,
        ids: Vec<(PublicKey, Id)>,
        crs: &PQCrs,
    ) -> (res: (Shares, Vec<Digest>))
        requires
            crs_deal_ok(crs),
            polys_ok(polynomials@, crs),
            ids@.len() > 0,
        ensures
            shares_dealt((res.0).0@, res.1@, dealt_f(polynomials@, crs), crs, ids@, epoch),
    {
        let q = crs.q;
        let r = crs.r;
        let ell = crs.ell;
        let kappa = crs.kappa;
        let n = crs.n;
        let log_q = crs.log_q;
        let ghost polys = polynomials@;
        let f = generate_f_vector(r, ell, kappa, n, q, polynomials);
        let ghost fv = f.entries();
        assert(fv == dealt_f(polys, crs));
        let mut s_opt: Vec<Option<ZqVector>> = Vec::new();
        let mut k: usize = 0;
        while k <= ell
            invariant
                k <= ell + 1,
                ell + 1 < usize::MAX,
                s_opt@.len() == k,
            decreases ell + 1 - k,
        {
            s_opt.push(None);
            k = k + 1;
        }
        let t = generate_t(&f, &mut s_opt, r, ell, kappa, n, q, log_q, &crs.a);
        let mut s_vectors: Vec<ZqVector> = Vec::new();
        let mut j: usize = 0;
        while j <= ell
            invariant
                j <= ell + 1,
                ell + 1 < usize::MAX,
                s_opt@.len() == ell + 1,
                forall|i: int|
                    0 <= i <= ell ==> (#[trigger] s_opt@[i]) is Some && s_opt@[i]->0.entries()
                        == openings_of(fv, crs)[i],
                s_vectors@.len() == j,
                forall|i: int| 0 <= i < j ==> (#[trigger] s_vectors@[i]).entries() == openings_of(fv, crs)[i],
            decreases ell + 1 - j,
        {
            match &s_opt[j] {
                Some(v) => {
                    s_vectors.push(v.duplicate());
                },
                None => {
                    assert(false);
                },
            }
            j = j + 1;
        }
        assert(vectors_entries(s_vectors@) =~= openings_of(fv, crs));
        let t_vec = dvec_zint_to_vec_int(&t);
        let t_hash = hash_c(&t_vec);
        let total = ids.len();
        let mut shares: Vec<(Share, PublicKey)> = Vec::new();
        let mut p: usize = 0;
        while p < ids.len()
            invariant
                p <= ids.len(),
                total == ids@.len(),
                crs_deal_ok(crs),
                zq_seq_wf(fv, q),
                fv == f.entries(),
                fv.len() == pow(r as int, (ell + 1) as nat) * kappa * n,
                t.entries() == commit_of(fv, crs, 0),
                t_vec@ == residue_seq(t.entries()),
                t_hash.0@ == spec_sha256(concat_be(t_vec@)),
                vectors_entries(s_vectors@) == openings_of(fv, crs),
                q == crs.q,
                r == crs.r,
                ell == crs.ell,
                kappa == crs.kappa,
                n == crs.n,
                shares@.len() == p,
                forall|z: int|
                    0 <= z < p ==> (#[trigger] shares@[z]).1 == ids@[z].0 && share_dealt(
                        shares@[z].0,
                        fv,
                        crs,
                        ids@[z].1,
                        epoch,
                        total,
                    ) && shares@[z].0.merkle_proofs@.len() == 0 && shares@[z].0.y_k@.len() == kappa * n,
            decreases ids.len() - p,
        {
            let (pk, id) = ids[p];
            let sh = deal_one(&f, &t_vec, t_hash, &s_vectors, &t, pk, id, epoch, total, crs);
            shares.push(sh);
            p = p + 1;
        }
        assert(shares@[0].0.y_k@.len() == kappa * n);
        let (roots, mut proofs) = generate_merkle_proofs(&shares);
        let ghost before = shares@;
        while proofs.len() > 0
            invariant
                proofs@.len() <= before.len(),
                shares@.len() == before.len(),
                forall|z: int|
                    0 <= z < before.len() ==> (#[trigger] shares@[z]).1 == before[z].1
                        && shares@[z].0.t == before[z].0.t && shares@[z].0.c == before[z].0.c
                        && shares@[z].0.y_k == before[z].0.y_k && shares@[z].0.eval_proof
                        == before[z].0.eval_proof && shares@[z].0.epoch == before[z].0.epoch
                        && shares@[z].0.total_party_num == before[z].0.total_party_num,
                forall|z: int|
                    proofs@.len() <= z < before.len() ==> (#[trigger] shares@[z]).0.merkle_proofs@.len() == kappa * n
                        && forall|idx: int|
                        0 <= idx < kappa * n ==> (#[trigger] shares@[z].0.merkle_proofs@[idx])@
                            == spec_merkle_proof(layer_leaves(before, idx), z),
                forall|z: int|
                    0 <= z < proofs@.len() ==> (#[trigger] proofs@[z]).0 == z + 1 && proofs@[z].1@.len() == kappa * n
                        && forall|idx: int|
                        0 <= idx < kappa * n ==> #[trigger] proofs@[z].1@[idx]@ == spec_merkle_proof(
                            layer_leaves(before, idx),
                            z,
                        ),
            decreases proofs@.len(),
        {
            let (_, proof) = proofs.pop().unwrap();
            let z = proofs.len();
            let (mut share, pk) = shares.remove(z);
            share.merkle_proofs = proof;
            shares.insert(z, (share, pk));
        }
        proof {
            assert forall|idx: int| 0 <= idx < kappa * n implies layer_leaves(shares@, idx) == layer_leaves(before, idx) by {
                assert(layer_leaves(shares@, idx) =~= layer_leaves(before, idx));
            }
        }
        (Shares(shares), roots)
    }
}

impl Shares {
    /// Deals a fresh batch: `batch_size * g` random polynomials of degree
    /// `ft` are dealt to the parties `ids` (see [`Shares::from_polynomials`]);
    /// the shares are those dealt from some such batch.
    pub fn new(
        batch_size: usize,
        epoch: Epoch,
        ids: Vec<(PublicKey, Id)>,
        ft: usize,
        crs: &PQCrs,
    ) -> (res: (Self, Vec<Digest>))
        requires
            crs_deal_ok(crs),
            batch_size * crs.g <= crs.kappa * crs.n,
            batch_size * crs.g >= 1,
            ft + 1 <= pow(crs.r as int, (crs.ell + 1) as nat),
            ids@.len() > 0,
        ensures
            exists|polys: Seq<Polynomial>|
                {
                    &&& polys.len() == batch_size * crs.g
                    &&& polys_ok(polys, crs)
                    &&& polys[0].coeffs().len() == ft + 1
                    &&& shares_dealt((res.0).0@, res.1@, dealt_f(polys, crs), crs, ids@, epoch)
                },
    {
        let q = crs.q;
        let count = batch_size * crs.g;
        let mut polynomials: Vec<Polynomial> = Vec::new();
        let mut k: usize = 0;
        proof {
            assert(ft < usize::MAX) by {
                crate::calculation::lemma_level_fits_lower(crs.r, (crs.ell + 1) as nat, (crs.ell + 1) as nat, crs.kappa, crs.n);
            }
        }
        while k < count
            invariant
                k <= count,
                q == crs.q,
                q % 2 == 1,
                ft < usize::MAX,
                polynomials@.len() == k,
                forall|p: int|
                    0 <= p < k ==> (#[trigger] polynomials@[p]).wf() && polynomials@[p].spec_modulus() == q
                        && polynomials@[p].coeffs().len() == ft + 1,
            decreases count - k,
        {
            polynomials.push(Polynomial::new(ft, q));
            k = k + 1;
        }
        let ghost polys = polynomials@;
        let res = Self::from_polynomials(polynomials, epoch, ids, crs);
        assert(polys.len() == batch_size * crs.g && polys_ok(polys, crs) && polys[0].coeffs().len() == ft + 1);
        res
    }
}

} // verus!
