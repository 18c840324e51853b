//! The group (classic) variant of the beacon's dealing: random polynomials
//! over the scalars of the Ristretto group, their commitments under a
//! Merkle root, every party's evaluations with the evaluation proof, the
//! check of a received share, and reconstruction by interpolation.

use vstd::prelude::*;
use crate::batch_eval::{
    all_canonical, all_valid, batch_commit_for_sigma_plus_d, batch_eval, batch_verify_eval, canonical,
    colv, commit_fold, copy_range, eval_phi, evals, group_order, inv, le_value, lemma_canonical_sv,
    matrix_canonical, matv, phi_view, pts, random_scalar, round_count, sadd, scalar_add,
    scalar_from_u64, scalar_invert, scalar_mul, scalar_neg, scalar_sub, smul, spec_point_valid, sv,
    unit_ok, vals, verify_eval, CommonReferenceString, IProofUnit, PhiElement, PointBytes,
    ScalarBytes,
};
use crate::crypto::{Digest, PublicKey, SecretKey, Signature, spec_dilithium_sign};
use crate::model::{BreezeContent, BreezeMessage};
use crate::hashing::spec_sha256;
use crate::merkletree::{
    generate_merkle_tree, leaf_hashes, spec_merkle_proof, spec_merkle_root, spec_merkle_verify,
    verify_merkle_proof,
};
use crate::types_and_const::{Epoch, Id, RandomNum};

verus! {

// ---- powers and evaluation points ----

/// `b^e` modulo the group order, multiplied up from one.
pub open spec fn spow(b: nat, e: nat) -> nat
    decreases e,
{
    if e == 0 {
        1
    } else {
        smul(spow(b, (e - 1) as nat), b)
    }
}

/// The scalar one.
fn one() -> (r: ScalarBytes)
    ensures
        le_value(r@) == 1,
        canonical(r),
{
    scalar_from_u64(1)
}

/// `base^exp`, multiplied up from one.
pub fn pow_scalar(base: ScalarBytes, exp: usize) -> (r: ScalarBytes)
    requires
        canonical(base),
    ensures
        canonical(r),
        le_value(r@) == spow(le_value(base@), exp as nat),
{
    let ghost b = le_value(base@);
    let mut result = one();
    let mut i: usize = 0;
    while i < exp
        invariant
            i <= exp,
            canonical(base),
            b == le_value(base@),
            canonical(result),
            le_value(result@) == spow(b, i as nat),
        decreases exp - i,
    {
        proof {
            lemma_canonical_sv(result);
            lemma_canonical_sv(base);
        }
        result = scalar_mul(&result, &base);
        i = i + 1;
    }
    result
}

/// The evaluation point of a party: its id as a scalar.
pub open spec fn id_value(id: Id) -> nat {
    (id as nat) % group_order()
}

/// The `(t + 1) x n` powers `id_k^i` of the parties' ids.
pub open spec fn eval_points(ids: Seq<(PublicKey, Id)>, t: nat) -> Seq<Seq<nat>> {
    Seq::new(t + 1, |i: int| Seq::new(ids.len(), |k: int| spow(id_value(ids[k].1), i as nat)))
}

/// The scalar of an id.
fn id_scalar(id: Id) -> (r: ScalarBytes)
    ensures
        canonical(r),
        le_value(r@) == id_value(id),
{
    let r = scalar_from_u64(id as u64);
    proof {
        assert(id as u64 as nat == id as nat);
        vstd::arithmetic::div_mod::lemma_small_mod(id as nat, group_order());
    }
    r
}

/// Row `i` holds `id_k^i` for every party `k`, for `i <= t`.
pub fn generate_evaluation_points_n(t: usize, ids: &Vec<(PublicKey, Id)>) -> (res: Vec<Vec<ScalarBytes>>)
    requires
        t < usize::MAX,
    ensures
        res@.len() == t + 1,
        forall|i: int| 0 <= i <= t ==> (#[trigger] res@[i])@.len() == ids@.len(),
        matrix_canonical(res@),
        matv(res@) == eval_points(ids@, t as nat),
{
    let mut res: Vec<Vec<ScalarBytes>> = Vec::new();
    let mut i: usize = 0;
    while i <= t
        invariant
            i <= t + 1,
            t < usize::MAX,
            res@.len() == i,
            forall|a: int| 0 <= a < i ==> (#[trigger] res@[a])@.len() == ids@.len(),
            matrix_canonical(res@),
            forall|a: int| 0 <= a < i ==> vals((#[trigger] res@[a])@) == eval_points(ids@, t as nat)[a],
        decreases t + 1 - i,
    {
        let mut row: Vec<ScalarBytes> = Vec::new();
        let mut k: usize = 0;
        while k < ids.len()
            invariant
                k <= ids@.len(),
                row@.len() == k,
                all_canonical(row@),
                forall|b: int| 0 <= b < k ==> le_value((#[trigger] row@[b])@) == spow(id_value(ids@[b].1), i as nat),
            decreases ids.len() - k,
        {
            let base = id_scalar(ids[k].1);
            row.push(pow_scalar(base, i));
            k = k + 1;
        }
        proof {
            assert(vals(row@) =~= eval_points(ids@, t as nat)[i as int]);
        }
        res.push(row);
        i = i + 1;
    }
    proof {
        assert(matv(res@) =~= eval_points(ids@, t as nat));
    }
    res
}

/// The powers `id^i` for `i <= t`: a party's column of the points.
pub fn generate_evaluation_points_for_verifier(t: usize, id: Id) -> (res: Vec<ScalarBytes>)
    requires
        t < usize::MAX,
    ensures
        res@.len() == t + 1,
        all_canonical(res@),
        forall|i: int| 0 <= i <= t ==> le_value((#[trigger] res@[i])@) == spow(id_value(id), i as nat),
{
    let mut res: Vec<ScalarBytes> = Vec::new();
    let mut i: usize = 0;
    while i <= t
        invariant
            i <= t + 1,
            t < usize::MAX,
            res@.len() == i,
            all_canonical(res@),
            forall|a: int| 0 <= a < i ==> le_value((#[trigger] res@[a])@) == spow(id_value(id), a as nat),
        decreases t + 1 - i,
    {
        let base = id_scalar(id);
        res.push(pow_scalar(base, i));
        i = i + 1;
    }
    res
}

// ---- commitments ----

/// The commitments of the polynomials under the generators.
pub open spec fn commits(g: Seq<PointBytes>, polys: Seq<Vec<ScalarBytes>>) -> Seq<Seq<u8>> {
    Seq::new(polys.len(), |i: int| commit_fold(g, polys[i]@, polys[i]@.len() as int))
}

/// Commits to every polynomial: the sum of its coefficients times the
/// generators, each polynomial with one coefficient per generator.
pub fn batch_commit(crs: &CommonReferenceString, poly_r: &Vec<Vec<ScalarBytes>>, t: usize) -> (b_com: Vec<PointBytes>)
    requires
        crs.g@.len() == t + 1,
        all_valid(crs.g@),
        forall|i: int| 0 <= i < poly_r@.len() ==> (#[trigger] poly_r@[i])@.len() == t + 1,
    ensures
        pts(b_com@) == commits(crs.g@, poly_r@),
        all_valid(b_com@),
{
    let mut b_com: Vec<PointBytes> = Vec::new();
    let mut i: usize = 0;
    while i < poly_r.len()
        invariant
            i <= poly_r@.len(),
            crs.g@.len() == t + 1,
            all_valid(crs.g@),
            forall|a: int| 0 <= a < poly_r@.len() ==> (#[trigger] poly_r@[a])@.len() == t + 1,
            b_com@.len() == i,
            all_valid(b_com@),
            forall|a: int| 0 <= a < i ==> (#[trigger] b_com@[a])@ == commits(crs.g@, poly_r@)[a],
        decreases poly_r.len() - i,
    {
        assert(poly_r@[i as int]@.len() == t + 1);
        let c = batch_commit_for_sigma_plus_d(crs, &poly_r[i]);
        b_com.push(c);
        i = i + 1;
    }
    proof {
        assert(pts(b_com@) =~= commits(crs.g@, poly_r@));
    }
    b_com
}

/// The encodings of the commitments, one byte string each.
pub fn serialize_commitments(commitments: &Vec<PointBytes>) -> (data: Vec<Vec<u8>>)
    ensures
        data@.len() == commitments@.len(),
        forall|i: int| 0 <= i < data@.len() ==> (#[trigger] data@[i])@ == commitments@[i]@,
{
    let mut data: Vec<Vec<u8>> = Vec::new();
    let mut i: usize = 0;
    while i < commitments.len()
        invariant
            i <= commitments@.len(),
            data@.len() == i,
            forall|a: int| 0 <= a < i ==> (#[trigger] data@[a])@ == commitments@[a]@,
        decreases commitments.len() - i,
    {
        data.push(crate::crypto::bytes_to_vec(&commitments[i]));
        i = i + 1;
    }
    data
}

// ---- shares ----

/// A commitment with its Merkle inclusion proof.
pub struct WitnessBreeze {
    pub poly_commit: PointBytes,
    pub merkle_branch: (usize, Vec<u8>),
}

/// What the dealer sends one party: the root over the commitments, the
/// commitments with their proofs, the party's evaluations of every
/// polynomial and its element of the evaluation proof.
pub struct ClassicShare {
    pub c: Digest,
    pub r_hat: Vec<PointBytes>,
    pub r_witness: Vec<WitnessBreeze>,
    pub y_k: Vec<ScalarBytes>,
    pub phi_k: PhiElement,
    pub n: usize,
    pub epoch: Epoch,
}

/// Every party's share, with the party it goes to.
pub struct ClassicShares {
    pub shares: Vec<(ClassicShare, (PublicKey, Id))>,
}

/// The Merkle leaves of the commitments: their SHA-256 hashes.
pub open spec fn commit_leaves(c: Seq<Seq<u8>>) -> Seq<Seq<u8>> {
    c.map_values(|x: Seq<u8>| spec_sha256(x))
}

/// Witness `i` holds commitment `i` and its inclusion proof.
pub open spec fn witness_dealt(w: WitnessBreeze, c: Seq<Seq<u8>>, i: int) -> bool {
    &&& w.poly_commit@ == c[i]
    &&& w.merkle_branch.0 == i
    &&& w.merkle_branch.1@ == spec_merkle_proof(commit_leaves(c), i)
}

/// The share of party `k` dealt from the polynomials `polys` (one row of
/// `t + 1` coefficients each), with the proof's mask `d`.
pub open spec fn classic_share_dealt(
    share: ClassicShare,
    crs: CommonReferenceString,
    polys: Seq<Vec<ScalarBytes>>,
    ids: Seq<(PublicKey, Id)>,
    k: int,
    epoch: Epoch,
    t: nat,
    d: Seq<nat>,
) -> bool {
    let c = commits(crs.g@, polys);
    let y = eval_points(ids, t);
    &&& share.c.0@ == spec_merkle_root(commit_leaves(c))
    &&& pts(share.r_hat@) == c
    &&& share.r_witness@.len() == c.len()
    &&& forall|i: int| 0 <= i < c.len() ==> witness_dealt(#[trigger] share.r_witness@[i], c, i)
    &&& vals(share.y_k@) == colv(evals(matv(polys), y), k)
    &&& phi_view(share.phi_k) == eval_phi(pts(crs.g@), crs.h@, matv(polys), y, share.r_hat@, d, k)
    &&& share.n == ids.len()
    &&& share.epoch == epoch
}

/// The polynomials can be dealt: `batch` rows of `t + 1` reduced
/// coefficients.
pub open spec fn polys_ok(polys: Seq<Vec<ScalarBytes>>, batch: nat, t: nat) -> bool {
    &&& polys.len() == batch
    &&& forall|i: int| 0 <= i < polys.len() ==> (#[trigger] polys[i])@.len() == t + 1
    &&& matrix_canonical(polys)
}

/// The reference string can be used for degree `t`.
pub open spec fn classic_crs_ok(crs: CommonReferenceString, t: nat) -> bool {
    &&& crs.g@.len() == t + 1
    &&& all_valid(crs.g@)
    &&& spec_point_valid(crs.h@)
}

/// The shares were dealt, party by party in the order of `ids`, from
/// `polys` with the proof's mask `d`.
pub open spec fn classic_shares_dealt(
    shares: Seq<(ClassicShare, (PublicKey, Id))>,
    crs: CommonReferenceString,
    polys: Seq<Vec<ScalarBytes>>,
    ids: Seq<(PublicKey, Id)>,
    epoch: Epoch,
    t: nat,
    d: Seq<nat>,
) -> bool {
    &&& shares.len() == ids.len()
    &&& forall|k: int|
        0 <= k < shares.len() ==> classic_share_dealt((#[trigger] shares[k]).0, crs, polys, ids, k, epoch, t, d)
            && shares[k].1 == ids[k]
}

/// A copy of the witnesses.
fn copy_witnesses(w: &Vec<WitnessBreeze>) -> (r: Vec<WitnessBreeze>)
    ensures
        r@.len() == w@.len(),
        forall|i: int|
            0 <= i < w@.len() ==> (#[trigger] r@[i]).poly_commit == w@[i].poly_commit
                && r@[i].merkle_branch.0 == w@[i].merkle_branch.0 && r@[i].merkle_branch.1@
                == w@[i].merkle_branch.1@,
{
    let mut r: Vec<WitnessBreeze> = Vec::new();
    let mut i: usize = 0;
    while i < w.len()
        invariant
            i <= w@.len(),
            r@.len() == i,
            forall|a: int|
                0 <= a < i ==> (#[trigger] r@[a]).poly_commit == w@[a].poly_commit
                    && r@[a].merkle_branch.0 == w@[a].merkle_branch.0 && r@[a].merkle_branch.1@
                    == w@[a].merkle_branch.1@,
        decreases w.len() - i,
    {
        let x = &w[i];
        r.push(
            WitnessBreeze {
                poly_commit: x.poly_commit,
                merkle_branch: (x.merkle_branch.0, crate::crypto::bytes_to_vec(x.merkle_branch.1.as_slice())),
            },
        );
        i = i + 1;
    }
    r
}

/// A copy of a party's element.
fn copy_phi(e: &PhiElement) -> (r: PhiElement)
    ensures
        phi_view(r) == phi_view(*e),
        r.proofs@.len() == e.proofs@.len(),
        forall|i: int| 0 <= i < e.proofs@.len() ==> (#[trigger] r.proofs@[i]).view_unit() == e.proofs@[i].view_unit(),
        r.d_hat == e.d_hat,
        r.v_d_i == e.v_d_i,
{
    let mut proofs: Vec<IProofUnit> = Vec::new();
    let mut i: usize = 0;
    while i < e.proofs.len()
        invariant
            i <= e.proofs@.len(),
            proofs@.len() == i,
            forall|a: int| 0 <= a < i ==> (#[trigger] proofs@[a]).view_unit() == e.proofs@[a].view_unit(),
        decreases e.proofs.len() - i,
    {
        proofs.push(e.proofs[i].duplicate());
        i = i + 1;
    }
    let r = PhiElement { proofs, d_hat: e.d_hat, v_d_i: e.v_d_i };
    proof {
        assert(r.proofs@.map_values(|u: IProofUnit| u.view_unit()) =~= e.proofs@.map_values(|u: IProofUnit| u.view_unit()));
    }
    r
}

/// Column `k` of the rows.
fn column_of(v: &Vec<Vec<ScalarBytes>>, k: usize) -> (c: Vec<ScalarBytes>)
    requires
        forall|i: int| 0 <= i < v@.len() ==> k < (#[trigger] v@[i])@.len(),
    ensures
        c@.len() == v@.len(),
        forall|i: int| 0 <= i < v@.len() ==> (#[trigger] c@[i]) == v@[i]@[k as int],
{
    let mut c: Vec<ScalarBytes> = Vec::new();
    let mut i: usize = 0;
    while i < v.len()
        invariant
            i <= v@.len(),
            forall|a: int| 0 <= a < v@.len() ==> k < (#[trigger] v@[a])@.len(),
            c@.len() == i,
            forall|a: int| 0 <= a < i ==> (#[trigger] c@[a]) == v@[a]@[k as int],
        decreases v.len() - i,
    {
        c.push(v[i][k]);
        i = i + 1;
    }
    c
}

/// Deals the polynomials `polys` (`batch_size` rows of `t + 1`
/// coefficients) to the parties `ids`: commits to every polynomial, puts
/// the commitments under a Merkle root, and gives every party its
/// evaluations and its element of the evaluation proof.  The proof's mask
/// is drawn at random; the shares are those dealt with some mask.
pub fn classic_shares_from_polynomials(
    batch_size: usize,
    epoch: Epoch,
    ids: Vec<(PublicKey, Id)>,
    t: usize,
    crs: &CommonReferenceString,
    polys: Vec<Vec<ScalarBytes>>,
) -> (r: ClassicShares)
    requires
        t < u64::MAX,
        t < usize::MAX,
        batch_size >= 1,
        ids@.len() >= 1,
        classic_crs_ok(*crs, t as nat),
        polys_ok(polys@, batch_size as nat, t as nat),
    ensures
        exists|d: Seq<nat>| classic_shares_dealt(r.shares@, *crs, polys@, ids@, epoch, t as nat, d),
{
    let n = ids.len();
    let r_hat = batch_commit(crs, &polys, t);
    let data = serialize_commitments(&r_hat);
    let ghost c = commits(crs.g@, polys@);
    proof {
        assert(leaf_hashes(data@) =~= commit_leaves(c));
    }
    let tree = generate_merkle_tree(data);
    let (root, merkle_proofs) = match tree {
        Ok(x) => x,
        Err(_) => {
            proof {
                assert(false);
            }
            return ClassicShares { shares: Vec::new() };
        },
    };
    let mut r_hat_witness: Vec<WitnessBreeze> = Vec::new();
    let mut i: usize = 0;
    while i < batch_size
        invariant
            i <= batch_size,
            batch_size == polys@.len(),
            merkle_proofs@.len() == polys@.len(),
            pts(r_hat@) == c,
            c.len() == polys@.len(),
            forall|a: int|
                0 <= a < merkle_proofs@.len() ==> (#[trigger] merkle_proofs@[a]).0 == a && merkle_proofs@[a].1@
                    == spec_merkle_proof(commit_leaves(c), a),
            r_hat_witness@.len() == i,
            forall|a: int| 0 <= a < i ==> witness_dealt(#[trigger] r_hat_witness@[a], c, a),
        decreases batch_size - i,
    {
        assert(r_hat@[i as int]@ == c[i as int]);
        let branch = &merkle_proofs[i];
        r_hat_witness.push(
            WitnessBreeze {
                poly_commit: r_hat[i],
                merkle_branch: (branch.0, crate::crypto::bytes_to_vec(branch.1.as_slice())),
            },
        );
        i = i + 1;
    }
    let y_value = generate_evaluation_points_n(t, &ids);
    let (y_k, phi_k) = batch_eval(crs, &polys, &y_value, &r_hat, t, n);
    let ghost d = choose|d: Seq<nat>|
        {
            &&& d.len() == t + 1
            &&& forall|i: int| 0 <= i <= t ==> #[trigger] d[i] <= t
            &&& forall|i: int| 0 <= i < phi_k@.len() ==> phi_view(#[trigger] phi_k@[i]) == eval_phi(pts(crs.g@), crs.h@, matv(polys@), matv(y_value@), r_hat@, d, i)
        };
    let ghost ev = evals(matv(polys@), eval_points(ids@, t as nat));
    proof {
        assert(eval_points(ids@, t as nat)[0].len() == n);
        assert forall|a: int| 0 <= a < y_k@.len() implies n <= (#[trigger] y_k@[a])@.len() by {
            assert(matv(y_k@)[a] == ev[a]);
            assert(matv(y_k@).len() == y_k@.len());
            assert(a < matv(polys@).len());
            assert(ev[a] == crate::batch_eval::innerv(matv(polys@)[a], eval_points(ids@, t as nat), eval_points(ids@, t as nat)[0].len()));
            assert(ev[a].len() == n);
            assert(vals(y_k@[a]@).len() == y_k@[a]@.len());
        }
    }
    let mut all_set: Vec<(ClassicShare, (PublicKey, Id))> = Vec::new();
    let mut k: usize = 0;
    while k < n
        invariant
            k <= n,
            n == ids@.len(),
            n == phi_k@.len(),
            pts(r_hat@) == c,
            c == commits(crs.g@, polys@),
            root.0@ == spec_merkle_root(leaf_hashes(data@)),
            leaf_hashes(data@) == commit_leaves(c),
            r_hat_witness@.len() == c.len(),
            forall|a: int| 0 <= a < c.len() ==> witness_dealt(#[trigger] r_hat_witness@[a], c, a),
            matv(y_k@) == ev,
            ev == evals(matv(polys@), eval_points(ids@, t as nat)),
            matv(y_value@) == eval_points(ids@, t as nat),
            forall|a: int| 0 <= a < y_k@.len() ==> n <= (#[trigger] y_k@[a])@.len(),
            forall|i: int| 0 <= i < phi_k@.len() ==> phi_view(#[trigger] phi_k@[i]) == eval_phi(pts(crs.g@), crs.h@, matv(polys@), matv(y_value@), r_hat@, d, i),
            all_set@.len() == k,
            forall|a: int|
                0 <= a < k ==> classic_share_dealt((#[trigger] all_set@[a]).0, *crs, polys@, ids@, a, epoch, t as nat, d)
                    && all_set@[a].1 == ids@[a],
        decreases n - k,
    {
        let col = column_of(&y_k, k);
        let rh = copy_range(&r_hat, 0, r_hat.len());
        assert(rh@ =~= r_hat@);
        let share = ClassicShare {
            c: Digest(root.0),
            r_hat: rh,
            r_witness: copy_witnesses(&r_hat_witness),
            y_k: col,
            phi_k: copy_phi(&phi_k[k]),
            n,
            epoch,
        };
        proof {
            assert forall|i: int| 0 <= i < c.len() implies witness_dealt(#[trigger] share.r_witness@[i], c, i) by {
                assert(witness_dealt(r_hat_witness@[i], c, i));
            }
            assert(vals(share.y_k@) =~= colv(ev, k as int)) by {
                assert forall|i: int| 0 <= i < share.y_k@.len() implies vals(share.y_k@)[i] == colv(ev, k as int)[i] by {
                    assert(matv(y_k@)[i] == ev[i]);
                    assert(share.y_k@[i] == y_k@[i]@[k as int]);
                }
            }
            assert(phi_view(phi_k@[k as int]) == eval_phi(pts(crs.g@), crs.h@, matv(polys@), matv(y_value@), r_hat@, d, k as int));
            assert(classic_share_dealt(share, *crs, polys@, ids@, k as int, epoch, t as nat, d));
        }
        all_set.push((share, ids[k]));
        k = k + 1;
    }
    let r = ClassicShares { shares: all_set };
    assert(classic_shares_dealt(r.shares@, *crs, polys@, ids@, epoch, t as nat, d));
    r
}

/// Draws `batch_size` random polynomials of degree `t`.
pub fn generate_batched_polynomial(batch: usize, t: usize) -> (polys: Vec<Vec<ScalarBytes>>)
    requires
        t < usize::MAX,
    ensures
        polys_ok(polys@, batch as nat, t as nat),
{
    let mut polys: Vec<Vec<ScalarBytes>> = Vec::new();
    let mut i: usize = 0;
    while i < batch
        invariant
            i <= batch,
            t < usize::MAX,
            polys_ok(polys@, i as nat, t as nat),
        decreases batch - i,
    {
        let mut row: Vec<ScalarBytes> = Vec::new();
        let mut j: usize = 0;
        while j <= t
            invariant
                j <= t + 1,
                t < usize::MAX,
                row@.len() == j,
                all_canonical(row@),
            decreases t + 1 - j,
        {
            row.push(random_scalar());
            j = j + 1;
        }
        polys.push(row);
        i = i + 1;
    }
    polys
}

impl ClassicShares {
    /// Deals a fresh batch of `batch_size` random polynomials of degree `t`
    /// (see [`classic_shares_from_polynomials`]): the shares are those dealt
    /// from some such batch.
    pub fn new(
        batch_size: usize,
        epoch: Epoch,
        ids: Vec<(PublicKey, Id)>,
        t: usize,
        crs: &CommonReferenceString,
    ) -> (r: Self)
        requires
            t < u64::MAX,
            t < usize::MAX,
            batch_size >= 1,
            ids@.len() >= 1,
            classic_crs_ok(*crs, t as nat),
        ensures
            exists|polys: Seq<Vec<ScalarBytes>>, d: Seq<nat>|
                polys_ok(polys, batch_size as nat, t as nat) && classic_shares_dealt(r.shares@, *crs, polys, ids@, epoch, t as nat, d),
    {
        let polys = generate_batched_polynomial(batch_size, t);
        let ghost p = polys@;
        let r = classic_shares_from_polynomials(batch_size, epoch, ids, t, crs, polys);
        proof {
            let d = choose|d: Seq<nat>| classic_shares_dealt(r.shares@, *crs, p, ids@, epoch, t as nat, d);
            assert(polys_ok(p, batch_size as nat, t as nat) && classic_shares_dealt(r.shares@, *crs, p, ids@, epoch, t as nat, d));
        }
        r
    }
}

/// Units with the same values are well formed alike.
proof fn lemma_unit_ok_view(a: IProofUnit, b: IProofUnit)
    requires
        a.view_unit() == b.view_unit(),
        unit_ok(b),
    ensures
        unit_ok(a),
{
}

/// Byte strings of one length with one little-endian value are equal.
proof fn lemma_le_value_injective(a: Seq<u8>, b: Seq<u8>)
    requires
        a.len() == b.len(),
        le_value(a) == le_value(b),
    ensures
        a == b,
    decreases a.len(),
{
    if a.len() > 0 {
        let ra = le_value(a.drop_first());
        let rb = le_value(b.drop_first());
        assert(le_value(a) == a[0] as nat + 256 * ra);
        assert(le_value(b) == b[0] as nat + 256 * rb);
        vstd::arithmetic::div_mod::lemma_fundamental_div_mod_converse(le_value(a) as int, 256, ra as int, a[0] as int);
        vstd::arithmetic::div_mod::lemma_fundamental_div_mod_converse(le_value(b) as int, 256, rb as int, b[0] as int);
        lemma_le_value_injective(a.drop_first(), b.drop_first());
        assert(a =~= seq![a[0]] + a.drop_first());
        assert(b =~= seq![b[0]] + b.drop_first());
    } else {
        assert(a =~= b);
    }
}

/// Scalars with the same values have the same encodings.
proof fn lemma_canonical_bytes_unique(a: Seq<ScalarBytes>, b: Seq<ScalarBytes>)
    requires
        vals(a) == vals(b),
    ensures
        a == b,
{
    assert(a.len() == vals(a).len());
    assert(b.len() == vals(b).len());
    assert forall|i: int| 0 <= i < a.len() implies a[i] == b[i] by {
        assert(vals(a)[i] == vals(b)[i]);
        assert(vals(a)[i] == le_value(a[i]@));
        assert(vals(b)[i] == le_value(b[i]@));
        lemma_le_value_injective(a[i]@, b[i]@);
        assert(a[i]@ == b[i]@);
        vstd::array::axiom_array_ext_equal(a[i], b[i]);
        assert(a[i] =~= b[i]);
    }
    assert(a =~= b);
}

// ---- checking a share ----

/// Every witness's proof parses and proves its commitment under the root,
/// for as many leaves as there are witnesses.
pub open spec fn classic_merkle_ok(share: ClassicShare) -> bool {
    forall|i: int|
        0 <= i < share.r_witness@.len() ==> {
            let w = #[trigger] share.r_witness@[i];
            &&& w.merkle_branch.1@.len() % 32 == 0
            &&& spec_merkle_verify(
                w.merkle_branch.1@,
                share.c.0@,
                w.merkle_branch.0 as int,
                spec_sha256(w.poly_commit@),
                share.r_witness@.len() as int,
            )
        }
}

/// The share can be checked at all: valid points and reduced scalars, at
/// most as many evaluations as commitments, and a well-formed proof unit
/// for every round.
pub open spec fn classic_share_checkable(crs: CommonReferenceString, share: ClassicShare, t: nat) -> bool {
    &&& classic_crs_ok(crs, t)
    &&& share.y_k@.len() <= share.r_hat@.len()
    &&& all_valid(share.r_hat@)
    &&& spec_point_valid(share.phi_k.d_hat@)
    &&& all_canonical(share.y_k@)
    &&& canonical(share.phi_k.v_d_i)
    &&& share.phi_k.proofs@.len() >= round_count(t + 1)
    &&& forall|k: int| 0 <= k < share.phi_k.proofs@.len() ==> unit_ok(#[trigger] share.phi_k.proofs@[k])
}

/// The points of party `id`: `id^i` for `i <= t`.
pub open spec fn party_points(id: Id, t: nat) -> Seq<nat> {
    Seq::new(t + 1, |i: int| spow(id_value(id), i as nat))
}

/// Party `id` accepts the share: its evaluations pass the evaluation
/// proof at its points (`id^i`, as reduced scalars) and every commitment
/// is proved under the root.
pub open spec fn classic_share_accepted(crs: CommonReferenceString, id: Id, t: nat, share: ClassicShare) -> bool {
    &&& exists|y: Seq<ScalarBytes>|
        #![trigger vals(y)]
        {
            &&& all_canonical(y)
            &&& vals(y) == party_points(id, t)
            &&& verify_eval(pts(crs.g@), crs.h@, share.r_hat@, vals(share.y_k@), y, phi_view(share.phi_k), t, share.n as nat)
        }
    &&& classic_merkle_ok(share)
}

/// Checks party `node_id`'s share: the evaluation proof of its evaluations
/// at its points, then the inclusion proof of every commitment, stopping at
/// the first that fails to parse or to prove.
pub fn classic_share_verify(crs: &CommonReferenceString, node_id: Id, t: usize, share: &ClassicShare) -> (ok: bool)
    requires
        t < usize::MAX,
        classic_share_checkable(*crs, *share, t as nat),
    ensures
        ok == classic_share_accepted(*crs, node_id, t as nat, *share),
{
    let y = generate_evaluation_points_for_verifier(t, node_id);
    assert(vals(y@) =~= party_points(node_id, t as nat));
    let rh = copy_range(&share.r_hat, 0, share.r_hat.len());
    assert(rh@ =~= share.r_hat@);
    let ys = copy_range(&share.y_k, 0, share.y_k.len());
    assert(ys@ =~= share.y_k@);
    let phi = copy_phi(&share.phi_k);
    assert(phi.proofs@.len() == share.phi_k.proofs@.len());
    proof {
        assert forall|k: int| 0 <= k < phi.proofs@.len() implies unit_ok(#[trigger] phi.proofs@[k]) by {
            assert(unit_ok(share.phi_k.proofs@[k]));
            lemma_unit_ok_view(phi.proofs@[k], share.phi_k.proofs@[k]);
        }
    }
    let eval_ok = batch_verify_eval(crs, &rh, ys, y, phi, t, share.n);
    if !eval_ok {
        proof {
            if exists|y2: Seq<ScalarBytes>|
                #![trigger vals(y2)]
                {
                    &&& all_canonical(y2)
                    &&& vals(y2) == party_points(node_id, t as nat)
                    &&& verify_eval(pts(crs.g@), crs.h@, share.r_hat@, vals(share.y_k@), y2, phi_view(share.phi_k), t as nat, share.n as nat)
                } {
                let y2 = choose|y2: Seq<ScalarBytes>|
                    #![trigger vals(y2)]
                    {
                        &&& all_canonical(y2)
                        &&& vals(y2) == party_points(node_id, t as nat)
                        &&& verify_eval(pts(crs.g@), crs.h@, share.r_hat@, vals(share.y_k@), y2, phi_view(share.phi_k), t as nat, share.n as nat)
                    };
                lemma_canonical_bytes_unique(y2, y@);
            }
        }
        return false;
    }
    let total = share.r_witness.len();
    let mut i: usize = 0;
    while i < total
        invariant
            i <= total,
            total == share.r_witness@.len(),
            forall|a: int|
                0 <= a < i ==> {
                    let w = #[trigger] share.r_witness@[a];
                    &&& w.merkle_branch.1@.len() % 32 == 0
                    &&& spec_merkle_verify(
                        w.merkle_branch.1@,
                        share.c.0@,
                        w.merkle_branch.0 as int,
                        spec_sha256(w.poly_commit@),
                        total as int,
                    )
                },
        decreases total - i,
    {
        let wit = &share.r_witness[i];
        let data = crate::crypto::bytes_to_vec(&wit.poly_commit);
        let branch = (wit.merkle_branch.0, crate::crypto::bytes_to_vec(wit.merkle_branch.1.as_slice()));
        match verify_merkle_proof(&data, branch, Digest(share.c.0), total) {
            Ok(res) => {
                if !res {
                    return false;
                }
            },
            Err(_) => {
                return false;
            },
        }
        i = i + 1;
    }
    true
}

// ---- reconstruction ----

/// The Lagrange factor `-x_j / (x_i - x_j)` of point `j` in the basis
/// polynomial of point `i`, modulo the group order.
pub open spec fn lfactor(p: Seq<nat>, i: int, j: int) -> nat {
    smul(
        ((group_order() - p[j]) % (group_order() as int)) as nat,
        inv(((p[i] + group_order() - p[j]) % (group_order() as int)) as nat),
    )
}

/// `v[i]` times the factors of the first `k` points other than `i`.
pub open spec fn lterm(p: Seq<nat>, v: Seq<nat>, i: int, k: int) -> nat
    decreases k,
{
    if k <= 0 {
        v[i]
    } else if k - 1 == i {
        lterm(p, v, i, k - 1)
    } else {
        smul(lterm(p, v, i, k - 1), lfactor(p, i, k - 1))
    }
}

/// The sum of the first `k` terms.
pub open spec fn lsum(p: Seq<nat>, v: Seq<nat>, k: int) -> nat
    decreases k,
{
    if k <= 0 {
        0
    } else {
        sadd(lsum(p, v, k - 1), lterm(p, v, k - 1, p.len() as int))
    }
}

/// The value at zero of the polynomial through `(p[i], v[i])`, modulo the
/// group order.
pub open spec fn classic_lagrange_at_zero(p: Seq<nat>, v: Seq<nat>) -> nat {
    lsum(p, v, p.len() as int)
}

/// The points of the parties: their ids as scalars.
pub open spec fn id_points(ids: Seq<Id>) -> Seq<nat> {
    Seq::new(ids.len(), |k: int| id_value(ids[k]))
}

/// A reconstructed secret.
pub struct ClassicReconResult {
    pub value: ScalarBytes,
}

/// The little-endian value of the first 16 bytes is below `2^128`.
pub proof fn lemma_le_value_bound(s: Seq<u8>)
    ensures
        le_value(s) < vstd::arithmetic::power::pow(256, s.len()),
    decreases s.len(),
{
    if s.len() > 0 {
        lemma_le_value_bound(s.drop_first());
        vstd::arithmetic::power::lemma_pow_positive(256, s.drop_first().len());
        assert(vstd::arithmetic::power::pow(256, s.len()) == 256 * vstd::arithmetic::power::pow(256, s.drop_first().len())) by {
            vstd::arithmetic::power::lemma_pow_adds(256, 1, s.drop_first().len());
            vstd::arithmetic::power::lemma_pow1(256);
        }
    } else {
        vstd::arithmetic::power::lemma_pow0(256);
    }
}

impl ClassicReconResult {
    pub fn new(output: ScalarBytes) -> (r: Self)
        ensures
            r.value == output,
    {
        ClassicReconResult { value: output }
    }

    /// The points of the parties: their ids as scalars.
    pub fn generate_evaluation_points_n(ids: &Vec<Id>) -> (res: Vec<ScalarBytes>)
        ensures
            all_canonical(res@),
            vals(res@) == id_points(ids@),
    {
        let mut res: Vec<ScalarBytes> = Vec::new();
        let mut k: usize = 0;
        while k < ids.len()
            invariant
                k <= ids@.len(),
                res@.len() == k,
                all_canonical(res@),
                forall|a: int| 0 <= a < k ==> le_value((#[trigger] res@[a])@) == id_value(ids@[a]),
            decreases ids.len() - k,
        {
            res.push(id_scalar(ids[k]));
            k = k + 1;
        }
        assert(vals(res@) =~= id_points(ids@));
        res
    }

    /// Interpolates at zero, over the scalars, the polynomial through
    /// `(points[i], values[i])`: each value times `-x_j / (x_i - x_j)` for
    /// every other point, summed.
    pub fn lagrange_interpolation_at_zero(points: &Vec<ScalarBytes>, values: &Vec<ScalarBytes>) -> (r: ScalarBytes)
        requires
            points@.len() <= values@.len(),
            all_canonical(points@),
            all_canonical(values@),
        ensures
            canonical(r),
            le_value(r@) == classic_lagrange_at_zero(vals(points@), vals(values@)),
    {
        let ghost p = vals(points@);
        let ghost v = vals(values@);
        let n = points.len();
        let mut result = scalar_from_u64(0);
        let mut i: usize = 0;
        while i < n
            invariant
                i <= n,
                n == points@.len(),
                points@.len() <= values@.len(),
                all_canonical(points@),
                all_canonical(values@),
                p == vals(points@),
                v == vals(values@),
                canonical(result),
                le_value(result@) == lsum(p, v, i as int),
            decreases n - i,
        {
            let mut term = values[i];
            assert(le_value(term@) == v[i as int]);
            let mut j: usize = 0;
            while j < n
                invariant
                    j <= n,
                    i < n,
                    n == points@.len(),
                    points@.len() <= values@.len(),
                    all_canonical(points@),
                    all_canonical(values@),
                    p == vals(points@),
                    v == vals(values@),
                    canonical(term),
                    le_value(term@) == lterm(p, v, i as int, j as int),
                decreases n - j,
            {
                if i != j {
                    proof {
                        lemma_canonical_sv(points@[j as int]);
                        lemma_canonical_sv(points@[i as int]);
                    }
                    let neg = scalar_neg(&points[j]);
                    let diff = scalar_sub(&points[i], &points[j]);
                    proof {
                        lemma_canonical_sv(diff);
                    }
                    let dinv = scalar_invert(&diff);
                    proof {
                        lemma_canonical_sv(neg);
                        let x = ((p[i as int] + group_order() - p[j as int]) % (group_order() as int)) as nat;
                        if x != 0 {
                            vstd::arithmetic::div_mod::lemma_mod_bound(crate::breeze_reconstruct_dealer::spec_mod_inverse(x as int, group_order() as int), group_order() as int);
                        }
                        lemma_canonical_sv(dinv);
                    }
                    let f = scalar_mul(&neg, &dinv);
                    proof {
                        lemma_canonical_sv(f);
                        lemma_canonical_sv(term);
                    }
                    term = scalar_mul(&term, &f);
                }
                j = j + 1;
            }
            proof {
                lemma_canonical_sv(result);
                lemma_canonical_sv(term);
            }
            result = scalar_add(&result, &term);
            i = i + 1;
        }
        result
    }

    /// Interpolates at zero the shares of the parties `evaluate_ids`.
    pub fn interpolate(evaluate_ids: &Vec<Id>, shares: &Vec<ScalarBytes>) -> (r: ScalarBytes)
        requires
            evaluate_ids@.len() <= shares@.len(),
            all_canonical(shares@),
        ensures
            canonical(r),
            le_value(r@) == classic_lagrange_at_zero(id_points(evaluate_ids@), vals(shares@)),
    {
        let points = Self::generate_evaluation_points_n(evaluate_ids);
        assert(points@.len() == vals(points@).len());
        Self::lagrange_interpolation_at_zero(&points, shares)
    }

    /// The beacon value: the first 16 bytes of the secret's encoding, read
    /// little-endian.
    pub fn secret_to_number(&self) -> (r: RandomNum)
        ensures
            r == le_value(self.value@.subrange(0, 16)),
    {
        let ghost s = self.value@;
        let mut r: u128 = 0;
        let mut i: usize = 16;
        proof {
            assert(s.subrange(16, 16) =~= Seq::<u8>::empty());
        }
        while i > 0
            invariant
                i <= 16,
                s == self.value@,
                s.len() == 32,
                r == le_value(s.subrange(i as int, 16)),
            decreases i,
        {
            let ghost tail = s.subrange(i as int, 16);
            let ghost longer = s.subrange(i - 1, 16);
            proof {
                assert(longer.drop_first() =~= tail);
                assert(le_value(longer) == longer[0] as nat + 256 * le_value(tail));
                lemma_le_value_bound(longer);
                assert(longer.len() <= 16);
                vstd::arithmetic::power::lemma_pow_increases(256, longer.len(), 16);
                assert(vstd::arithmetic::power::pow(256, 16) == 0x1_0000_0000_0000_0000_0000_0000_0000_0000) by {
                    reveal_with_fuel(vstd::arithmetic::power::pow, 17);
                }
            }
            r = r * 256 + self.value[i - 1] as u128;
            i = i - 1;
        }
        r
    }
}

// ---- the reply phase ----

/// A share of `dealer` for `epoch` is kept.
pub open spec fn has_share(kept: Seq<(PublicKey, ClassicShare)>, dealer: Seq<u8>, epoch: Epoch) -> bool {
    exists|i: int| 0 <= i < kept.len() && (#[trigger] kept[i]).0@ == dealer && kept[i].1.epoch == epoch
}

/// One share taken by the reply phase: from `s`, a share of `dealer`, to
/// `t`, sending `r`.  It is answered exactly when this party accepts it and
/// keeps no share of that dealer for its epoch; then it is kept and the
/// reply goes to the dealer, from this party, with the root, the epoch and
/// this party's signature over the root.
pub open spec fn classic_reply_step(
    s: ClassicReply,
    dealer: PublicKey,
    share: ClassicShare,
    t: ClassicReply,
    r: Option<(PublicKey, BreezeMessage)>,
) -> bool {
    &&& t.node_id == s.node_id
    &&& t.signing_key == s.signing_key
    &&& t.crs == s.crs
    &&& t.fault_tolerance == s.fault_tolerance
    &&& (r is Some <==> classic_share_accepted(s.crs, s.node_id.1, s.fault_tolerance as nat, share)
        && !has_share(s.my_shares@, dealer@, share.epoch))
    &&& (r is Some ==> t.my_shares@.len() == s.my_shares@.len() + 1
        && t.my_shares@.subrange(0, s.my_shares@.len() as int) == s.my_shares@
        && t.my_shares@.last().0 == dealer && t.my_shares@.last().1.epoch == share.epoch)
    &&& (r is None ==> t.my_shares@ == s.my_shares@)
    &&& (r matches Some(out) ==> {
        &&& out.0 == dealer
        &&& out.1.sender == s.node_id.0
        &&& out.1.content matches BreezeContent::Reply(rm)
        &&& rm.dealer == dealer
        &&& rm.c == share.c
        &&& rm.epoch == share.epoch
        &&& rm.signature@ == spec_dilithium_sign(share.c.0@, s.signing_key@)
    })
}

/// The reply phase of a party: checks the shares dealt to it and answers
/// each dealer once per epoch with its signature over the dealer's root.
pub struct ClassicReply {
    pub node_id: (PublicKey, Id),
    pub signing_key: SecretKey,
    pub crs: CommonReferenceString,
    pub fault_tolerance: usize,
    pub my_shares: Vec<(PublicKey, ClassicShare)>,
}

impl ClassicReply {
    /// A reply phase with nothing kept.
    pub fn new(node_id: (PublicKey, Id), signing_key: SecretKey, crs: CommonReferenceString, fault_tolerance: usize) -> (r: Self)
        ensures
            r.node_id == node_id,
            r.signing_key == signing_key,
            r.crs == crs,
            r.fault_tolerance == fault_tolerance,
            r.my_shares@.len() == 0,
    {
        ClassicReply { node_id, signing_key, crs, fault_tolerance, my_shares: Vec::new() }
    }

    /// Whether a share of `dealer` for `epoch` is kept.
    fn kept(&self, dealer: &PublicKey, epoch: Epoch) -> (r: bool)
        ensures
            r == has_share(self.my_shares@, dealer@, epoch),
    {
        let mut i: usize = 0;
        while i < self.my_shares.len()
            invariant
                i <= self.my_shares@.len(),
                forall|j: int| 0 <= j < i ==> !((#[trigger] self.my_shares@[j]).0@ == dealer@ && self.my_shares@[j].1.epoch == epoch),
            decreases self.my_shares.len() - i,
        {
            if self.my_shares[i].0.same(dealer) && self.my_shares[i].1.epoch == epoch {
                return true;
            }
            i = i + 1;
        }
        false
    }

    /// Takes a share from `dealer`: when this party accepts it (with the
    /// fault tolerance as degree) and keeps no share of that dealer for its
    /// epoch, keeps it and answers the dealer with a reply carrying the
    /// root, its signature over the root and the epoch; otherwise nothing
    /// changes and nothing is sent.
    pub fn on_share(&mut self, dealer: PublicKey, share: ClassicShare) -> (r: Option<(PublicKey, BreezeMessage)>)
        requires
            old(self).fault_tolerance < usize::MAX,
            classic_share_checkable(old(self).crs, share, old(self).fault_tolerance as nat),
        ensures
            classic_reply_step(*old(self), dealer, share, *final(self), r),
    {
        if !classic_share_verify(&self.crs, self.node_id.1, self.fault_tolerance, &share) {
            return None;
        }
        let signature = Signature::new(&share.c, &self.signing_key);
        let epoch = share.epoch;
        if self.kept(&dealer, epoch) {
            return None;
        }
        let c = Digest(share.c.0);
        let ghost before = self.my_shares@;
        self.my_shares.push((dealer, share));
        proof {
            assert(self.my_shares@.subrange(0, before.len() as int) =~= before);
        }
        let reply = BreezeMessage::new_reply_message(dealer, self.node_id.0, c, signature, epoch);
        Some((dealer, reply))
    }
}

/// Law: over a run of shares taken one by one, every reply goes to a
/// different (dealer, epoch): no dealer is answered twice for an epoch.
pub proof fn lemma_one_reply_per_dealer_and_epoch(
    kept: Seq<Seq<(PublicKey, ClassicShare)>>,
    dealers: Seq<PublicKey>,
    epochs: Seq<Epoch>,
    replied: Seq<bool>,
)
    requires
        kept.len() == dealers.len() + 1,
        epochs.len() == dealers.len(),
        replied.len() == dealers.len(),
        forall|k: int|
            0 <= k < dealers.len() ==> {
                &&& (#[trigger] replied[k]) ==> !has_share(kept[k], dealers[k]@, epochs[k])
                    && kept[k + 1].len() == kept[k].len() + 1
                    && kept[k + 1].subrange(0, kept[k].len() as int) == kept[k]
                    && kept[k + 1].last().0@ == dealers[k]@ && kept[k + 1].last().1.epoch == epochs[k]
                &&& !replied[k] ==> kept[k + 1] == kept[k]
            },
    ensures
        forall|a: int, b: int|
            0 <= a < b < dealers.len() && #[trigger] replied[a] && #[trigger] replied[b] ==> !(dealers[a]@
                == dealers[b]@ && epochs[a] == epochs[b]),
{
    assert forall|a: int, b: int|
        0 <= a < b < dealers.len() && #[trigger] replied[a] && #[trigger] replied[b] implies !(dealers[a]@
            == dealers[b]@ && epochs[a] == epochs[b]) by {
        lemma_kept_grows(kept, dealers, epochs, replied, a + 1, b);
        let i = kept[a].len() as int;
        assert(kept[a + 1][i].0@ == dealers[a]@ && kept[a + 1][i].1.epoch == epochs[a]);
        assert(kept[b][i] == kept[a + 1][i]);
        if dealers[a]@ == dealers[b]@ && epochs[a] == epochs[b] {
            assert(has_share(kept[b], dealers[b]@, epochs[b]));
        }
    }
}

/// The kept shares only grow: an earlier list is a prefix of a later one.
proof fn lemma_kept_grows(
    kept: Seq<Seq<(PublicKey, ClassicShare)>>,
    dealers: Seq<PublicKey>,
    epochs: Seq<Epoch>,
    replied: Seq<bool>,
    a: int,
    b: int,
)
    requires
        kept.len() == dealers.len() + 1,
        epochs.len() == dealers.len(),
        replied.len() == dealers.len(),
        forall|k: int|
            0 <= k < dealers.len() ==> {
                &&& (#[trigger] replied[k]) ==> !has_share(kept[k], dealers[k]@, epochs[k])
                    && kept[k + 1].len() == kept[k].len() + 1
                    && kept[k + 1].subrange(0, kept[k].len() as int) == kept[k]
                    && kept[k + 1].last().0@ == dealers[k]@ && kept[k + 1].last().1.epoch == epochs[k]
                &&& !replied[k] ==> kept[k + 1] == kept[k]
            },
        0 <= a <= b < kept.len(),
    ensures
        kept[a].len() <= kept[b].len(),
        kept[b].subrange(0, kept[a].len() as int) == kept[a],
    decreases b - a,
{
    if a < b {
        lemma_kept_grows(kept, dealers, epochs, replied, a + 1, b);
        let k = a;
        if replied[k] {
            assert(kept[b].subrange(0, kept[a].len() as int) =~= kept[a + 1].subrange(0, kept[a].len() as int));
        }
    } else {
        assert(kept[b].subrange(0, kept[a].len() as int) =~= kept[a]);
    }
}

/// In a run of the reply phase, the party, its key and its reference
/// string stay those of the start.
proof fn lemma_reply_params_stay(
    states: Seq<ClassicReply>,
    dealers: Seq<PublicKey>,
    shares: Seq<ClassicShare>,
    outs: Seq<Option<(PublicKey, BreezeMessage)>>,
    k: int,
)
    requires
        states.len() == dealers.len() + 1,
        shares.len() == dealers.len(),
        outs.len() == dealers.len(),
        forall|j: int| 0 <= j < dealers.len() ==> classic_reply_step(states[j], dealers[j], shares[j], #[trigger] states[j + 1], outs[j]),
        0 <= k < states.len(),
    ensures
        states[k].node_id == states[0].node_id,
        states[k].signing_key == states[0].signing_key,
        states[k].crs == states[0].crs,
        states[k].fault_tolerance == states[0].fault_tolerance,
    decreases k,
{
    if k > 0 {
        let j = k - 1;
        lemma_reply_params_stay(states, dealers, shares, outs, j);
        assert(classic_reply_step(states[j], dealers[j], shares[j], states[j + 1], outs[j]));
        assert(states[j + 1] == states[k]);
    }
}

/// Law: over a run of shares taken one by one, a reply is sent exactly for
/// the shares this party accepts from a dealer it has not answered for that
/// epoch; it goes to that dealer, from this party, and carries the share's
/// root and epoch with this party's signature over the root; and no dealer
/// is answered twice for an epoch.
pub proof fn lemma_classic_replies_in_run(
    states: Seq<ClassicReply>,
    dealers: Seq<PublicKey>,
    shares: Seq<ClassicShare>,
    outs: Seq<Option<(PublicKey, BreezeMessage)>>,
)
    requires
        states.len() == dealers.len() + 1,
        shares.len() == dealers.len(),
        outs.len() == dealers.len(),
        forall|j: int| 0 <= j < dealers.len() ==> classic_reply_step(states[j], dealers[j], shares[j], #[trigger] states[j + 1], outs[j]),
    ensures
        forall|j: int|
            0 <= j < outs.len() && (#[trigger] outs[j]) is Some ==> {
                let out = outs[j]->0;
                &&& classic_share_accepted(states[0].crs, states[0].node_id.1, states[0].fault_tolerance as nat, shares[j])
                &&& out.0 == dealers[j]
                &&& out.1.sender == states[0].node_id.0
                &&& out.1.content matches BreezeContent::Reply(rm)
                &&& rm.dealer == dealers[j]
                &&& rm.c == shares[j].c
                &&& rm.epoch == shares[j].epoch
                &&& rm.signature@ == spec_dilithium_sign(shares[j].c.0@, states[0].signing_key@)
            },
        forall|a: int, b: int|
            0 <= a < b < outs.len() && (#[trigger] outs[a]) is Some && (#[trigger] outs[b]) is Some ==> !(dealers[a]@
                == dealers[b]@ && shares[a].epoch == shares[b].epoch),
{
    assert forall|j: int| 0 <= j < outs.len() && (#[trigger] outs[j]) is Some implies {
        let out = outs[j]->0;
        &&& classic_share_accepted(states[0].crs, states[0].node_id.1, states[0].fault_tolerance as nat, shares[j])
        &&& out.0 == dealers[j]
        &&& out.1.sender == states[0].node_id.0
        &&& out.1.content matches BreezeContent::Reply(rm)
        &&& rm.dealer == dealers[j]
        &&& rm.c == shares[j].c
        &&& rm.epoch == shares[j].epoch
        &&& rm.signature@ == spec_dilithium_sign(shares[j].c.0@, states[0].signing_key@)
    } by {
        lemma_reply_params_stay(states, dealers, shares, outs, j);
        assert(classic_reply_step(states[j], dealers[j], shares[j], states[j + 1], outs[j]));
    }
    let kept = Seq::new(states.len(), |k: int| states[k].my_shares@);
    let epochs = Seq::new(dealers.len(), |k: int| shares[k].epoch);
    let replied = Seq::new(dealers.len(), |k: int| outs[k] is Some);
    assert forall|k: int| 0 <= k < dealers.len() implies {
        &&& (#[trigger] replied[k]) ==> !has_share(kept[k], dealers[k]@, epochs[k])
            && kept[k + 1].len() == kept[k].len() + 1
            && kept[k + 1].subrange(0, kept[k].len() as int) == kept[k]
            && kept[k + 1].last().0@ == dealers[k]@ && kept[k + 1].last().1.epoch == epochs[k]
        &&& !replied[k] ==> kept[k + 1] == kept[k]
    } by {
        assert(classic_reply_step(states[k], dealers[k], shares[k], states[k + 1], outs[k]));
    }
    lemma_one_reply_per_dealer_and_epoch(kept, dealers, epochs, replied);
    assert forall|a: int, b: int|
        0 <= a < b < outs.len() && (#[trigger] outs[a]) is Some && (#[trigger] outs[b]) is Some implies !(dealers[a]@
            == dealers[b]@ && shares[a].epoch == shares[b].epoch) by {
        assert(replied[a] && replied[b]);
    }
}

/// Law: a share that a party accepts (so `classic_share_verify` returns
/// true) has every one of its commitments proved under the root: for each
/// position `i`, the `i`-th witness's branch parses and proves the SHA-256
/// of the `i`-th commitment against the share's root, among as many leaves
/// as there are witnesses.
pub proof fn lemma_accepted_share_proves_every_commitment(crs: CommonReferenceString, id: Id, t: nat, share: ClassicShare)
    requires
        classic_share_accepted(crs, id, t, share),
    ensures
        forall|i: int|
            0 <= i < share.r_witness@.len() ==> (#[trigger] share.r_witness@[i]).merkle_branch.1@.len() % 32 == 0
                && spec_merkle_verify(
                share.r_witness@[i].merkle_branch.1@,
                share.c.0@,
                share.r_witness@[i].merkle_branch.0 as int,
                spec_sha256(share.r_witness@[i].poly_commit@),
                share.r_witness@.len() as int,
            ),
{
    assert forall|i: int| 0 <= i < share.r_witness@.len() implies (#[trigger] share.r_witness@[i]).merkle_branch.1@.len() % 32 == 0
        && spec_merkle_verify(
        share.r_witness@[i].merkle_branch.1@,
        share.c.0@,
        share.r_witness@[i].merkle_branch.0 as int,
        spec_sha256(share.r_witness@[i].poly_commit@),
        share.r_witness@.len() as int,
    ) by {
        let w = share.r_witness@[i];
        assert(w.merkle_branch.1@.len() % 32 == 0);
    }
}

} // verus!
