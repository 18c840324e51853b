//! Batch evaluation proofs over the Ristretto group (the classic-cryptography
//! variant of the sharing): a dealer proves, with one folding inner-product
//! argument per party, that the evaluations it sends match its commitments.
//!
//! Scalars are kept as their 32 little-endian bytes and group elements as
//! their 32-byte compressed encodings; `curve25519-dalek` does the
//! arithmetic.  Scalar arithmetic is stated exactly (modulo the group order
//! `l`); what the group operations give is named.

use vstd::prelude::*;
use curve25519_dalek::ristretto::{CompressedRistretto, RistrettoPoint};
use curve25519_dalek::scalar::Scalar;
use curve25519_dalek::traits::Identity;
use crate::crypto::Digest;
use crate::hashing::{be_bytes, le_bytes, sha256, spec_sha256};
use crate::breeze_reconstruct_dealer::spec_mod_inverse;
use crate::merkletree::{generate_merkle_tree, leaf_hashes, spec_merkle_root, spec_merkle_verify, verify_merkle_proof};

verus! {

/// A scalar as its 32 little-endian bytes.
pub type ScalarBytes = [u8; 32];

/// A group element as its 32-byte compressed encoding.
pub type PointBytes = [u8; 32];

/// The order `l = 2^252 + 27742317777372353535851937790883648493` of the
/// group.
pub open spec fn group_order() -> nat {
    0x1000000000000000000000000000000014def9dea2f79cd65812631a5cf5d3ednat
}

/// The little-endian value of a byte string.
pub open spec fn le_value(s: Seq<u8>) -> nat
    decreases s.len(),
{
    if s.len() == 0 {
        0
    } else {
        s[0] as nat + 256 * le_value(s.drop_first())
    }
}

/// The bytes hold a reduced scalar (as every scalar that `curve25519-dalek`
/// hands out does).
pub open spec fn canonical(s: ScalarBytes) -> bool {
    le_value(s@) < group_order()
}

/// The value of a scalar.
pub open spec fn sv(s: ScalarBytes) -> nat {
    le_value(s@) % group_order()
}

/// The compressed encoding of `a + b`.
pub uninterp spec fn spec_point_add(a: Seq<u8>, b: Seq<u8>) -> Seq<u8>;

/// The compressed encoding of `s * p`, for the scalar of value `s`.
pub uninterp spec fn spec_point_mul(p: Seq<u8>, s: nat) -> Seq<u8>;

/// The bytes decompress to a group element.
pub uninterp spec fn spec_point_valid(p: Seq<u8>) -> bool;

/// The inverse modulo `l` of a nonzero scalar value (as a residue below
/// `l`), zero for zero.
pub open spec fn inv(x: nat) -> nat {
    if x == 0 {
        0
    } else {
        (spec_mod_inverse(x as int, group_order() as int) % (group_order() as int)) as nat
    }
}

/// Calls `Scalar::from_bytes_mod_order`.  Claimed (its documentation): the
/// little-endian value of the bytes reduced modulo `l`.
#[verifier::external_body]
fn scalar_reduce(bytes: ScalarBytes) -> (r: ScalarBytes)
    ensures
        le_value(r@) == le_value(bytes@) % group_order(),
{
    Scalar::from_bytes_mod_order(bytes).to_bytes()
}

/// Calls `Scalar + Scalar`.  Claimed: the sum modulo `l`.
#[verifier::external_body]
pub(crate) fn scalar_add(a: &ScalarBytes, b: &ScalarBytes) -> (r: ScalarBytes)
    ensures
        le_value(r@) == (sv(*a) + sv(*b)) % group_order(),
{
    (Scalar::from_bytes_mod_order(*a) + Scalar::from_bytes_mod_order(*b)).to_bytes()
}

/// Calls `Scalar * Scalar`.  Claimed: the product modulo `l`.
#[verifier::external_body]
pub(crate) fn scalar_mul(a: &ScalarBytes, b: &ScalarBytes) -> (r: ScalarBytes)
    ensures
        le_value(r@) == (sv(*a) * sv(*b)) % group_order(),
{
    (Scalar::from_bytes_mod_order(*a) * Scalar::from_bytes_mod_order(*b)).to_bytes()
}

/// Calls `-Scalar`.  Claimed: the additive inverse modulo `l`.
#[verifier::external_body]
pub(crate) fn scalar_neg(a: &ScalarBytes) -> (r: ScalarBytes)
    ensures
        le_value(r@) == (group_order() - sv(*a)) % (group_order() as int),
{
    (-Scalar::from_bytes_mod_order(*a)).to_bytes()
}

/// Calls `Scalar::invert`.  Claimed: the multiplicative inverse modulo the
/// prime `l` of a nonzero scalar, as its documentation says; for zero, which
/// the documentation forbids, zero (the source raises the scalar to the
/// power `l - 2`).
#[verifier::external_body]
pub(crate) fn scalar_invert(a: &ScalarBytes) -> (r: ScalarBytes)
    ensures
        le_value(r@) == inv(sv(*a)),
{
    Scalar::from_bytes_mod_order(*a).invert().to_bytes()
}

/// Calls `Scalar - Scalar`.  Claimed: the difference modulo `l`.
#[verifier::external_body]
pub(crate) fn scalar_sub(a: &ScalarBytes, b: &ScalarBytes) -> (r: ScalarBytes)
    ensures
        le_value(r@) == (sv(*a) + group_order() - sv(*b)) % (group_order() as int),
{
    (Scalar::from_bytes_mod_order(*a) - Scalar::from_bytes_mod_order(*b)).to_bytes()
}

/// Calls `Scalar::random(&mut OsRng)`.  Claimed: a reduced scalar; which
/// one is up to the operating system's generator.
#[verifier::external_body]
pub(crate) fn random_scalar() -> (r: ScalarBytes)
    ensures
        canonical(r),
{
    Scalar::random(&mut rand::rngs::OsRng).to_bytes()
}

/// Calls `Scalar::from(u64)`.  Claimed: the scalar of that value.
#[verifier::external_body]
pub(crate) fn scalar_from_u64(x: u64) -> (r: ScalarBytes)
    ensures
        le_value(r@) == x,
{
    Scalar::from(x).to_bytes()
}

/// Calls `RistrettoPoint::identity().compress()`.  Claimed (Ristretto's
/// encoding): 32 zero bytes, a valid encoding.
#[verifier::external_body]
pub(crate) fn point_identity() -> (r: PointBytes)
    ensures
        r@ == Seq::new(32, |i: int| 0u8),
        spec_point_valid(r@),
{
    RistrettoPoint::identity().compress().to_bytes()
}

/// Calls `RistrettoPoint + RistrettoPoint` on the decompressed arguments
/// and compresses the sum.  Claimed: the named sum, a valid encoding.
#[verifier::external_body]
pub(crate) fn point_add(a: &PointBytes, b: &PointBytes) -> (r: PointBytes)
    requires
        spec_point_valid(a@),
        spec_point_valid(b@),
    ensures
        r@ == spec_point_add(a@, b@),
        spec_point_valid(r@),
{
    let x = CompressedRistretto(*a).decompress().unwrap();
    let y = CompressedRistretto(*b).decompress().unwrap();
    (x + y).compress().to_bytes()
}

/// Calls `RistrettoPoint * Scalar` on the decompressed point and compresses
/// the product.  Claimed: the named product, a valid encoding.
#[verifier::external_body]
pub(crate) fn point_mul(p: &PointBytes, s: &ScalarBytes) -> (r: PointBytes)
    requires
        spec_point_valid(p@),
    ensures
        r@ == spec_point_mul(p@, sv(*s)),
        spec_point_valid(r@),
{
    let x = CompressedRistretto(*p).decompress().unwrap();
    (x * Scalar::from_bytes_mod_order(*s)).compress().to_bytes()
}

/// Calls `CompressedRistretto::decompress`.  Claimed: whether the bytes
/// decompress.
#[verifier::external_body]
pub(crate) fn point_decompresses(p: &PointBytes) -> (r: bool)
    ensures
        r == spec_point_valid(p@),
{
    CompressedRistretto(*p).decompress().is_some()
}

/// The zero scalar.
pub open spec fn zero_scalar() -> Seq<u8> {
    Seq::new(32, |i: int| 0u8)
}

proof fn lemma_le_value_zero(s: Seq<u8>)
    requires
        forall|i: int| 0 <= i < s.len() ==> s[i] == 0,
    ensures
        le_value(s) == 0,
    decreases s.len(),
{
    if s.len() > 0 {
        lemma_le_value_zero(s.drop_first());
    }
}

/// The zero scalar.
fn zero() -> (r: ScalarBytes)
    ensures
        le_value(r@) == 0,
        r@ == zero_scalar(),
{
    let r = [0u8; 32];
    proof {
        assert(r@ =~= zero_scalar());
        lemma_le_value_zero(r@);
    }
    r
}

/// The sum over `i < k` of `a[i] * b[i][j]`, as integers.
pub open spec fn sdot(a: Seq<ScalarBytes>, b: Seq<Vec<ScalarBytes>>, j: int, k: int) -> int
    decreases k,
{
    if k <= 0 {
        0
    } else {
        sdot(a, b, j, k - 1) + sv(a[k - 1]) * sv(b[k - 1]@[j])
    }
}

/// Every row has at least `n` entries.
pub open spec fn rows_at_least(b: Seq<Vec<ScalarBytes>>, n: int) -> bool {
    forall|i: int| 0 <= i < b.len() ==> (#[trigger] b[i])@.len() >= n
}

proof fn lemma_add_mod(x: int, y: int, m: int)
    requires
        m > 0,
    ensures
        ((x % m) + y) % m == (x + y) % m,
{
    vstd::arithmetic::div_mod::lemma_add_mod_noop(x, y, m);
    vstd::arithmetic::div_mod::lemma_mod_twice(x, m);
    vstd::arithmetic::div_mod::lemma_add_mod_noop(x % m, y, m);
}

pub proof fn lemma_canonical_sv(s: ScalarBytes)
    requires
        le_value(s@) < group_order(),
    ensures
        sv(s) == le_value(s@),
{
    vstd::arithmetic::div_mod::lemma_small_mod(le_value(s@), group_order());
}

/// The row vector `a` times the matrix `b`: entry `j` is the sum of
/// `a[i] * b[i][j]` modulo `l`, for the `n` columns of the first row.  Sizes
/// that do not match are ruled out.
pub fn inner_product(a: &Vec<ScalarBytes>, b: &Vec<Vec<ScalarBytes>>) -> (r: Vec<ScalarBytes>)
    requires
        a@.len() == b@.len(),
        b@.len() > 0,
        rows_at_least(b@, b@[0]@.len() as int),
    ensures
        r@.len() == b@[0]@.len(),
        forall|j: int| 0 <= j < r@.len() ==> le_value((#[trigger] r@[j])@) == sdot(a@, b@, j, a@.len() as int) % (group_order() as int),
{
    let n = b[0].len();
    let mut result: Vec<ScalarBytes> = Vec::new();
    let mut j: usize = 0;
    while j < n
        invariant
            j <= n,
            n == b@[0]@.len(),
            a@.len() == b@.len(),
            rows_at_least(b@, n as int),
            result@.len() == j,
            forall|x: int| 0 <= x < j ==> le_value((#[trigger] result@[x])@) == sdot(a@, b@, x, a@.len() as int) % (group_order() as int),
        decreases n - j,
    {
        let mut sum = zero();
        let mut i: usize = 0;
        while i < a.len()
            invariant
                i <= a@.len(),
                j < n,
                n == b@[0]@.len(),
                a@.len() == b@.len(),
                rows_at_least(b@, n as int),
                le_value(sum@) == sdot(a@, b@, j as int, i as int) % (group_order() as int),
            decreases a.len() - i,
        {
            assert(b@[i as int]@.len() >= n);
            let prod = scalar_mul(&a[i], &b[i][j]);
            let ghost old_sum = sum;
            sum = scalar_add(&sum, &prod);
            proof {
                let m = group_order() as int;
                let x = sdot(a@, b@, j as int, i as int);
                let y: int = (sv(a@[i as int]) * sv(b@[i as int]@[j as int])) as int;
                lemma_canonical_sv(old_sum);
                lemma_canonical_sv(prod);
                lemma_add_mod(x, y % m, m);
                lemma_add_mod(y, x, m);
                vstd::arithmetic::div_mod::lemma_add_mod_noop(x, y, m);
                vstd::arithmetic::div_mod::lemma_mod_twice(y, m);
            }
            i = i + 1;
        }
        result.push(sum);
        j = j + 1;
    }
    result
}

/// The 32-byte strings laid end to end.
pub open spec fn cat32(s: Seq<[u8; 32]>) -> Seq<u8>
    decreases s.len(),
{
    if s.len() == 0 {
        Seq::empty()
    } else {
        cat32(s.drop_last()) + s.last()@
    }
}

/// Every scalar is reduced.
pub open spec fn all_canonical(v: Seq<ScalarBytes>) -> bool {
    forall|i: int| 0 <= i < v.len() ==> canonical(#[trigger] v[i])
}

/// Every scalar of the matrix is reduced.
pub open spec fn matrix_canonical(m: Seq<Vec<ScalarBytes>>) -> bool {
    forall|i: int| 0 <= i < m.len() ==> all_canonical((#[trigger] m[i])@)
}

/// Every encoding decompresses.
pub open spec fn all_valid(v: Seq<PointBytes>) -> bool {
    forall|i: int| 0 <= i < v.len() ==> spec_point_valid((#[trigger] v[i])@)
}

/// Appends the 32 bytes.
fn push32(out: &mut Vec<u8>, b: &[u8; 32])
    ensures
        final(out)@ == old(out)@ + b@,
{
    let ghost start = out@;
    let mut k: usize = 0;
    while k < 32
        invariant
            k <= 32,
            out@ == start + b@.subrange(0, k as int),
        decreases 32 - k,
    {
        out.push(b[k]);
        proof {
            assert(out@ =~= start + b@.subrange(0, k + 1));
        }
        k = k + 1;
    }
    assert(b@.subrange(0, 32) =~= b@);
}

/// Appends the `n` big-endian bytes of `x`.
fn push_be(x: u64, n: usize, out: &mut Vec<u8>)
    ensures
        final(out)@ == old(out)@ + be_bytes(x as nat, n as nat),
    decreases n,
{
    if n > 0 {
        push_be(x / 256, n - 1, out);
        out.push((x % 256) as u8);
        proof {
            assert(final(out)@ =~= old(out)@ + be_bytes(x as nat, n as nat));
        }
    } else {
        assert(final(out)@ =~= old(out)@ + be_bytes(x as nat, n as nat));
    }
}

/// SHA-256 of the input, or nothing for an empty input.
pub open spec fn spec_gen_hash(input: Seq<u8>) -> Seq<u8> {
    if input.len() == 0 {
        Seq::empty()
    } else {
        spec_sha256(input)
    }
}

/// The SHA-256 digest of the input, or nothing for an empty input.
pub fn gen_hash(input: &Vec<u8>) -> (r: Vec<u8>)
    ensures
        r@ == spec_gen_hash(input@),
        input@.len() > 0 ==> r@.len() == 32,
{
    if input.len() == 0 {
        return Vec::new();
    }
    let h = sha256(input);
    crate::crypto::bytes_to_vec(&h)
}

/// The scalar of the SHA-256 digest of the input, reduced modulo `l`.
pub open spec fn hash_scalar(input: Seq<u8>) -> nat {
    le_value(spec_sha256(input)) % group_order()
}

/// The scalar of the digest of a nonempty input.
fn hash_to_scalar(input: &Vec<u8>) -> (r: ScalarBytes)
    requires
        input@.len() > 0,
    ensures
        le_value(r@) == hash_scalar(input@),
{
    let h = gen_hash(input);
    let d = match Digest::try_from(h.as_slice()) {
        Some(d) => d,
        None => {
            proof {
                assert(false);
            }
            Digest([0u8; 32])
        },
    };
    scalar_reduce(d.0)
}

/// The Fiat-Shamir weight of commitment `i`: the scalar of the digest of
/// all commitments followed by the byte `i mod 256`.
pub open spec fn fs_weight(s_hat: Seq<PointBytes>, i: int) -> nat {
    hash_scalar(cat32(s_hat) + seq![(i % 256) as u8])
}

/// The Fiat-Shamir weights of the commitments.
pub fn generate_random_number_by_fiat_shamir(s_hat: &Vec<PointBytes>) -> (gamma: Vec<ScalarBytes>)
    ensures
        gamma@.len() == s_hat@.len(),
        forall|i: int| 0 <= i < gamma@.len() ==> le_value((#[trigger] gamma@[i])@) == fs_weight(s_hat@, i),
{
    let mut bytes: Vec<u8> = Vec::new();
    let mut k: usize = 0;
    while k < s_hat.len()
        invariant
            k <= s_hat@.len(),
            bytes@ == cat32(s_hat@.subrange(0, k as int)),
        decreases s_hat.len() - k,
    {
        push32(&mut bytes, &s_hat[k]);
        proof {
            assert(s_hat@.subrange(0, k + 1).drop_last() =~= s_hat@.subrange(0, k as int));
        }
        k = k + 1;
    }
    assert(s_hat@.subrange(0, s_hat@.len() as int) =~= s_hat@);
    let mut gamma: Vec<ScalarBytes> = Vec::new();
    let mut i: usize = 0;
    while i < s_hat.len()
        invariant
            i <= s_hat@.len(),
            bytes@ == cat32(s_hat@),
            gamma@.len() == i,
            forall|x: int| 0 <= x < i ==> le_value((#[trigger] gamma@[x])@) == fs_weight(s_hat@, x),
        decreases s_hat.len() - i,
    {
        let mut input = crate::crypto::bytes_to_vec(bytes.as_slice());
        input.push((i % 256) as u8);
        assert(input@ =~= cat32(s_hat@) + seq![(i % 256) as u8]);
        gamma.push(hash_to_scalar(&input));
        i = i + 1;
    }
    gamma
}

/// Column `j` of the first `k` rows, each entry as its 32 bytes, laid end
/// to end.
pub open spec fn col_bytes(y: Seq<Vec<ScalarBytes>>, j: int, k: int) -> Seq<u8>
    decreases k,
{
    if k <= 0 {
        Seq::empty()
    } else {
        col_bytes(y, j, k - 1) + y[k - 1]@[j]@
    }
}

/// The challenge of party `i`: the scalar of the digest of the combined
/// commitment, column `i` of the evaluations and the combined evaluation
/// `i`.
pub open spec fn statement_challenge(sdh: PointBytes, vq: Seq<ScalarBytes>, y: Seq<Vec<ScalarBytes>>, i: int) -> nat {
    hash_scalar(sdh@ + col_bytes(y, i, y.len() as int) + vq[i]@)
}

/// The challenges of all parties, for at least one row and no more
/// combined evaluations than columns.
pub fn generate_statement_challenges(sdh: &PointBytes, v_quota: &Vec<ScalarBytes>, y: &Vec<Vec<ScalarBytes>>) -> (z: Vec<ScalarBytes>)
    requires
        y@.len() > 0,
        rows_at_least(y@, y@[0]@.len() as int),
        v_quota@.len() <= y@[0]@.len(),
    ensures
        z@.len() == v_quota@.len(),
        forall|i: int| 0 <= i < z@.len() ==> le_value((#[trigger] z@[i])@) == statement_challenge(*sdh, v_quota@, y@, i),
{
    let n = y[0].len();
    let mut z: Vec<ScalarBytes> = Vec::new();
    let mut i: usize = 0;
    while i < v_quota.len()
        invariant
            i <= v_quota@.len(),
            v_quota@.len() <= n,
            n == y@[0]@.len(),
            rows_at_least(y@, n as int),
            z@.len() == i,
            forall|x: int| 0 <= x < i ==> le_value((#[trigger] z@[x])@) == statement_challenge(*sdh, v_quota@, y@, x),
        decreases v_quota.len() - i,
    {
        let mut stmt: Vec<u8> = Vec::new();
        push32(&mut stmt, sdh);
        let mut r: usize = 0;
        while r < y.len()
            invariant
                r <= y@.len(),
                i < v_quota@.len(),
                v_quota@.len() <= n,
                n == y@[0]@.len(),
                rows_at_least(y@, n as int),
                stmt@ == sdh@ + col_bytes(y@, i as int, r as int),
            decreases y.len() - r,
        {
            assert(y@[r as int]@.len() >= n);
            push32(&mut stmt, &y[r][i]);
            proof {
                assert(stmt@ =~= sdh@ + col_bytes(y@, i as int, r + 1));
            }
            r = r + 1;
        }
        push32(&mut stmt, &v_quota[i]);
        z.push(hash_to_scalar(&stmt));
        i = i + 1;
    }
    z
}

/// The challenge a party recomputes from the combined commitment, its
/// evaluations and its combined evaluation.
pub fn generate_statement_challenge_for_verifier(sdh: &PointBytes, v_quota: &ScalarBytes, y: &Vec<ScalarBytes>) -> (z: ScalarBytes)
    ensures
        le_value(z@) == hash_scalar(sdh@ + cat32(y@) + v_quota@),
{
    let mut stmt: Vec<u8> = Vec::new();
    push32(&mut stmt, sdh);
    let mut k: usize = 0;
    while k < y.len()
        invariant
            k <= y@.len(),
            stmt@ == sdh@ + cat32(y@.subrange(0, k as int)),
        decreases y.len() - k,
    {
        push32(&mut stmt, &y[k]);
        proof {
            assert(y@.subrange(0, k + 1).drop_last() =~= y@.subrange(0, k as int));
            assert(stmt@ =~= sdh@ + cat32(y@.subrange(0, k + 1)));
        }
        k = k + 1;
    }
    assert(y@.subrange(0, y@.len() as int) =~= y@);
    push32(&mut stmt, v_quota);
    hash_to_scalar(&stmt)
}

/// The generators and the evaluations in pairs, `g[i]` then `y[i]`, for the
/// first `k` generators.
pub open spec fn pair_bytes(g: Seq<PointBytes>, y: Seq<ScalarBytes>, k: int) -> Seq<u8>
    decreases k,
{
    if k <= 0 {
        Seq::empty()
    } else {
        pair_bytes(g, y, k - 1) + g[k - 1]@ + y[k - 1]@
    }
}

/// The leaf of a folding round: the digest of the generators paired with
/// the evaluations, the half size `p` (8 bytes, big-endian), `h`, the
/// commitment, `L`, `R` and, for a round of odd size, the dropped entry.
pub open spec fn merkle_leaf(g: Seq<PointBytes>, p: nat, h: PointBytes, y: Seq<ScalarBytes>, a: PointBytes, l: PointBytes, r: PointBytes, tail: Seq<u8>) -> Seq<u8> {
    spec_sha256(pair_bytes(g, y, g.len() as int) + be_bytes(p, 8) + h@ + a@ + l@ + r@ + tail)
}

/// Hashes the statement of a folding round (see [`merkle_leaf`]).
fn merkle_leaf_bytes(g: &Vec<PointBytes>, p: usize, h: &PointBytes, y: &Vec<ScalarBytes>, a: &PointBytes, l: &PointBytes, r: &PointBytes, tail: Option<&ScalarBytes>) -> (out: Vec<u8>)
    requires
        y@.len() >= g@.len(),
        p <= u64::MAX,
    ensures
        out@ == merkle_leaf(g@, p as nat, *h, y@, *a, *l, *r, match tail {
            Some(t) => t@,
            None => Seq::empty(),
        }),
{
    let mut bytes: Vec<u8> = Vec::new();
    let mut k: usize = 0;
    while k < g.len()
        invariant
            k <= g@.len(),
            y@.len() >= g@.len(),
            bytes@ == pair_bytes(g@, y@, k as int),
        decreases g.len() - k,
    {
        push32(&mut bytes, &g[k]);
        push32(&mut bytes, &y[k]);
        proof {
            assert(bytes@ =~= pair_bytes(g@, y@, k + 1));
        }
        k = k + 1;
    }
    push_be(p as u64, 8, &mut bytes);
    push32(&mut bytes, h);
    push32(&mut bytes, a);
    push32(&mut bytes, l);
    push32(&mut bytes, r);
    match tail {
        Some(t) => push32(&mut bytes, t),
        None => {},
    }
    let ghost expected = pair_bytes(g@, y@, g@.len() as int) + be_bytes(p as nat, 8) + h@ + a@ + l@ + r@ + match tail {
        Some(t) => t@,
        None => Seq::empty(),
    };
    assert(bytes@ =~= expected);
    let d = sha256(&bytes);
    crate::crypto::bytes_to_vec(&d)
}

/// The leaf of a folding round of odd size (see [`merkle_leaf`]), on 64-bit
/// targets.
pub fn hash_merkle1(g: &Vec<PointBytes>, p: usize, h: &PointBytes, y: &Vec<ScalarBytes>, a_i: &PointBytes, l_i: &PointBytes, r_i: &PointBytes, a_til: &ScalarBytes) -> (out: Vec<u8>)
    requires
        y@.len() >= g@.len(),
        p <= u64::MAX,
    ensures
        out@ == merkle_leaf(g@, p as nat, *h, y@, *a_i, *l_i, *r_i, a_til@),
{
    merkle_leaf_bytes(g, p, h, y, a_i, l_i, r_i, Some(a_til))
}

/// The leaf of a folding round of even size (see [`merkle_leaf`]), on 64-bit
/// targets.
pub fn hash_merkle2(g: &Vec<PointBytes>, p: usize, h: &PointBytes, y: &Vec<ScalarBytes>, a_i: &PointBytes, l_i: &PointBytes, r_i: &PointBytes) -> (out: Vec<u8>)
    requires
        y@.len() >= g@.len(),
        p <= u64::MAX,
    ensures
        out@ == merkle_leaf(g@, p as nat, *h, y@, *a_i, *l_i, *r_i, Seq::empty()),
{
    merkle_leaf_bytes(g, p, h, y, a_i, l_i, r_i, None)
}

/// The reference string of the group variant: generators `g` and `h`.
pub struct CommonReferenceString {
    pub g: Vec<PointBytes>,
    pub h: PointBytes,
}

/// The sum of `x[i] * g[i]` over `i < k`, added in order to the identity.
pub open spec fn commit_fold(g: Seq<PointBytes>, x: Seq<ScalarBytes>, k: int) -> Seq<u8>
    decreases k,
{
    if k <= 0 {
        Seq::new(32, |i: int| 0u8)
    } else {
        spec_point_add(commit_fold(g, x, k - 1), spec_point_mul(g[k - 1]@, sv(x[k - 1])))
    }
}

/// Commits to `x` under the generators: the sum of `x[i] * g[i]`.  The
/// lengths must agree.
pub fn batch_commit_for_sigma_plus_d(crs: &CommonReferenceString, sigma_plus_d: &Vec<ScalarBytes>) -> (res: PointBytes)
    requires
        crs.g@.len() == sigma_plus_d@.len(),
        all_valid(crs.g@),
    ensures
        res@ == commit_fold(crs.g@, sigma_plus_d@, sigma_plus_d@.len() as int),
        spec_point_valid(res@),
{
    let mut res = point_identity();
    let mut i: usize = 0;
    while i < sigma_plus_d.len()
        invariant
            i <= sigma_plus_d@.len(),
            crs.g@.len() == sigma_plus_d@.len(),
            all_valid(crs.g@),
            res@ == commit_fold(crs.g@, sigma_plus_d@, i as int),
            spec_point_valid(res@),
        decreases sigma_plus_d.len() - i,
    {
        assert(spec_point_valid(crs.g@[i as int]@));
        let term = point_mul(&crs.g[i], &sigma_plus_d[i]);
        res = point_add(&res, &term);
        i = i + 1;
    }
    res
}

/// A random mask of `t + 1` scalars below `t + 1`, and its commitment under
/// the first `t + 1` generators.
pub fn generate_blind_mask(crs: &CommonReferenceString, t: usize) -> (r: (Vec<ScalarBytes>, PointBytes))
    requires
        crs.g@.len() >= t + 1,
        t < u64::MAX,
        t < usize::MAX,
        all_valid(crs.g@),
    ensures
        r.0@.len() == t + 1,
        forall|i: int| 0 <= i <= t ==> le_value((#[trigger] r.0@[i])@) <= t,
        r.1@ == commit_fold(crs.g@, r.0@, t + 1),
        spec_point_valid(r.1@),
{
    let mut d: Vec<ScalarBytes> = Vec::new();
    let mut k: usize = 0;
    while k <= t
        invariant
            k <= t + 1,
            t < u64::MAX,
            t < usize::MAX,
            d@.len() == k,
            forall|i: int| 0 <= i < k ==> le_value((#[trigger] d@[i])@) <= t,
        decreases t + 1 - k,
    {
        let v = crate::polynomial::random_below((t + 1) as u128);
        d.push(scalar_from_u64(v as u64));
        k = k + 1;
    }
    let mut d_hat = point_identity();
    let mut i: usize = 0;
    while i <= t
        invariant
            i <= t + 1,
            t < usize::MAX,
            d@.len() == t + 1,
            crs.g@.len() >= t + 1,
            all_valid(crs.g@),
            d_hat@ == commit_fold(crs.g@, d@, i as int),
            spec_point_valid(d_hat@),
        decreases t + 1 - i,
    {
        assert(spec_point_valid(crs.g@[i as int]@));
        let term = point_mul(&crs.g[i], &d[i]);
        d_hat = point_add(&d_hat, &term);
        i = i + 1;
    }
    (d, d_hat)
}

/// The evaluations of every row of `s`, and of the mask `d`, against `y`,
/// for sizes that match.
pub fn generate_eval_matrices(d: &Vec<ScalarBytes>, s: &Vec<Vec<ScalarBytes>>, y: &Vec<Vec<ScalarBytes>>) -> (r: (Vec<Vec<ScalarBytes>>, Vec<ScalarBytes>))
    requires
        s@.len() > 0,
        y@.len() == d@.len(),
        y@.len() > 0,
        forall|i: int| 0 <= i < s@.len() ==> (#[trigger] s@[i])@.len() == y@.len(),
        rows_at_least(y@, y@[0]@.len() as int),
    ensures
        r.0@.len() == s@.len(),
        forall|i: int| 0 <= i < s@.len() ==> (#[trigger] r.0@[i])@.len() == y@[0]@.len(),
        forall|i: int, j: int|
            0 <= i < s@.len() && 0 <= j < y@[0]@.len() ==> le_value((#[trigger] r.0@[i]@[j])@) == sdot(s@[i]@, y@, j, y@.len() as int) % (group_order() as int),
        r.1@.len() == y@[0]@.len(),
        forall|j: int| 0 <= j < r.1@.len() ==> le_value((#[trigger] r.1@[j])@) == sdot(d@, y@, j, d@.len() as int) % (group_order() as int),
{
    let mut v: Vec<Vec<ScalarBytes>> = Vec::new();
    let mut i: usize = 0;
    while i < s.len()
        invariant
            i <= s@.len(),
            y@.len() > 0,
            forall|x: int| 0 <= x < s@.len() ==> (#[trigger] s@[x])@.len() == y@.len(),
            rows_at_least(y@, y@[0]@.len() as int),
            v@.len() == i,
            forall|x: int| 0 <= x < i ==> (#[trigger] v@[x])@.len() == y@[0]@.len(),
            forall|x: int, j: int|
                0 <= x < i && 0 <= j < y@[0]@.len() ==> le_value((#[trigger] v@[x]@[j])@) == sdot(s@[x]@, y@, j, y@.len() as int) % (group_order() as int),
        decreases s.len() - i,
    {
        let row = inner_product(&s[i], y);
        v.push(row);
        i = i + 1;
    }
    let v_d = inner_product(d, y);
    (v, v_d)
}

/// The Fiat-Shamir weights of the commitments, and the rows of `s`
/// combined with them: entry `i` is the sum of `gamma[j] * s[j][i]` modulo
/// `l`, for sizes that match.
pub fn generate_sigma(s: &Vec<Vec<ScalarBytes>>, s_hat: &Vec<PointBytes>) -> (r: (Vec<ScalarBytes>, Vec<ScalarBytes>))
    requires
        s@.len() > 0,
        s@.len() == s_hat@.len(),
        rows_at_least(s@, s@[0]@.len() as int),
    ensures
        r.0@.len() == s_hat@.len(),
        forall|i: int| 0 <= i < r.0@.len() ==> le_value((#[trigger] r.0@[i])@) == fs_weight(s_hat@, i),
        r.1@.len() == s@[0]@.len(),
        forall|i: int| 0 <= i < r.1@.len() ==> le_value((#[trigger] r.1@[i])@) == sdot(r.0@, s@, i, s@.len() as int) % (group_order() as int),
{
    let t_plus_1 = s[0].len();
    let gamma = generate_random_number_by_fiat_shamir(s_hat);
    let mut sigma: Vec<ScalarBytes> = Vec::new();
    let mut i: usize = 0;
    while i < t_plus_1
        invariant
            i <= t_plus_1,
            t_plus_1 == s@[0]@.len(),
            gamma@.len() == s@.len(),
            rows_at_least(s@, t_plus_1 as int),
            sigma@.len() == i,
            forall|x: int| 0 <= x < i ==> le_value((#[trigger] sigma@[x])@) == sdot(gamma@, s@, x, s@.len() as int) % (group_order() as int),
        decreases t_plus_1 - i,
    {
        let mut acc = zero();
        let mut j: usize = 0;
        while j < s.len()
            invariant
                j <= s@.len(),
                i < t_plus_1,
                t_plus_1 == s@[0]@.len(),
                gamma@.len() == s@.len(),
                rows_at_least(s@, t_plus_1 as int),
                le_value(acc@) == sdot(gamma@, s@, i as int, j as int) % (group_order() as int),
            decreases s.len() - j,
        {
            assert(s@[j as int]@.len() >= t_plus_1);
            let prod = scalar_mul(&gamma[j], &s[j][i]);
            let ghost before = acc;
            acc = scalar_add(&acc, &prod);
            proof {
                let m = group_order() as int;
                let x = sdot(gamma@, s@, i as int, j as int);
                let y: int = (sv(gamma@[j as int]) * sv(s@[j as int]@[i as int])) as int;
                lemma_canonical_sv(before);
                lemma_canonical_sv(prod);
                vstd::arithmetic::div_mod::lemma_add_mod_noop(x, y, m);
                vstd::arithmetic::div_mod::lemma_mod_twice(y, m);
                vstd::arithmetic::div_mod::lemma_mod_twice(x, m);
            }
            j = j + 1;
        }
        sigma.push(acc);
        i = i + 1;
    }
    (gamma, sigma)
}

/// The sum over `i < k` of `a[i] * b[i][j]`, counting only rows long enough
/// to have an entry `j`.
pub open spec fn sdot_masked(a: Seq<ScalarBytes>, b: Seq<Vec<ScalarBytes>>, j: int, k: int) -> int
    decreases k,
{
    if k <= 0 {
        0
    } else {
        sdot_masked(a, b, j, k - 1) + if j < b[k - 1]@.len() {
            (sv(a[k - 1]) * sv(b[k - 1]@[j])) as int
        } else {
            0
        }
    }
}

/// The evaluations combined with the Fiat-Shamir weights, plus the mask's
/// evaluations: entry `j` is `sum_i gamma[i] * v[i][j] + v_d[j]` modulo
/// `l`, for rows no longer than `v_d` and sizes that match.
pub fn generate_v_plus_vd_eval(gamma: &Vec<ScalarBytes>, v_d: &Vec<ScalarBytes>, v: &Vec<Vec<ScalarBytes>>) -> (v_quota: Vec<ScalarBytes>)
    requires
        v@.len() == gamma@.len(),
        v@.len() > 0,
        v@[0]@.len() == v_d@.len(),
        forall|i: int| 0 <= i < v@.len() ==> (#[trigger] v@[i])@.len() <= v_d@.len(),
    ensures
        v_quota@.len() == v_d@.len(),
        forall|j: int| 0 <= j < v_quota@.len() ==> le_value((#[trigger] v_quota@[j])@) == (sdot_masked(gamma@, v@, j, v@.len() as int) + sv(v_d@[j])) % (group_order() as int),
{
    let n = v_d.len();
    let mut v_quota: Vec<ScalarBytes> = Vec::new();
    let mut k: usize = 0;
    while k < n
        invariant
            k <= n,
            n == v_d@.len(),
            v_quota@.len() == k,
            forall|x: int| 0 <= x < k ==> (#[trigger] v_quota@[x])@ == zero_scalar(),
        decreases n - k,
    {
        v_quota.push(zero());
        k = k + 1;
    }
    proof {
        assert forall|x: int| 0 <= x < n implies le_value((#[trigger] v_quota@[x])@) == sdot_masked(gamma@, v@, x, 0) % (group_order() as int) by {
            lemma_le_value_zero(v_quota@[x]@);
        }
    }
    let mut i: usize = 0;
    while i < v.len()
        invariant
            i <= v@.len(),
            n == v_d@.len(),
            v@.len() == gamma@.len(),
            forall|x: int| 0 <= x < v@.len() ==> (#[trigger] v@[x])@.len() <= n,
            v_quota@.len() == n,
            forall|x: int| 0 <= x < n ==> le_value((#[trigger] v_quota@[x])@) == sdot_masked(gamma@, v@, x, i as int) % (group_order() as int),
        decreases v.len() - i,
    {
        let ghost before = v_quota@;
        let row_len = v[i].len();
        let mut j: usize = 0;
        while j < row_len
            invariant
                j <= row_len,
                row_len == v@[i as int]@.len(),
                i < v@.len(),
                n == v_d@.len(),
                v@.len() == gamma@.len(),
                forall|x: int| 0 <= x < v@.len() ==> (#[trigger] v@[x])@.len() <= n,
                v_quota@.len() == n,
                forall|x: int| 0 <= x < j ==> le_value((#[trigger] v_quota@[x])@) == sdot_masked(gamma@, v@, x, i + 1) % (group_order() as int),
                forall|x: int| j <= x < n ==> (#[trigger] v_quota@[x]) == before[x],
                forall|x: int| 0 <= x < n ==> le_value((#[trigger] before[x])@) == sdot_masked(gamma@, v@, x, i as int) % (group_order() as int),
            decreases row_len - j,
        {
            let prod = scalar_mul(&gamma[i], &v[i][j]);
            let cur = v_quota[j];
            let sum = scalar_add(&cur, &prod);
            v_quota.set(j, sum);
            proof {
                let m = group_order() as int;
                let x = sdot_masked(gamma@, v@, j as int, i as int);
                let y: int = (sv(gamma@[i as int]) * sv(v@[i as int]@[j as int])) as int;
                lemma_canonical_sv(cur);
                lemma_canonical_sv(prod);
                vstd::arithmetic::div_mod::lemma_add_mod_noop(x, y, m);
                vstd::arithmetic::div_mod::lemma_mod_twice(y, m);
                vstd::arithmetic::div_mod::lemma_mod_twice(x, m);
            }
            j = j + 1;
        }
        proof {
            assert forall|x: int| 0 <= x < n implies le_value((#[trigger] v_quota@[x])@) == sdot_masked(gamma@, v@, x, i + 1) % (group_order() as int) by {
                if x >= row_len {
                    assert(v_quota@[x] == before[x]);
                }
            }
        }
        i = i + 1;
    }
    let mut j: usize = 0;
    while j < n
        invariant
            j <= n,
            n == v_d@.len(),
            v_quota@.len() == n,
            forall|x: int| 0 <= x < j ==> le_value((#[trigger] v_quota@[x])@) == (sdot_masked(gamma@, v@, x, v@.len() as int) + sv(v_d@[x])) % (group_order() as int),
            forall|x: int| j <= x < n ==> le_value((#[trigger] v_quota@[x])@) == sdot_masked(gamma@, v@, x, v@.len() as int) % (group_order() as int),
        decreases n - j,
    {
        let cur = v_quota[j];
        let sum = scalar_add(&cur, &v_d[j]);
        v_quota.set(j, sum);
        proof {
            let m = group_order() as int;
            let x = sdot_masked(gamma@, v@, j as int, v@.len() as int);
            lemma_canonical_sv(cur);
            vstd::arithmetic::div_mod::lemma_add_mod_noop(x, sv(v_d@[j as int]) as int, m);
            vstd::arithmetic::div_mod::lemma_mod_twice(x, m);
            vstd::arithmetic::div_mod::lemma_small_mod(sv(v_d@[j as int]), group_order());
        }
        j = j + 1;
    }
    v_quota
}

// ---- the folding inner-product argument, stated over values ----

/// A proof unit as values: `a`, `a~`, `L`, `R`, the challenge root and the
/// Merkle branch.
pub type UnitView = (nat, nat, Seq<u8>, Seq<u8>, Seq<u8>, usize, Seq<u8>);

/// The identity element's encoding.
pub open spec fn identity_view() -> Seq<u8> {
    Seq::new(32, |i: int| 0u8)
}

/// The encoding of a reduced scalar value.
pub open spec fn sc(v: nat) -> Seq<u8> {
    le_bytes(v, 32)
}

/// The sum of `x[i] * g[i]` over `i < k`, added in order to the identity.
pub open spec fn pfold(g: Seq<Seq<u8>>, x: Seq<nat>, k: int) -> Seq<u8>
    decreases k,
{
    if k <= 0 {
        identity_view()
    } else {
        spec_point_add(pfold(g, x, k - 1), spec_point_mul(g[k - 1], x[k - 1]))
    }
}

/// The sum over `i < k` of `a[i] * b[i][j]`, as integers.
pub open spec fn dotv(a: Seq<nat>, b: Seq<Seq<nat>>, j: int, k: int) -> int
    decreases k,
{
    if k <= 0 {
        0
    } else {
        dotv(a, b, j, k - 1) + a[k - 1] * b[k - 1][j]
    }
}

/// The row vector `a` times `b`, modulo `l`, over `m` columns.
pub open spec fn innerv(a: Seq<nat>, b: Seq<Seq<nat>>, m: nat) -> Seq<nat> {
    Seq::new(m, |j: int| (dotv(a, b, j, a.len() as int) % (group_order() as int)) as nat)
}

/// Column `j` of the rows.
pub open spec fn colv(y: Seq<Seq<nat>>, j: int) -> Seq<nat> {
    Seq::new(y.len(), |i: int| y[i][j])
}

/// The generators paired with the reduced values, for the first `k`.
pub open spec fn pairv(g: Seq<Seq<u8>>, y: Seq<nat>, k: int) -> Seq<u8>
    decreases k,
{
    if k <= 0 {
        Seq::empty()
    } else {
        pairv(g, y, k - 1) + g[k - 1] + sc(y[k - 1])
    }
}

/// The leaf of a folding round, over values (see [`merkle_leaf`]).
pub open spec fn leafv(g: Seq<Seq<u8>>, p: nat, h: Seq<u8>, y: Seq<nat>, a: Seq<u8>, l: Seq<u8>, r: Seq<u8>, tail: Seq<u8>) -> Seq<u8> {
    spec_sha256(pairv(g, y, g.len() as int) + be_bytes(p, 8) + h + a + l + r + tail)
}

/// `(x * y) mod l`.
pub open spec fn smul(x: nat, y: nat) -> nat {
    (x * y) % group_order()
}

/// `(x + y) mod l`.
pub open spec fn sadd(x: nat, y: nat) -> nat {
    (x + y) % group_order()
}

/// One folding round for `p >= 2`: the dropped entry `a~` (for odd `p`,
/// else zero) and the state after it.
pub open spec fn odd_tilde(a: Seq<nat>, p: nat) -> nat {
    if p % 2 == 1 {
        ((group_order() - a[p - 1]) % (group_order() as int)) as nat
    } else {
        0
    }
}

/// The combined commitments after dropping the last entry of an odd round.
pub open spec fn odd_sdh(g: Seq<Seq<u8>>, h: Seq<Seq<u8>>, sdh: Seq<Seq<u8>>, y: Seq<Seq<nat>>, a: Seq<nat>, p: nat) -> Seq<Seq<u8>> {
    if p % 2 == 1 {
        let at = odd_tilde(a, p);
        Seq::new(sdh.len(), |i: int| spec_point_add(
            sdh[i],
            spec_point_add(spec_point_mul(g[p - 1], at), spec_point_mul(h[i], smul(at, y[p - 1][i]))),
        ))
    } else {
        sdh
    }
}

/// The even size after dropping.
pub open spec fn even_size(p: nat) -> nat {
    if p % 2 == 1 {
        (p - 1) as nat
    } else {
        p
    }
}

/// `L` of party `i`: `sum g_R[k] * a_L[k] + c_L[i] * h[i]`.
pub open spec fn l_point(g: Seq<Seq<u8>>, h: Seq<Seq<u8>>, y: Seq<Seq<nat>>, a: Seq<nat>, half: nat, i: int) -> Seq<u8> {
    let al = a.take(half as int);
    let yr = y.subrange(half as int, (2 * half) as int);
    spec_point_add(
        pfold(g.subrange(half as int, (2 * half) as int), al, half as int),
        spec_point_mul(h[i], innerv(al, yr, h.len())[i]),
    )
}

/// `R` of party `i`: `sum g_L[k] * a_R[k] + c_R[i] * h[i]`.
pub open spec fn r_point(g: Seq<Seq<u8>>, h: Seq<Seq<u8>>, y: Seq<Seq<nat>>, a: Seq<nat>, half: nat, i: int) -> Seq<u8> {
    let ar = a.subrange(half as int, (2 * half) as int);
    let yl = y.take(half as int);
    spec_point_add(
        pfold(g.take(half as int), ar, half as int),
        spec_point_mul(h[i], innerv(ar, yl, h.len())[i]),
    )
}

/// The leaves of a round (before the tree hashes them once more).
pub open spec fn round_leaves(g: Seq<Seq<u8>>, h: Seq<Seq<u8>>, sdh: Seq<Seq<u8>>, y: Seq<Seq<nat>>, a: Seq<nat>, p: nat) -> Seq<Seq<u8>> {
    let at = odd_tilde(a, p);
    let q = even_size(p);
    let half = q / 2;
    let g1 = g.take(q as int);
    let y1 = y.take(q as int);
    let a1 = a.take(q as int);
    let s1 = odd_sdh(g, h, sdh, y, a, p);
    Seq::new(h.len(), |i: int| leafv(
        g1,
        half,
        h[i],
        colv(y1, i),
        s1[i],
        l_point(g1, h, y1, a1, half, i),
        r_point(g1, h, y1, a1, half, i),
        if p % 2 == 1 { sc(at) } else { Seq::empty() },
    ))
}

/// The challenge root of a round.
pub open spec fn round_root(g: Seq<Seq<u8>>, h: Seq<Seq<u8>>, sdh: Seq<Seq<u8>>, y: Seq<Seq<nat>>, a: Seq<nat>, p: nat) -> Seq<u8> {
    spec_merkle_root(round_leaves(g, h, sdh, y, a, p).map_values(|x: Seq<u8>| spec_sha256(x)))
}

/// The proof units of a round of size `p >= 2`.
pub open spec fn round_units(g: Seq<Seq<u8>>, h: Seq<Seq<u8>>, sdh: Seq<Seq<u8>>, y: Seq<Seq<nat>>, a: Seq<nat>, p: nat) -> Seq<UnitView> {
    let q = even_size(p);
    let half = q / 2;
    let g1 = g.take(q as int);
    let y1 = y.take(q as int);
    let a1 = a.take(q as int);
    let hashes = round_leaves(g, h, sdh, y, a, p).map_values(|x: Seq<u8>| spec_sha256(x));
    Seq::new(sdh.len(), |i: int| (
        0nat,
        odd_tilde(a, p),
        l_point(g1, h, y1, a1, half, i),
        r_point(g1, h, y1, a1, half, i),
        spec_merkle_root(hashes),
        i as usize,
        crate::merkletree::spec_merkle_proof(hashes, i),
    ))
}

/// The state after a round of size `p >= 2`: generators, combined
/// commitments, evaluations, size and vector.
pub open spec fn round_next(g: Seq<Seq<u8>>, h: Seq<Seq<u8>>, sdh: Seq<Seq<u8>>, y: Seq<Seq<nat>>, a: Seq<nat>, p: nat) -> (Seq<Seq<u8>>, Seq<Seq<u8>>, Seq<Seq<nat>>, nat, Seq<nat>) {
    let q = even_size(p);
    let half = q / 2;
    let g1 = g.take(q as int);
    let y1 = y.take(q as int);
    let a1 = a.take(q as int);
    let s1 = odd_sdh(g, h, sdh, y, a, p);
    let z = le_value(round_root(g, h, sdh, y, a, p)) % group_order();
    let zi = inv(z);
    (
        Seq::new(half, |k: int| spec_point_add(spec_point_mul(g1[k], zi), spec_point_mul(g1[half + k], z))),
        Seq::new(sdh.len(), |i: int| spec_point_add(
            spec_point_add(spec_point_mul(l_point(g1, h, y1, a1, half, i), smul(z, z)), s1[i]),
            spec_point_mul(r_point(g1, h, y1, a1, half, i), smul(zi, zi)),
        )),
        Seq::new(half, |k: int| Seq::new(y1[0].len(), |j: int| sadd(smul(zi, y1[k][j]), smul(z, y1[half + k][j])))),
        half,
        Seq::new(half, |k: int| sadd(smul(z, a1[k]), smul(zi, a1[half + k]))),
    )
}

/// The units of the last round (size 1): the remaining entry for every
/// party.
pub open spec fn last_units(a: Seq<nat>, parties: nat) -> Seq<UnitView> {
    Seq::new(parties, |i: int| (a[0], 0nat, identity_view(), identity_view(), Seq::new(32, |k: int| 0u8), 0usize, Seq::empty()))
}

/// The units of every round, from size `p` down to 1.
pub open spec fn rounds(g: Seq<Seq<u8>>, h: Seq<Seq<u8>>, sdh: Seq<Seq<u8>>, y: Seq<Seq<nat>>, a: Seq<nat>, p: nat) -> Seq<Seq<UnitView>>
    decreases p,
{
    if p <= 1 {
        seq![last_units(a, sdh.len())]
    } else {
        let n = round_next(g, h, sdh, y, a, p);
        seq![round_units(g, h, sdh, y, a, p)] + rounds(n.0, h, n.1, n.2, n.4, n.3)
    }
}

// ---- proof units and the exec side of the argument ----

/// One round of the argument as sent to one party.
pub struct IProofUnit {
    pub a_only: ScalarBytes,
    pub l: PointBytes,
    pub r: PointBytes,
    pub z: Digest,
    pub b_i: (usize, Vec<u8>),
    pub a_tilde: ScalarBytes,
}

impl IProofUnit {
    /// The unit as values.
    pub open spec fn view_unit(&self) -> UnitView {
        (le_value(self.a_only@), le_value(self.a_tilde@), self.l@, self.r@, self.z.0@, self.b_i.0, self.b_i.1@)
    }

    /// A copy of the unit.
    pub fn duplicate(&self) -> (r: IProofUnit)
        ensures
            r.view_unit() == self.view_unit(),
            r.a_only@ == self.a_only@,
            r.a_tilde@ == self.a_tilde@,
    {
        IProofUnit {
            a_only: self.a_only,
            l: self.l,
            r: self.r,
            z: Digest(self.z.0),
            b_i: (self.b_i.0, crate::crypto::bytes_to_vec(self.b_i.1.as_slice())),
            a_tilde: self.a_tilde,
        }
    }
}

/// What one party receives: its units of every round, the mask's
/// commitment and the mask's evaluation for it.
pub struct PhiElement {
    pub proofs: Vec<IProofUnit>,
    pub d_hat: PointBytes,
    pub v_d_i: ScalarBytes,
}

/// The generators of a round: `g` for the vector, `h` per party.
pub struct GroupParameters {
    pub g_vec: Vec<PointBytes>,
    pub h_vec: Vec<PointBytes>,
}

/// The encodings as byte sequences.
pub open spec fn pts(v: Seq<PointBytes>) -> Seq<Seq<u8>> {
    v.map_values(|x: PointBytes| x@)
}

/// The values of the scalars.
pub open spec fn vals(v: Seq<ScalarBytes>) -> Seq<nat> {
    v.map_values(|x: ScalarBytes| le_value(x@))
}

/// The values of the rows.
pub open spec fn matv(y: Seq<Vec<ScalarBytes>>) -> Seq<Seq<nat>> {
    y.map_values(|r: Vec<ScalarBytes>| vals(r@))
}

/// The units of every row, as values.
pub open spec fn unit_rows(phi: Seq<Vec<IProofUnit>>) -> Seq<Seq<UnitView>> {
    phi.map_values(|r: Vec<IProofUnit>| r@.map_values(|u: IProofUnit| u.view_unit()))
}

proof fn lemma_le_bytes_value(s: Seq<u8>)
    ensures
        le_bytes(le_value(s), s.len()) == s,
    decreases s.len(),
{
    if s.len() > 0 {
        let rest = s.drop_first();
        lemma_le_bytes_value(rest);
        let x = le_value(s);
        assert(x == s[0] as nat + 256 * le_value(rest));
        vstd::arithmetic::div_mod::lemma_fundamental_div_mod_converse(
            x as int,
            256,
            le_value(rest) as int,
            s[0] as int,
        );
        assert(le_bytes(x, s.len()) =~= seq![(x % 256) as u8] + le_bytes(x / 256, (s.len() - 1) as nat));
        assert(le_bytes(x, s.len()) =~= s);
    }
}

proof fn lemma_pair_bytes(g: Seq<PointBytes>, y: Seq<ScalarBytes>, k: int)
    requires
        0 <= k <= g.len(),
        k <= y.len(),
    ensures
        pair_bytes(g, y, k) == pairv(pts(g), vals(y), k),
    decreases k,
{
    if k > 0 {
        lemma_pair_bytes(g, y, k - 1);
        lemma_le_bytes_value(y[k - 1]@);
    }
}

proof fn lemma_sdot_dotv(a: Seq<ScalarBytes>, b: Seq<Vec<ScalarBytes>>, j: int, k: int)
    requires
        0 <= k <= a.len(),
        k <= b.len(),
        0 <= j,
        all_canonical(a),
        matrix_canonical(b),
        forall|i: int| 0 <= i < k ==> j < (#[trigger] b[i])@.len(),
    ensures
        sdot(a, b, j, k) == dotv(vals(a), matv(b), j, k),
    decreases k,
{
    if k > 0 {
        lemma_sdot_dotv(a, b, j, k - 1);
        assert(j < b[k - 1]@.len());
        assert(canonical(a[k - 1]));
        assert(all_canonical(b[k - 1]@));
        assert(canonical(b[k - 1]@[j]));
        lemma_canonical_sv(a[k - 1]);
        lemma_canonical_sv(b[k - 1]@[j]);
    }
}

/// Entries `lo..hi` of the vector.
pub(crate) fn copy_range(v: &Vec<[u8; 32]>, lo: usize, hi: usize) -> (r: Vec<[u8; 32]>)
    requires
        lo <= hi <= v@.len(),
    ensures
        r@ == v@.subrange(lo as int, hi as int),
{
    let mut r: Vec<[u8; 32]> = Vec::new();
    let mut k: usize = lo;
    while k < hi
        invariant
            lo <= k <= hi <= v@.len(),
            r@ == v@.subrange(lo as int, k as int),
        decreases hi - k,
    {
        r.push(v[k]);
        proof {
            assert(r@ =~= v@.subrange(lo as int, k + 1));
        }
        k = k + 1;
    }
    r
}

/// Rows `lo..hi` of the matrix.
fn rows_range(y: &Vec<Vec<ScalarBytes>>, lo: usize, hi: usize) -> (r: Vec<Vec<ScalarBytes>>)
    requires
        lo <= hi <= y@.len(),
    ensures
        r@.len() == hi - lo,
        forall|k: int| 0 <= k < hi - lo ==> (#[trigger] r@[k])@ == y@[lo + k]@,
{
    let mut r: Vec<Vec<ScalarBytes>> = Vec::new();
    let mut k: usize = lo;
    while k < hi
        invariant
            lo <= k <= hi <= y@.len(),
            r@.len() == k - lo,
            forall|x: int| 0 <= x < k - lo ==> (#[trigger] r@[x])@ == y@[lo + x]@,
        decreases hi - k,
    {
        let row = copy_range(&y[k], 0, y[k].len());
        proof {
            assert(row@ =~= y@[k as int]@);
        }
        r.push(row);
        k = k + 1;
    }
    r
}

/// Column `j` of the first `rows` rows.
fn column(y: &Vec<Vec<ScalarBytes>>, rows: usize, j: usize) -> (c: Vec<ScalarBytes>)
    requires
        rows <= y@.len(),
        forall|k: int| 0 <= k < rows ==> j < (#[trigger] y@[k])@.len(),
    ensures
        c@.len() == rows,
        forall|k: int| 0 <= k < rows ==> (#[trigger] c@[k]) == y@[k]@[j as int],
{
    let mut c: Vec<ScalarBytes> = Vec::new();
    let mut k: usize = 0;
    while k < rows
        invariant
            k <= rows <= y@.len(),
            forall|x: int| 0 <= x < rows ==> j < (#[trigger] y@[x])@.len(),
            c@.len() == k,
            forall|x: int| 0 <= x < k ==> (#[trigger] c@[x]) == y@[x]@[j as int],
        decreases rows - k,
    {
        assert(j < y@[k as int]@.len());
        c.push(y[k][j]);
        k = k + 1;
    }
    c
}

/// Drops the last entry of a round of odd size `p`: its negation `a~`,
/// and every combined commitment moved by `a~ * g[p-1] + (a~ * y[p-1][i]) * h[i]`.
fn fold_odd(g: &Vec<PointBytes>, h: &Vec<PointBytes>, sdh: &mut Vec<PointBytes>, y: &Vec<Vec<ScalarBytes>>, a: &Vec<ScalarBytes>, p: usize) -> (at: ScalarBytes)
    requires
        p % 2 == 1,
        g@.len() == p,
        a@.len() == p,
        y@.len() == p,
        h@.len() == old(sdh)@.len(),
        y@[p - 1]@.len() == h@.len(),
        all_valid(g@),
        all_valid(h@),
        all_valid(old(sdh)@),
        all_canonical(a@),
        all_canonical(y@[p - 1]@),
    ensures
        le_value(at@) == odd_tilde(vals(a@), p as nat),
        final(sdh)@.len() == old(sdh)@.len(),
        pts(final(sdh)@) == odd_sdh(pts(g@), pts(h@), pts(old(sdh)@), matv(y@), vals(a@), p as nat),
        all_valid(final(sdh)@),
{
    let ghost av = vals(a@);
    let ghost s0 = old(sdh)@;
    proof {
        lemma_canonical_sv(a@[p - 1]);
    }
    let at = scalar_neg(&a[p - 1]);
    let ghost atv = odd_tilde(av, p as nat);
    assert(le_value(at@) == atv);
    proof {
        lemma_canonical_sv(at);
    }
    assert(spec_point_valid(g@[p - 1]@));
    let temp1 = point_mul(&g[p - 1], &at);
    let n = sdh.len();
    let mut idx: usize = 0;
    while idx < n
        invariant
            idx <= n,
            n == sdh@.len(),
            n == s0.len(),
            n == h@.len(),
            p % 2 == 1,
            y@.len() == p,
            y@[p - 1]@.len() == n,
            all_canonical(y@[p - 1]@),
            all_valid(h@),
            all_valid(sdh@),
            sv(at) == atv,
            spec_point_valid(temp1@),
            temp1@ == spec_point_mul(pts(g@)[p - 1], atv),
            forall|x: int| idx <= x < n ==> (#[trigger] sdh@[x]) == s0[x],
            forall|x: int| 0 <= x < idx ==> (#[trigger] sdh@[x])@ == spec_point_add(
                s0[x]@,
                spec_point_add(temp1@, spec_point_mul(h@[x]@, smul(atv, le_value(y@[p - 1]@[x]@)))),
            ),
        decreases n - idx,
    {
        assert(canonical(y@[p - 1]@[idx as int]));
        proof {
            lemma_canonical_sv(y@[p - 1]@[idx as int]);
        }
        let temp2 = scalar_mul(&at, &y[p - 1][idx]);
        proof {
            lemma_canonical_sv(temp2);
        }
        assert(spec_point_valid(h@[idx as int]@));
        let temp3 = point_mul(&h[idx], &temp2);
        let temp4 = point_add(&temp1, &temp3);
        let cur = sdh[idx];
        assert(spec_point_valid(sdh@[idx as int]@));
        let nv = point_add(&cur, &temp4);
        sdh.set(idx, nv);
        idx = idx + 1;
    }
    proof {
        let target = odd_sdh(pts(g@), pts(h@), pts(s0), matv(y@), vals(a@), p as nat);
        assert(pts(sdh@) =~= target);
    }
    at
}

/// `L` and `R` of every party for a round of even size `2 * half`.
fn cross_points(g: &Vec<PointBytes>, h: &Vec<PointBytes>, y: &Vec<Vec<ScalarBytes>>, a: &Vec<ScalarBytes>, half: usize) -> (lr: (Vec<PointBytes>, Vec<PointBytes>))
    requires
        half >= 1,
        g@.len() == 2 * half,
        a@.len() == 2 * half,
        y@.len() == 2 * half,
        h@.len() >= 1,
        forall|k: int| 0 <= k < 2 * half ==> (#[trigger] y@[k])@.len() == h@.len(),
        all_valid(g@),
        all_valid(h@),
        all_canonical(a@),
        matrix_canonical(y@),
    ensures
        lr.0@.len() == h@.len(),
        lr.1@.len() == h@.len(),
        forall|i: int| 0 <= i < h@.len() ==> (#[trigger] lr.0@[i])@ == l_point(pts(g@), pts(h@), matv(y@), vals(a@), half as nat, i),
        forall|i: int| 0 <= i < h@.len() ==> (#[trigger] lr.1@[i])@ == r_point(pts(g@), pts(h@), matv(y@), vals(a@), half as nat, i),
        all_valid(lr.0@),
        all_valid(lr.1@),
{
    let m = h.len();
    let a_l = copy_range(a, 0, half);
    let q = g.len();
    let a_r = copy_range(a, half, q);
    let g_l = copy_range(g, 0, half);
    let g_r = copy_range(g, half, q);
    let y_l = rows_range(y, 0, half);
    let y_r = rows_range(y, half, q);
    let ghost gv = pts(g@);
    let ghost yv = matv(y@);
    let ghost av = vals(a@);
    proof {
        assert(pts(g_l@) =~= gv.take(half as int));
        assert(pts(g_r@) =~= gv.subrange(half as int, (2 * half) as int));
        assert(vals(a_l@) =~= av.take(half as int));
        assert(vals(a_r@) =~= av.subrange(half as int, (2 * half) as int));
        assert(matv(y_l@) =~= yv.take(half as int));
        assert(matv(y_r@) =~= yv.subrange(half as int, (2 * half) as int));
        assert(all_canonical(a_l@));
        assert(all_canonical(a_r@));
        assert forall|k: int| 0 <= k < half implies (#[trigger] y_l@[k])@.len() == m && all_canonical(y_l@[k]@) by {
            assert(y_l@[k]@ == y@[k]@);
        }
        assert forall|k: int| 0 <= k < half implies (#[trigger] y_r@[k])@.len() == m && all_canonical(y_r@[k]@) by {
            assert(y_r@[k]@ == y@[half + k]@);
        }
    }
    let c_l = inner_product(&a_l, &y_r);
    let c_r = inner_product(&a_r, &y_l);
    assert(all_canonical(c_l@));
    assert(all_canonical(c_r@));
    let mut l_temp = point_identity();
    let mut r_temp = point_identity();
    let mut idx: usize = 0;
    while idx < half
        invariant
            idx <= half,
            g_l@.len() == half,
            g_r@.len() == half,
            a_l@.len() == half,
            a_r@.len() == half,
            all_valid(g_l@),
            all_valid(g_r@),
            all_canonical(a_l@),
            all_canonical(a_r@),
            spec_point_valid(l_temp@),
            spec_point_valid(r_temp@),
            l_temp@ == pfold(pts(g_r@), vals(a_l@), idx as int),
            r_temp@ == pfold(pts(g_l@), vals(a_r@), idx as int),
        decreases half - idx,
    {
        proof {
            lemma_canonical_sv(a_l@[idx as int]);
            lemma_canonical_sv(a_r@[idx as int]);
        }
        assert(spec_point_valid(g_r@[idx as int]@));
        assert(spec_point_valid(g_l@[idx as int]@));
        let tl = point_mul(&g_r[idx], &a_l[idx]);
        l_temp = point_add(&l_temp, &tl);
        let tr = point_mul(&g_l[idx], &a_r[idx]);
        r_temp = point_add(&r_temp, &tr);
        idx = idx + 1;
    }
    let mut l: Vec<PointBytes> = Vec::new();
    let mut r: Vec<PointBytes> = Vec::new();
    let mut i: usize = 0;
    while i < m
        invariant
            i <= m,
            m == h@.len(),
            c_l@.len() == m,
            c_r@.len() == m,
            all_canonical(c_l@),
            all_canonical(c_r@),
            all_valid(h@),
            spec_point_valid(l_temp@),
            spec_point_valid(r_temp@),
            l@.len() == i,
            r@.len() == i,
            all_valid(l@),
            all_valid(r@),
            forall|x: int| 0 <= x < i ==> (#[trigger] l@[x])@ == spec_point_add(l_temp@, spec_point_mul(h@[x]@, le_value(c_l@[x]@))),
            forall|x: int| 0 <= x < i ==> (#[trigger] r@[x])@ == spec_point_add(r_temp@, spec_point_mul(h@[x]@, le_value(c_r@[x]@))),
        decreases m - i,
    {
        assert(spec_point_valid(h@[i as int]@));
        let tl = point_mul(&h[i], &c_l[i]);
        let tr = point_mul(&h[i], &c_r[i]);
        proof {
            lemma_canonical_sv(c_l@[i as int]);
            lemma_canonical_sv(c_r@[i as int]);
        }
        l.push(point_add(&l_temp, &tl));
        r.push(point_add(&r_temp, &tr));
        i = i + 1;
    }
    proof {
        assert forall|x: int| 0 <= x < m implies (#[trigger] l@[x])@ == l_point(gv, pts(h@), yv, av, half as nat, x) by {
            lemma_sdot_dotv(a_l@, y_r@, x, half as int);
            assert(innerv(av.take(half as int), yv.subrange(half as int, (2 * half) as int), m as nat)[x] == (dotv(vals(a_l@), matv(y_r@), x, half as int) % (group_order() as int)) as nat);
        }
        assert forall|x: int| 0 <= x < m implies (#[trigger] r@[x])@ == r_point(gv, pts(h@), yv, av, half as nat, x) by {
            lemma_sdot_dotv(a_r@, y_l@, x, half as int);
            assert(innerv(av.subrange(half as int, (2 * half) as int), yv.take(half as int), m as nat)[x] == (dotv(vals(a_r@), matv(y_l@), x, half as int) % (group_order() as int)) as nat);
        }
    }
    (l, r)
}

/// The encoding of the dropped entry in a leaf, if any.
pub open spec fn tail_bytes(tail: Option<ScalarBytes>) -> Seq<u8> {
    match tail {
        Some(t) => sc(le_value(t@)),
        None => Seq::empty(),
    }
}

/// The leaves of a round of even size `2 * half`, one per party.
fn round_leaves_exec(g: &Vec<PointBytes>, h: &Vec<PointBytes>, sdh: &Vec<PointBytes>, y: &Vec<Vec<ScalarBytes>>, l: &Vec<PointBytes>, r: &Vec<PointBytes>, half: usize, tail: Option<ScalarBytes>) -> (leaves: Vec<Vec<u8>>)
    requires
        g@.len() == 2 * half,
        y@.len() == 2 * half,
        forall|k: int| 0 <= k < 2 * half ==> (#[trigger] y@[k])@.len() == h@.len(),
        matrix_canonical(y@),
        sdh@.len() == h@.len(),
        l@.len() == h@.len(),
        r@.len() == h@.len(),
    ensures
        leaves@.len() == h@.len(),
        forall|i: int| 0 <= i < h@.len() ==> (#[trigger] leaves@[i])@ == leafv(
            pts(g@),
            half as nat,
            h@[i]@,
            colv(matv(y@), i),
            sdh@[i]@,
            l@[i]@,
            r@[i]@,
            tail_bytes(tail),
        ),
{
    let m = h.len();
    let q = g.len();
    let mut leaves: Vec<Vec<u8>> = Vec::new();
    let mut i: usize = 0;
    while i < m
        invariant
            i <= m,
            m == h@.len(),
            q == g@.len(),
            q == 2 * half,
            y@.len() == q,
            forall|k: int| 0 <= k < q ==> (#[trigger] y@[k])@.len() == m,
            matrix_canonical(y@),
            sdh@.len() == m,
            l@.len() == m,
            r@.len() == m,
            leaves@.len() == i,
            forall|x: int| 0 <= x < i ==> (#[trigger] leaves@[x])@ == leafv(
                pts(g@),
                half as nat,
                h@[x]@,
                colv(matv(y@), x),
                sdh@[x]@,
                l@[x]@,
                r@[x]@,
                tail_bytes(tail),
            ),
        decreases m - i,
    {
        let col = column(y, q, i);
        let leaf = match tail {
            Some(t) => hash_merkle1(g, half, &h[i], &col, &sdh[i], &l[i], &r[i], &t),
            None => hash_merkle2(g, half, &h[i], &col, &sdh[i], &l[i], &r[i]),
        };
        proof {
            lemma_pair_bytes(g@, col@, q as int);
            assert(vals(col@) =~= colv(matv(y@), i as int)) by {
                assert forall|k: int| 0 <= k < q implies vals(col@)[k] == colv(matv(y@), i as int)[k] by {
                    assert(col@[k] == y@[k]@[i as int]);
                }
            }
            match tail {
                Some(t) => {
                    lemma_le_bytes_value(t@);
                },
                None => {},
            }
        }
        leaves.push(leaf);
        i = i + 1;
    }
    leaves
}

/// The vectors of the next round: `g'[k] = g[k] / z + g[half+k] * z`,
/// `y'[k][j] = y[k][j] / z + z * y[half+k][j]` and
/// `a'[k] = z * a[k] + a[half+k] / z`.
fn fold_vectors(g: &Vec<PointBytes>, y: &Vec<Vec<ScalarBytes>>, a: &Vec<ScalarBytes>, half: usize, z: &ScalarBytes, zi: &ScalarBytes) -> (r: (Vec<PointBytes>, Vec<Vec<ScalarBytes>>, Vec<ScalarBytes>))
    requires
        half >= 1,
        g@.len() == 2 * half,
        a@.len() == 2 * half,
        y@.len() == 2 * half,
        forall|k: int| 0 <= k < 2 * half ==> (#[trigger] y@[k])@.len() == y@[0]@.len(),
        all_valid(g@),
        all_canonical(a@),
        matrix_canonical(y@),
        canonical(*z),
        canonical(*zi),
    ensures
        pts(r.0@) == Seq::new(half as nat, |k: int| spec_point_add(
            spec_point_mul(pts(g@)[k], le_value(zi@)),
            spec_point_mul(pts(g@)[half + k], le_value(z@)),
        )),
        matv(r.1@) == Seq::new(half as nat, |k: int| Seq::new(matv(y@)[0].len(), |j: int| sadd(
            smul(le_value(zi@), matv(y@)[k][j]),
            smul(le_value(z@), matv(y@)[half + k][j]),
        ))),
        vals(r.2@) == Seq::new(half as nat, |k: int| sadd(
            smul(le_value(z@), vals(a@)[k]),
            smul(le_value(zi@), vals(a@)[half + k]),
        )),
        r.0@.len() == half,
        r.1@.len() == half,
        r.2@.len() == half,
        all_valid(r.0@),
        all_canonical(r.2@),
        matrix_canonical(r.1@),
        forall|k: int| 0 <= k < half ==> (#[trigger] r.1@[k])@.len() == y@[0]@.len(),
{
    let m = y[0].len();
    assert(g.len() == 2 * half);
    let ghost zv = le_value(z@);
    let ghost ziv = le_value(zi@);
    proof {
        lemma_canonical_sv(*z);
        lemma_canonical_sv(*zi);
    }
    let mut g2: Vec<PointBytes> = Vec::new();
    let mut y2: Vec<Vec<ScalarBytes>> = Vec::new();
    let mut a2: Vec<ScalarBytes> = Vec::new();
    let mut k: usize = 0;
    while k < half
        invariant
            k <= half,
            half >= 1,
            2 * half <= usize::MAX,
            g@.len() == 2 * half,
            a@.len() == 2 * half,
            y@.len() == 2 * half,
            m == y@[0]@.len(),
            forall|x: int| 0 <= x < 2 * half ==> (#[trigger] y@[x])@.len() == m,
            all_valid(g@),
            all_canonical(a@),
            matrix_canonical(y@),
            sv(*z) == zv,
            sv(*zi) == ziv,
            g2@.len() == k,
            y2@.len() == k,
            a2@.len() == k,
            all_valid(g2@),
            all_canonical(a2@),
            matrix_canonical(y2@),
            forall|x: int| 0 <= x < k ==> (#[trigger] y2@[x])@.len() == m,
            forall|x: int| 0 <= x < k ==> (#[trigger] g2@[x])@ == spec_point_add(
                spec_point_mul(pts(g@)[x], ziv),
                spec_point_mul(pts(g@)[half + x], zv),
            ),
            forall|x: int| 0 <= x < k ==> le_value((#[trigger] a2@[x])@) == sadd(
                smul(zv, vals(a@)[x]),
                smul(ziv, vals(a@)[half + x]),
            ),
            forall|x: int, j: int| 0 <= x < k && 0 <= j < m ==> le_value((#[trigger] y2@[x]@[j])@) == sadd(
                smul(ziv, matv(y@)[x][j]),
                smul(zv, matv(y@)[half + x][j]),
            ),
        decreases half - k,
    {
        assert(spec_point_valid(g@[k as int]@));
        assert(spec_point_valid(g@[half + k]@));
        let t1 = point_mul(&g[k], zi);
        let t2 = point_mul(&g[half + k], z);
        g2.push(point_add(&t1, &t2));
        proof {
            lemma_canonical_sv(a@[k as int]);
            lemma_canonical_sv(a@[half + k]);
        }
        let m1 = scalar_mul(z, &a[k]);
        let m2 = scalar_mul(zi, &a[half + k]);
        proof {
            lemma_canonical_sv(m1);
            lemma_canonical_sv(m2);
        }
        a2.push(scalar_add(&m1, &m2));
        let mut row: Vec<ScalarBytes> = Vec::new();
        let mut j: usize = 0;
        while j < m
            invariant
                j <= m,
                k < half,
                2 * half <= usize::MAX,
                y@.len() == 2 * half,
                m == y@[0]@.len(),
                forall|x: int| 0 <= x < 2 * half ==> (#[trigger] y@[x])@.len() == m,
                matrix_canonical(y@),
                sv(*z) == zv,
                sv(*zi) == ziv,
                row@.len() == j,
                all_canonical(row@),
                forall|x: int| 0 <= x < j ==> le_value((#[trigger] row@[x])@) == sadd(
                    smul(ziv, matv(y@)[k as int][x]),
                    smul(zv, matv(y@)[half + k][x]),
                ),
            decreases m - j,
        {
            assert(y@[k as int]@.len() == m);
            assert(y@[half + k]@.len() == m);
            assert(all_canonical(y@[k as int]@));
            assert(all_canonical(y@[half + k]@));
            proof {
                lemma_canonical_sv(y@[k as int]@[j as int]);
                lemma_canonical_sv(y@[half + k]@[j as int]);
            }
            let n1 = scalar_mul(zi, &y[k][j]);
            let n2 = scalar_mul(z, &y[half + k][j]);
            proof {
                lemma_canonical_sv(n1);
                lemma_canonical_sv(n2);
            }
            row.push(scalar_add(&n1, &n2));
            j = j + 1;
        }
        y2.push(row);
        k = k + 1;
    }
    proof {
        assert(pts(g2@) =~= Seq::new(half as nat, |k: int| spec_point_add(
            spec_point_mul(pts(g@)[k], ziv),
            spec_point_mul(pts(g@)[half + k], zv),
        )));
        assert(vals(a2@) =~= Seq::new(half as nat, |k: int| sadd(
            smul(zv, vals(a@)[k]),
            smul(ziv, vals(a@)[half + k]),
        )));
        assert forall|x: int| 0 <= x < half implies (#[trigger] matv(y2@)[x]) == Seq::new(matv(y@)[0].len(), |j: int| sadd(
            smul(ziv, matv(y@)[x][j]),
            smul(zv, matv(y@)[half + x][j]),
        )) by {
            assert(vals(y2@[x]@) =~= Seq::new(matv(y@)[0].len(), |j: int| sadd(
                smul(ziv, matv(y@)[x][j]),
                smul(zv, matv(y@)[half + x][j]),
            )));
        }
        assert(matv(y2@) =~= Seq::new(half as nat, |k: int| Seq::new(matv(y@)[0].len(), |j: int| sadd(
            smul(ziv, matv(y@)[k][j]),
            smul(zv, matv(y@)[half + k][j]),
        ))));
    }
    (g2, y2, a2)
}

/// The units of a round for every party, and the combined commitments of
/// the next round, `L * z^2 + S + R / z^2`.
fn round_row(l: &Vec<PointBytes>, r: &Vec<PointBytes>, sdh: &Vec<PointBytes>, z: &Digest, branches: &Vec<(usize, Vec<u8>)>, at: &ScalarBytes, z2: &ScalarBytes, z2i: &ScalarBytes) -> (out: (Vec<IProofUnit>, Vec<PointBytes>))
    requires
        l@.len() == sdh@.len(),
        r@.len() == sdh@.len(),
        branches@.len() == sdh@.len(),
        all_valid(l@),
        all_valid(r@),
        all_valid(sdh@),
        canonical(*z2),
        canonical(*z2i),
    ensures
        out.0@.len() == sdh@.len(),
        forall|i: int| 0 <= i < sdh@.len() ==> (#[trigger] out.0@[i]).view_unit() == (
            0nat,
            le_value(at@),
            l@[i]@,
            r@[i]@,
            z.0@,
            branches@[i].0,
            branches@[i].1@,
        ),
        pts(out.1@) == Seq::new(sdh@.len(), |i: int| spec_point_add(
            spec_point_add(spec_point_mul(l@[i]@, le_value(z2@)), sdh@[i]@),
            spec_point_mul(r@[i]@, le_value(z2i@)),
        )),
        all_valid(out.1@),
{
    let n = sdh.len();
    proof {
        lemma_canonical_sv(*z2);
        lemma_canonical_sv(*z2i);
    }
    let mut row: Vec<IProofUnit> = Vec::new();
    let mut next: Vec<PointBytes> = Vec::new();
    let mut i: usize = 0;
    while i < n
        invariant
            i <= n,
            n == sdh@.len(),
            l@.len() == n,
            r@.len() == n,
            branches@.len() == n,
            all_valid(l@),
            all_valid(r@),
            all_valid(sdh@),
            sv(*z2) == le_value(z2@),
            sv(*z2i) == le_value(z2i@),
            row@.len() == i,
            next@.len() == i,
            all_valid(next@),
            forall|x: int| 0 <= x < i ==> (#[trigger] row@[x]).view_unit() == (
                0nat,
                le_value(at@),
                l@[x]@,
                r@[x]@,
                z.0@,
                branches@[x].0,
                branches@[x].1@,
            ),
            forall|x: int| 0 <= x < i ==> (#[trigger] next@[x])@ == spec_point_add(
                spec_point_add(spec_point_mul(l@[x]@, le_value(z2@)), sdh@[x]@),
                spec_point_mul(r@[x]@, le_value(z2i@)),
            ),
        decreases n - i,
    {
        let zero_s = zero();
        let unit = IProofUnit {
            a_only: zero_s,
            l: l[i],
            r: r[i],
            z: Digest(z.0),
            b_i: (branches[i].0, crate::crypto::bytes_to_vec(branches[i].1.as_slice())),
            a_tilde: *at,
        };
        row.push(unit);
        assert(spec_point_valid(l@[i as int]@));
        assert(spec_point_valid(r@[i as int]@));
        assert(spec_point_valid(sdh@[i as int]@));
        let l2 = point_mul(&l[i], z2);
        let r2 = point_mul(&r[i], z2i);
        let t = point_add(&l2, &sdh[i]);
        next.push(point_add(&t, &r2));
        i = i + 1;
    }
    proof {
        assert(pts(next@) =~= Seq::new(sdh@.len(), |i: int| spec_point_add(
            spec_point_add(spec_point_mul(l@[i]@, le_value(z2@)), sdh@[i]@),
            spec_point_mul(r@[i]@, le_value(z2i@)),
        )));
    }
    (row, next)
}

/// The folding argument from size `p` down to 1: appends the units of
/// every round, one row per round with one unit per party, for sizes that
/// match and, when there is a round to fold, at least one party.
fn inner_product_proof_func(phi: &mut Vec<Vec<IProofUnit>>, group: GroupParameters, s_d_hat: Vec<PointBytes>, y: Vec<Vec<ScalarBytes>>, p: usize, a: Vec<ScalarBytes>)
    requires
        p >= 1,
        group.g_vec@.len() == p,
        a@.len() == p,
        y@.len() == p,
        group.h_vec@.len() == s_d_hat@.len(),
        p > 1 ==> s_d_hat@.len() >= 1,
        forall|k: int| 0 <= k < p ==> (#[trigger] y@[k])@.len() == group.h_vec@.len(),
        all_valid(group.g_vec@),
        all_valid(group.h_vec@),
        all_valid(s_d_hat@),
        all_canonical(a@),
        matrix_canonical(y@),
    ensures
        unit_rows(final(phi)@) == unit_rows(old(phi)@) + rounds(
            pts(group.g_vec@),
            pts(group.h_vec@),
            pts(s_d_hat@),
            matv(y@),
            vals(a@),
            p as nat,
        ),
    decreases p,
{
    let ghost gs = pts(group.g_vec@);
    let ghost hs = pts(group.h_vec@);
    let ghost ss = pts(s_d_hat@);
    let ghost ys = matv(y@);
    let ghost as_ = vals(a@);
    let ghost before = phi@;
    let n = s_d_hat.len();
    if p == 1 {
        let mut row: Vec<IProofUnit> = Vec::new();
        let mut i: usize = 0;
        while i < n
            invariant
                i <= n,
                a@.len() == 1,
                as_ == vals(a@),
                row@.len() == i,
                forall|x: int| 0 <= x < i ==> (#[trigger] row@[x]).view_unit() == last_units(as_, n as nat)[x],
            decreases n - i,
        {
            let zero_s = zero();
            let id_l = point_identity();
            let id_r = point_identity();
            let unit = IProofUnit {
                a_only: a[0],
                l: id_l,
                r: id_r,
                z: Digest([0u8; 32]),
                b_i: (0, Vec::new()),
                a_tilde: zero_s,
            };
            proof {
                assert(unit.z.0@ =~= Seq::new(32, |k: int| 0u8));
                assert(unit.b_i.1@ =~= Seq::<u8>::empty());
            }
            row.push(unit);
            i = i + 1;
        }
        let ghost rv = row@.map_values(|u: IProofUnit| u.view_unit());
        phi.push(row);
        proof {
            assert(rv =~= last_units(as_, n as nat));
            assert(unit_rows(phi@) =~= unit_rows(before) + seq![rv]);
        }
        return;
    }
    let GroupParameters { g_vec, h_vec } = group;
    let mut g = g_vec;
    let h = h_vec;
    let mut sdh = s_d_hat;
    let mut yy = y;
    let mut aa = a;
    let mut q = p;
    let odd = p % 2 == 1;
    let at = if odd {
        let t = fold_odd(&g, &h, &mut sdh, &yy, &aa, p);
        aa.truncate(p - 1);
        yy.truncate(p - 1);
        g.truncate(p - 1);
        q = p - 1;
        t
    } else {
        zero()
    };
    let half = q / 2;
    proof {
        assert(q == even_size(p as nat));
        assert(pts(g@) =~= gs.take(q as int));
        assert(matv(yy@) =~= ys.take(q as int));
        assert(vals(aa@) =~= as_.take(q as int));
        assert(pts(sdh@) == odd_sdh(gs, hs, ss, ys, as_, p as nat));
        assert(le_value(at@) == odd_tilde(as_, p as nat));
        assert(all_canonical(aa@));
        assert(matrix_canonical(yy@));
        assert(all_valid(g@));
        assert(canonical(at));
    }
    let (l, r) = cross_points(&g, &h, &yy, &aa, half);
    let tail = if odd {
        Some(at)
    } else {
        None
    };
    let leaves = round_leaves_exec(&g, &h, &sdh, &yy, &l, &r, half, tail);
    let ghost leaves_v = leaves@;
    let ghost expected = round_leaves(gs, hs, ss, ys, as_, p as nat);
    proof {
        assert(tail_bytes(tail) == (if p % 2 == 1 { sc(odd_tilde(as_, p as nat)) } else { Seq::<u8>::empty() }));
        assert forall|i: int| 0 <= i < n implies (#[trigger] leaves_v[i])@ == expected[i] by {
            assert(hs[i] == h@[i]@);
        }
        assert(leaf_hashes(leaves_v) =~= expected.map_values(|x: Seq<u8>| spec_sha256(x)));
    }
    let (z, branches) = match generate_merkle_tree(leaves) {
        Ok(res) => res,
        Err(_) => {
            proof {
                assert(false);
            }
            return;
        },
    };
    let ghost root_v = round_root(gs, hs, ss, ys, as_, p as nat);
    assert(z.0@ == root_v);
    let z_s = scalar_reduce(z.0);
    proof {
        lemma_canonical_sv(z_s);
    }
    let zi = scalar_invert(&z_s);
    let ghost zv = le_value(root_v) % group_order();
    assert(le_value(z_s@) == zv);
    assert(le_value(zi@) == inv(zv));
    assert(canonical(zi));
    proof {
        lemma_canonical_sv(zi);
    }
    let z2 = scalar_mul(&z_s, &z_s);
    let z2i = scalar_mul(&zi, &zi);
    let (row, sdh2) = round_row(&l, &r, &sdh, &z, &branches, &at, &z2, &z2i);
    let (g2, y2, a2) = fold_vectors(&g, &yy, &aa, half, &z_s, &zi);
    let ghost rv = row@.map_values(|u: IProofUnit| u.view_unit());
    let ghost nx = round_next(gs, hs, ss, ys, as_, p as nat);
    proof {
        assert(rv =~= round_units(gs, hs, ss, ys, as_, p as nat));
        assert(pts(g2@) =~= nx.0);
        assert(pts(sdh2@) =~= nx.1);
        assert(matv(y2@) =~= nx.2);
        assert(vals(a2@) =~= nx.4);
        assert(half == nx.3);
        assert(rounds(gs, hs, ss, ys, as_, p as nat) == seq![round_units(gs, hs, ss, ys, as_, p as nat)] + rounds(nx.0, hs, nx.1, nx.2, nx.4, nx.3));
    }
    phi.push(row);
    let ghost mid = phi@;
    assert(unit_rows(mid) =~= unit_rows(before) + seq![rv]);
    inner_product_proof_func(phi, GroupParameters { g_vec: g2, h_vec: h }, sdh2, y2, half, a2);
    proof {
        assert(unit_rows(phi@) =~= unit_rows(before) + rounds(gs, hs, ss, ys, as_, p as nat));
    }
}

/// The generators `z[i] * h` of the parties.
pub open spec fn challenge_generators(h: PointBytes, sdh: PointBytes, v_quota: Seq<ScalarBytes>, y: Seq<Vec<ScalarBytes>>) -> Seq<Seq<u8>> {
    Seq::new(v_quota.len(), |i: int| spec_point_mul(h@, statement_challenge(sdh, v_quota, y, i)))
}

/// The combined commitments `S + (z[i] * v[i]) * h` of the parties.
pub open spec fn challenge_commitments(h: PointBytes, sdh: PointBytes, v_quota: Seq<ScalarBytes>, y: Seq<Vec<ScalarBytes>>) -> Seq<Seq<u8>> {
    Seq::new(v_quota.len(), |i: int| spec_point_add(
        sdh@,
        spec_point_mul(h@, smul(statement_challenge(sdh, v_quota, y, i), sv(v_quota[i]))),
    ))
}

/// The folding argument for every party at once, from size `t + 1`: each
/// party's challenge scales `h` and binds its combined evaluation into the
/// combined commitment.  Row `k` of the result holds round `k`, one unit
/// per party, for sizes that match.
pub(crate) fn generate_inner_product_proof(crs: &CommonReferenceString, sigma_plus_d_hat: &PointBytes, v_quota: &Vec<ScalarBytes>, sigma_plus_d: Vec<ScalarBytes>, y: &Vec<Vec<ScalarBytes>>, t: usize) -> (units: Vec<Vec<IProofUnit>>)
    requires
        t < usize::MAX,
        crs.g@.len() == t + 1,
        sigma_plus_d@.len() == t + 1,
        y@.len() == t + 1,
        v_quota@.len() >= 1,
        forall|k: int| 0 <= k <= t ==> (#[trigger] y@[k])@.len() == v_quota@.len(),
        all_valid(crs.g@),
        spec_point_valid(crs.h@),
        spec_point_valid(sigma_plus_d_hat@),
        all_canonical(sigma_plus_d@),
        matrix_canonical(y@),
    ensures
        unit_rows(units@) == rounds(
            pts(crs.g@),
            challenge_generators(crs.h, *sigma_plus_d_hat, v_quota@, y@),
            challenge_commitments(crs.h, *sigma_plus_d_hat, v_quota@, y@),
            matv(y@),
            vals(sigma_plus_d@),
            (t + 1) as nat,
        ),
{
    let m = v_quota.len();
    assert(y@[0]@.len() == m);
    assert(rows_at_least(y@, y@[0]@.len() as int)) by {
        assert forall|k: int| 0 <= k < y@.len() implies (#[trigger] y@[k])@.len() >= y@[0]@.len() by {
            assert(y@[k]@.len() == m);
        }
    }
    let z = generate_statement_challenges(sigma_plus_d_hat, v_quota, y);
    let mut sdh_quota: Vec<PointBytes> = Vec::new();
    let mut h_z: Vec<PointBytes> = Vec::new();
    let mut i: usize = 0;
    while i < m
        invariant
            i <= m,
            m == v_quota@.len(),
            z@.len() == m,
            spec_point_valid(crs.h@),
            spec_point_valid(sigma_plus_d_hat@),
            forall|x: int| 0 <= x < m ==> le_value((#[trigger] z@[x])@) == statement_challenge(*sigma_plus_d_hat, v_quota@, y@, x),
            sdh_quota@.len() == i,
            h_z@.len() == i,
            all_valid(sdh_quota@),
            all_valid(h_z@),
            forall|x: int| 0 <= x < i ==> (#[trigger] sdh_quota@[x])@ == challenge_commitments(crs.h, *sigma_plus_d_hat, v_quota@, y@)[x],
            forall|x: int| 0 <= x < i ==> (#[trigger] h_z@[x])@ == challenge_generators(crs.h, *sigma_plus_d_hat, v_quota@, y@)[x],
        decreases m - i,
    {
        proof {
            lemma_canonical_sv(z@[i as int]);
        }
        let scalar_term = scalar_mul(&z[i], &v_quota[i]);
        proof {
            lemma_canonical_sv(scalar_term);
        }
        let h_term = point_mul(&crs.h, &scalar_term);
        sdh_quota.push(point_add(sigma_plus_d_hat, &h_term));
        h_z.push(point_mul(&crs.h, &z[i]));
        i = i + 1;
    }
    proof {
        assert(pts(sdh_quota@) =~= challenge_commitments(crs.h, *sigma_plus_d_hat, v_quota@, y@));
        assert(pts(h_z@) =~= challenge_generators(crs.h, *sigma_plus_d_hat, v_quota@, y@));
    }
    let g_copy = copy_range(&crs.g, 0, crs.g.len());
    assert(g_copy@ =~= crs.g@);
    let y_copy = rows_range(y, 0, y.len());
    proof {
        assert(matv(y_copy@) =~= matv(y@));
        assert forall|k: int| 0 <= k <= t implies (#[trigger] y_copy@[k])@.len() == h_z@.len() && all_canonical(y_copy@[k]@) by {
            assert(y_copy@[k]@ == y@[k]@);
        }
    }
    let group = GroupParameters { g_vec: g_copy, h_vec: h_z };
    let mut phi: Vec<Vec<IProofUnit>> = Vec::new();
    inner_product_proof_func(&mut phi, group, sdh_quota, y_copy, t + 1, sigma_plus_d);
    proof {
        assert(unit_rows(Seq::<Vec<IProofUnit>>::empty()) =~= Seq::<Seq<UnitView>>::empty());
        assert(Seq::<Seq<UnitView>>::empty() + unit_rows(phi@) =~= unit_rows(phi@));
    }
    phi
}

// ---- the whole evaluation proof, over values ----

/// The Fiat-Shamir weights of the commitments, as values.
pub open spec fn weights(s_hat: Seq<PointBytes>) -> Seq<nat> {
    Seq::new(s_hat.len(), |i: int| fs_weight(s_hat, i))
}

/// Column `i` of the first `k` rows, each value as its 32 bytes.
pub open spec fn col_bytes_v(y: Seq<Seq<nat>>, i: int, k: int) -> Seq<u8>
    decreases k,
{
    if k <= 0 {
        Seq::empty()
    } else {
        col_bytes_v(y, i, k - 1) + sc(y[k - 1][i])
    }
}

/// The evaluations of every row of `s` against `y`.
pub open spec fn evals(s: Seq<Seq<nat>>, y: Seq<Seq<nat>>) -> Seq<Seq<nat>> {
    Seq::new(s.len(), |i: int| innerv(s[i], y, y[0].len()))
}

/// The rows of `s` combined with the weights, plus the mask: the vector
/// the argument is about.
pub open spec fn masked_sigma(s: Seq<Seq<nat>>, s_hat: Seq<PointBytes>, d: Seq<nat>) -> Seq<nat> {
    let sigma = innerv(weights(s_hat), s, s[0].len());
    Seq::new(d.len(), |i: int| sadd(sigma[i], d[i]))
}

/// The combined evaluations: the weighted evaluations plus the mask's.
pub open spec fn combined_evals(s: Seq<Seq<nat>>, y: Seq<Seq<nat>>, s_hat: Seq<PointBytes>, d: Seq<nat>) -> Seq<nat> {
    let vd = innerv(d, y, y[0].len());
    Seq::new(y[0].len(), |j: int| ((dotv(weights(s_hat), evals(s, y), j, s.len() as int) + vd[j]) % (group_order() as int)) as nat)
}

/// The challenge of party `i` over values.
pub open spec fn challenge_v(sdh: Seq<u8>, vq: Seq<nat>, y: Seq<Seq<nat>>, i: int) -> nat {
    hash_scalar(sdh + col_bytes_v(y, i, y.len() as int) + sc(vq[i]))
}

/// The units of every round for every party, for mask `d`.
pub open spec fn eval_units(g: Seq<Seq<u8>>, h: Seq<u8>, s: Seq<Seq<nat>>, y: Seq<Seq<nat>>, s_hat: Seq<PointBytes>, d: Seq<nat>) -> Seq<Seq<UnitView>> {
    let spd = masked_sigma(s, s_hat, d);
    let sdh = pfold(g, spd, spd.len() as int);
    let vq = combined_evals(s, y, s_hat, d);
    rounds(
        g,
        Seq::new(vq.len(), |i: int| spec_point_mul(h, challenge_v(sdh, vq, y, i))),
        Seq::new(vq.len(), |i: int| spec_point_add(sdh, spec_point_mul(h, smul(challenge_v(sdh, vq, y, i), vq[i])))),
        y,
        spd,
        spd.len(),
    )
}

/// What party `i` receives, as values: its units of every round, the
/// mask's commitment and the mask's evaluation for it.
pub type PhiView = (Seq<UnitView>, Seq<u8>, nat);

/// A party's element as values.
pub open spec fn phi_view(e: PhiElement) -> PhiView {
    (e.proofs@.map_values(|u: IProofUnit| u.view_unit()), e.d_hat@, le_value(e.v_d_i@))
}

/// The element of party `i` for mask `d`.
pub open spec fn eval_phi(g: Seq<Seq<u8>>, h: Seq<u8>, s: Seq<Seq<nat>>, y: Seq<Seq<nat>>, s_hat: Seq<PointBytes>, d: Seq<nat>, i: int) -> PhiView {
    let units = eval_units(g, h, s, y, s_hat, d);
    (
        Seq::new(units.len(), |k: int| units[k][i]),
        pfold(g, d, d.len() as int),
        innerv(d, y, y[0].len())[i],
    )
}

proof fn lemma_commit_fold_values(g: Seq<PointBytes>, x: Seq<ScalarBytes>, k: int)
    requires
        0 <= k <= g.len(),
        k <= x.len(),
        all_canonical(x),
    ensures
        commit_fold(g, x, k) == pfold(pts(g), vals(x), k),
    decreases k,
{
    if k > 0 {
        lemma_commit_fold_values(g, x, k - 1);
        lemma_canonical_sv(x[k - 1]);
    }
}

proof fn lemma_masked_full(a: Seq<ScalarBytes>, b: Seq<Vec<ScalarBytes>>, j: int, k: int)
    requires
        0 <= k <= a.len(),
        k <= b.len(),
        0 <= j,
        forall|i: int| 0 <= i < k ==> j < (#[trigger] b[i])@.len(),
    ensures
        sdot_masked(a, b, j, k) == sdot(a, b, j, k),
    decreases k,
{
    if k > 0 {
        lemma_masked_full(a, b, j, k - 1);
        assert(j < b[k - 1]@.len());
    }
}

proof fn lemma_col_bytes_values(y: Seq<Vec<ScalarBytes>>, i: int, k: int)
    requires
        0 <= k <= y.len(),
        0 <= i,
        forall|r: int| 0 <= r < k ==> i < (#[trigger] y[r])@.len(),
    ensures
        col_bytes(y, i, k) == col_bytes_v(matv(y), i, k),
    decreases k,
{
    if k > 0 {
        lemma_col_bytes_values(y, i, k - 1);
        assert(i < y[k - 1]@.len());
        lemma_le_bytes_value(y[k - 1]@[i]@);
    }
}

proof fn lemma_rounds_shape(g: Seq<Seq<u8>>, h: Seq<Seq<u8>>, sdh: Seq<Seq<u8>>, y: Seq<Seq<nat>>, a: Seq<nat>, p: nat)
    ensures
        rounds(g, h, sdh, y, a, p).len() >= 1,
        forall|k: int| 0 <= k < rounds(g, h, sdh, y, a, p).len() ==> (#[trigger] rounds(g, h, sdh, y, a, p)[k]).len() == sdh.len(),
    decreases p,
{
    if p > 1 {
        let n = round_next(g, h, sdh, y, a, p);
        lemma_rounds_shape(n.0, h, n.1, n.2, n.4, n.3);
        let rest = rounds(n.0, h, n.1, n.2, n.4, n.3);
        let all = rounds(g, h, sdh, y, a, p);
        assert(all == seq![round_units(g, h, sdh, y, a, p)] + rest);
        assert forall|k: int| 0 <= k < all.len() implies (#[trigger] all[k]).len() == sdh.len() by {
            if k > 0 {
                assert(all[k] == rest[k - 1]);
            }
        }
    }
}

/// The dealer's evaluation proof: the evaluations `v` of every row of `s`
/// against `y`, and for every party (column of `y`) its units of the
/// folding argument together with the mask's commitment and evaluation.
/// The mask is drawn at random (entries below `t + 1`); whatever it is,
/// the result is the one [`eval_phi`] gives for it.  Sizes must match
/// (see [`batch_eval_checked`] for inputs that are checked first).
pub fn batch_eval(crs: &CommonReferenceString, s: &Vec<Vec<ScalarBytes>>, y: &Vec<Vec<ScalarBytes>>, s_hat: &Vec<PointBytes>, t: usize, _n: usize) -> (r: (Vec<Vec<ScalarBytes>>, Vec<PhiElement>))
    requires
        t < u64::MAX,
        t < usize::MAX,
        crs.g@.len() == t + 1,
        s@.len() >= 1,
        s@.len() == s_hat@.len(),
        forall|i: int| 0 <= i < s@.len() ==> (#[trigger] s@[i])@.len() == t + 1,
        y@.len() == t + 1,
        y@[0]@.len() >= 1,
        forall|k: int| 0 <= k <= t ==> (#[trigger] y@[k])@.len() == y@[0]@.len(),
        all_valid(crs.g@),
        spec_point_valid(crs.h@),
        matrix_canonical(s@),
        matrix_canonical(y@),
    ensures
        matv(r.0@) == evals(matv(s@), matv(y@)),
        r.1@.len() == y@[0]@.len(),
        exists|d: Seq<nat>|
            {
                &&& d.len() == t + 1
                &&& forall|i: int| 0 <= i <= t ==> #[trigger] d[i] <= t
                &&& forall|i: int| 0 <= i < r.1@.len() ==> phi_view(#[trigger] r.1@[i]) == eval_phi(pts(crs.g@), crs.h@, matv(s@), matv(y@), s_hat@, d, i)
            },
{
    let ghost gs = pts(crs.g@);
    let ghost ss = matv(s@);
    let ghost ys = matv(y@);
    let m = y[0].len();
    proof {
        assert(rows_at_least(y@, y@[0]@.len() as int)) by {
            assert forall|k: int| 0 <= k < y@.len() implies (#[trigger] y@[k])@.len() >= y@[0]@.len() by {
                assert(y@[k]@.len() == m);
            }
        }
        assert(rows_at_least(s@, s@[0]@.len() as int)) by {
            assert forall|k: int| 0 <= k < s@.len() implies (#[trigger] s@[k])@.len() >= s@[0]@.len() by {
                assert(s@[k]@.len() == t + 1);
            }
        }
    }
    let (d, d_hat) = generate_blind_mask(crs, t);
    let ghost dv = vals(d@);
    assert(all_canonical(d@)) by {
        assert forall|i: int| 0 <= i < d@.len() implies canonical(#[trigger] d@[i]) by {
            assert(le_value(d@[i]@) <= t);
        }
    }
    let (v, v_d) = generate_eval_matrices(&d, s, y);
    let (gamma, sigma) = generate_sigma(s, s_hat);
    let mut spd: Vec<ScalarBytes> = Vec::new();
    let mut i: usize = 0;
    while i <= t
        invariant
            i <= t + 1,
            t < usize::MAX,
            sigma@.len() == t + 1,
            d@.len() == t + 1,
            spd@.len() == i,
            forall|x: int| 0 <= x < i ==> le_value((#[trigger] spd@[x])@) == (sv(sigma@[x]) + sv(d@[x])) % group_order(),
        decreases t + 1 - i,
    {
        spd.push(scalar_add(&sigma[i], &d[i]));
        i = i + 1;
    }
    let sdh_hat = batch_commit_for_sigma_plus_d(crs, &spd);
    proof {
        assert forall|i: int| 0 <= i < v@.len() implies (#[trigger] v@[i])@.len() <= v_d@.len() by {
            assert(v@[i]@.len() == m);
        }
    }
    let v_quota = generate_v_plus_vd_eval(&gamma, &v_d, &v);
    let ghost spd_v = spd@;
    let ghost vq = v_quota@;
    proof {
        assert(vals(gamma@) =~= weights(s_hat@));
        assert(all_canonical(gamma@));
        assert(all_canonical(spd_v));
        assert(all_canonical(vq));
        assert(matrix_canonical(v@)) by {
            assert forall|i: int| 0 <= i < v@.len() implies all_canonical((#[trigger] v@[i])@) by {
                assert forall|j: int| 0 <= j < v@[i]@.len() implies canonical(#[trigger] v@[i]@[j]) by {
                    assert(le_value(v@[i]@[j]@) == sdot(s@[i]@, y@, j, y@.len() as int) % (group_order() as int));
                }
            }
        }
        // the evaluations
        assert forall|i: int| 0 <= i < s@.len() implies (#[trigger] matv(v@)[i]) == innerv(ss[i], ys, ys[0].len()) by {
            assert forall|j: int| 0 <= j < m implies matv(v@)[i][j] == innerv(ss[i], ys, ys[0].len())[j] by {
                assert(all_canonical(s@[i]@));
                lemma_sdot_dotv(s@[i]@, y@, j, y@.len() as int);
            }
            assert(matv(v@)[i] =~= innerv(ss[i], ys, ys[0].len()));
        }
        assert(matv(v@) =~= evals(ss, ys));
        // the mask's evaluations
        assert forall|j: int| 0 <= j < m implies #[trigger] vals(v_d@)[j] == innerv(dv, ys, ys[0].len())[j] by {
            lemma_sdot_dotv(d@, y@, j, y@.len() as int);
        }
        // the combined vector
        assert forall|i: int| 0 <= i <= t implies #[trigger] vals(spd_v)[i] == masked_sigma(ss, s_hat@, dv)[i] by {
            lemma_sdot_dotv(gamma@, s@, i, s@.len() as int);
            lemma_canonical_sv(sigma@[i]);
            lemma_canonical_sv(d@[i]);
        }
        assert(vals(spd_v) =~= masked_sigma(ss, s_hat@, dv));
        lemma_commit_fold_values(crs.g@, spd_v, (t + 1) as int);
        lemma_commit_fold_values(crs.g@, d@, (t + 1) as int);
        // the combined evaluations
        assert forall|j: int| 0 <= j < m implies #[trigger] vals(vq)[j] == combined_evals(ss, ys, s_hat@, dv)[j] by {
            assert forall|i: int| 0 <= i < v@.len() implies j < (#[trigger] v@[i])@.len() by {
                assert(v@[i]@.len() == m);
            }
            let len = v@.len() as int;
            assert(le_value(vq[j]@) == (sdot_masked(gamma@, v@, j, len) + sv(v_d@[j])) % (group_order() as int));
            lemma_masked_full(gamma@, v@, j, len);
            lemma_sdot_dotv(gamma@, v@, j, len);
            assert(sdot_masked(gamma@, v@, j, len) == dotv(weights(s_hat@), evals(ss, ys), j, len));
            lemma_canonical_sv(v_d@[j]);
            assert(sv(v_d@[j]) == vals(v_d@)[j]);
            assert(vals(v_d@)[j] == innerv(dv, ys, ys[0].len())[j]);
            assert(len == ss.len());
        }
        assert(vals(vq) =~= combined_evals(ss, ys, s_hat@, dv));
        // the challenges
        assert forall|i: int| 0 <= i < m implies #[trigger] statement_challenge(sdh_hat, vq, y@, i) == challenge_v(sdh_hat@, vals(vq), ys, i) by {
            assert forall|r: int| 0 <= r < y@.len() implies i < (#[trigger] y@[r])@.len() by {
                assert(y@[r]@.len() == m);
            }
            lemma_col_bytes_values(y@, i, y@.len() as int);
            lemma_le_bytes_value(vq[i]@);
        }
        assert forall|i: int| 0 <= i < m implies #[trigger] sv(vq[i]) == vals(vq)[i] by {
            lemma_canonical_sv(vq[i]);
        }
    }
    let units = generate_inner_product_proof(crs, &sdh_hat, &v_quota, spd, y, t);
    let ghost uv = eval_units(gs, crs.h@, ss, ys, s_hat@, dv);
    proof {
        let sdhv = pfold(gs, vals(spd_v), (t + 1) as int);
        let vqv = vals(vq);
        assert(challenge_generators(crs.h, sdh_hat, vq, y@) =~= Seq::new(vqv.len(), |i: int| spec_point_mul(crs.h@, challenge_v(sdhv, vqv, ys, i))));
        assert(challenge_commitments(crs.h, sdh_hat, vq, y@) =~= Seq::new(vqv.len(), |i: int| spec_point_add(sdhv, spec_point_mul(crs.h@, smul(challenge_v(sdhv, vqv, ys, i), vqv[i])))));
        assert(unit_rows(units@) == uv);
        lemma_rounds_shape(
            gs,
            challenge_generators(crs.h, sdh_hat, vq, y@),
            challenge_commitments(crs.h, sdh_hat, vq, y@),
            ys,
            vals(spd_v),
            (t + 1) as nat,
        );
    }
    let rounds_n = units.len();
    let mut phi: Vec<PhiElement> = Vec::new();
    let mut i: usize = 0;
    while i < m
        invariant
            i <= m,
            m == v_d@.len(),
            rounds_n == units@.len(),
            unit_rows(units@) == uv,
            forall|k: int| 0 <= k < rounds_n ==> (#[trigger] uv[k]).len() == m,
            phi@.len() == i,
            forall|x: int| 0 <= x < i ==> phi_view(#[trigger] phi@[x]) == (
                Seq::new(uv.len(), |k: int| uv[k][x]),
                d_hat@,
                le_value(v_d@[x]@),
            ),
        decreases m - i,
    {
        let mut proofs: Vec<IProofUnit> = Vec::new();
        let mut k: usize = 0;
        while k < rounds_n
            invariant
                k <= rounds_n,
                i < m,
                rounds_n == units@.len(),
                unit_rows(units@) == uv,
                forall|x: int| 0 <= x < rounds_n ==> (#[trigger] uv[x]).len() == m,
                proofs@.len() == k,
                forall|x: int| 0 <= x < k ==> (#[trigger] proofs@[x]).view_unit() == uv[x][i as int],
            decreases rounds_n - k,
        {
            assert(unit_rows(units@)[k as int] == units@[k as int]@.map_values(|u: IProofUnit| u.view_unit()));
            assert(units@[k as int]@.len() == m);
            let u = units[k][i].duplicate();
            proofs.push(u);
            k = k + 1;
        }
        let ghost pv = proofs@.map_values(|u: IProofUnit| u.view_unit());
        assert(pv =~= Seq::new(uv.len(), |k: int| uv[k][i as int]));
        phi.push(PhiElement { proofs, d_hat, v_d_i: v_d[i] });
        i = i + 1;
    }
    proof {
        assert(d_hat@ == pfold(gs, dv, dv.len() as int));
        assert forall|x: int| 0 <= x < phi@.len() implies phi_view(#[trigger] phi@[x]) == eval_phi(gs, crs.h@, ss, ys, s_hat@, dv, x) by {
            assert(vals(v_d@)[x] == innerv(dv, ys, ys[0].len())[x]);
            assert(le_value(v_d@[x]@) == vals(v_d@)[x]);
        }
        assert(forall|x: int| 0 <= x <= t ==> #[trigger] dv[x] <= t);
    }
    (v, phi)
}

// ---- checking the argument ----

/// A unit as received is well formed: reduced scalars, valid points and a
/// branch that is a whole number of hashes.
pub open spec fn unit_ok(u: IProofUnit) -> bool {
    &&& canonical(u.a_only)
    &&& canonical(u.a_tilde)
    &&& spec_point_valid(u.l@)
    &&& spec_point_valid(u.r@)
    &&& u.b_i.1@.len() % 32 == 0
}

/// The number of rounds of the argument from size `p`.
pub open spec fn round_count(p: nat) -> nat
    decreases p,
{
    if p <= 1 {
        1
    } else {
        1 + round_count(even_size(p) / 2)
    }
}

/// Whether the units prove, round by round from size `p`, that `sdh`
/// commits (under `g` and `h`) to a vector whose product with `y` it binds.
pub open spec fn verify_rounds(g: Seq<Seq<u8>>, h: Seq<u8>, sdh: Seq<u8>, y: Seq<nat>, p: nat, units: Seq<UnitView>, n: nat) -> bool
    decreases p,
{
    if p <= 1 {
        let a = units[0].0;
        sdh == spec_point_add(spec_point_mul(g[0], a), spec_point_mul(h, smul(a, y[0])))
    } else {
        let u = units[0];
        let s1 = if p % 2 == 1 {
            spec_point_add(sdh, spec_point_add(spec_point_mul(g[p - 1], u.1), spec_point_mul(h, smul(u.1, y[p - 1]))))
        } else {
            sdh
        };
        let q = even_size(p);
        let half = q / 2;
        let g1 = g.take(q as int);
        let y1 = y.take(q as int);
        let leaf = leafv(g1, half, h, y1, s1, u.2, u.3, if p % 2 == 1 { sc(u.1) } else { Seq::empty() });
        let z = le_value(u.4) % group_order();
        let zi = inv(z);
        &&& spec_merkle_verify(u.6, u.4, u.5 as int, spec_sha256(leaf), n as int)
        &&& verify_rounds(
            Seq::new(half, |k: int| spec_point_add(spec_point_mul(g1[k], zi), spec_point_mul(g1[half + k], z))),
            h,
            spec_point_add(spec_point_add(spec_point_mul(u.2, smul(z, z)), s1), spec_point_mul(u.3, smul(zi, zi))),
            Seq::new(half, |k: int| sadd(smul(zi, y1[k]), smul(z, y1[half + k]))),
            half,
            units.drop_first(),
            n,
        )
    }
}

/// The units that the rounds from size `p` read, from `phi[start]` on, are
/// there and well formed: the last round reads only the unit's `a_only`.
pub open spec fn units_ready(phi: Seq<IProofUnit>, start: int, p: nat) -> bool
    decreases p,
{
    &&& 0 <= start < phi.len()
    &&& if p <= 1 {
        canonical(phi[start].a_only)
    } else {
        unit_ok(phi[start]) && units_ready(phi, start + 1, even_size(p) / 2)
    }
}

/// Enough units, all well formed, are ready for the rounds.
pub proof fn lemma_units_ready(phi: Seq<IProofUnit>, start: int, p: nat)
    requires
        p >= 1,
        0 <= start,
        phi.len() - start >= round_count(p),
        forall|k: int| start <= k < phi.len() ==> unit_ok(#[trigger] phi[k]),
    ensures
        units_ready(phi, start, p),
    decreases p,
{
    assert(unit_ok(phi[start]));
    if p > 1 {
        assert(even_size(p) / 2 >= 1);
        lemma_units_ready(phi, start + 1, even_size(p) / 2);
    }
}

/// Checks the units `phi[start..]` of one party round by round from size
/// `p` against the combined commitment, given the units that the rounds
/// read. Points and scalars beyond `p` are not read when `p` is odd; an even
/// `p` above one hashes all of `g` and `y`, which then have exactly `p`.
fn inner_product_verify_func(g: Vec<PointBytes>, h: &PointBytes, s_d_hat: PointBytes, y: Vec<ScalarBytes>, p: usize, phi: &Vec<IProofUnit>, start: usize, n: usize) -> (ok: bool)
    requires
        p >= 1,
        g@.len() >= p,
        y@.len() >= p,
        p > 1 && p % 2 == 0 ==> g@.len() == p && y@.len() == p,
        all_valid(g@),
        spec_point_valid(h@),
        spec_point_valid(s_d_hat@),
        all_canonical(y@),
        units_ready(phi@, start as int, p as nat),
    ensures
        ok == verify_rounds(
            pts(g@),
            h@,
            s_d_hat@,
            vals(y@),
            p as nat,
            phi@.subrange(start as int, phi@.len() as int).map_values(|u: IProofUnit| u.view_unit()),
            n as nat,
        ),
    decreases p,
{
    let ghost units = phi@.subrange(start as int, phi@.len() as int).map_values(|u: IProofUnit| u.view_unit());
    let ghost gs = pts(g@);
    let ghost ys = vals(y@);
    let u = &phi[start];
    assert(units[0] == u.view_unit());
    proof {
        lemma_canonical_sv(u.a_only);
        lemma_canonical_sv(y@[0]);
        lemma_canonical_sv(y@[p - 1]);
    }
    if p == 1 {
        assert(spec_point_valid(g@[0]@));
        let temp1 = point_mul(&g[0], &u.a_only);
        let ay = scalar_mul(&u.a_only, &y[0]);
        proof {
            lemma_canonical_sv(ay);
        }
        let temp2 = point_mul(h, &ay);
        let temp3 = point_add(&temp1, &temp2);
        return crate::crypto::bytes_eq(&s_d_hat, &temp3);
    }
    assert(unit_ok(*u));
    proof {
        lemma_canonical_sv(u.a_tilde);
    }
    let mut g = g;
    let mut y = y;
    let mut sdh = s_d_hat;
    let mut q = p;
    let odd = p % 2 == 1;
    if odd {
        assert(spec_point_valid(g@[p - 1]@));
        let temp1 = point_mul(&g[p - 1], &u.a_tilde);
        let temp2 = scalar_mul(&u.a_tilde, &y[p - 1]);
        proof {
            lemma_canonical_sv(temp2);
        }
        let temp3 = point_mul(h, &temp2);
        let temp4 = point_add(&temp1, &temp3);
        sdh = point_add(&sdh, &temp4);
        y.truncate(p - 1);
        g.truncate(p - 1);
        q = p - 1;
    }
    let half = q / 2;
    proof {
        assert(q == even_size(p as nat));
        assert(pts(g@) =~= gs.take(q as int));
        assert(vals(y@) =~= ys.take(q as int));
    }
    let leaf = if odd {
        hash_merkle1(&g, half, h, &y, &sdh, &u.l, &u.r, &u.a_tilde)
    } else {
        hash_merkle2(&g, half, h, &y, &sdh, &u.l, &u.r)
    };
    proof {
        lemma_pair_bytes(g@, y@, q as int);
        lemma_le_bytes_value(u.a_tilde@);
    }
    let branch = (u.b_i.0, crate::crypto::bytes_to_vec(u.b_i.1.as_slice()));
    let verdict = verify_merkle_proof(&leaf, branch, Digest(u.z.0), n);
    match verdict {
        Ok(b) => {
            if !b {
                return false;
            }
        },
        Err(_) => {
            proof {
                assert(false);
            }
            return false;
        },
    }
    let z_s = scalar_reduce(u.z.0);
    proof {
        lemma_canonical_sv(z_s);
    }
    let zi = scalar_invert(&z_s);
    assert(canonical(zi));
    proof {
        lemma_canonical_sv(zi);
    }
    let z2 = scalar_mul(&z_s, &z_s);
    let z2i = scalar_mul(&zi, &zi);
    proof {
        lemma_canonical_sv(z2);
        lemma_canonical_sv(z2i);
    }
    let l2 = point_mul(&u.l, &z2);
    let r2 = point_mul(&u.r, &z2i);
    let t = point_add(&l2, &sdh);
    let a_prime = point_add(&t, &r2);
    let mut g2: Vec<PointBytes> = Vec::new();
    let mut y2: Vec<ScalarBytes> = Vec::new();
    let mut k: usize = 0;
    while k < half
        invariant
            k <= half,
            q == 2 * half,
            g@.len() == q,
            y@.len() == q,
            all_valid(g@),
            all_canonical(y@),
            sv(z_s) == le_value(z_s@),
            sv(zi) == le_value(zi@),
            g2@.len() == k,
            y2@.len() == k,
            all_valid(g2@),
            all_canonical(y2@),
            forall|x: int| 0 <= x < k ==> (#[trigger] g2@[x])@ == spec_point_add(
                spec_point_mul(pts(g@)[x], le_value(zi@)),
                spec_point_mul(pts(g@)[half + x], le_value(z_s@)),
            ),
            forall|x: int| 0 <= x < k ==> le_value((#[trigger] y2@[x])@) == sadd(
                smul(le_value(zi@), vals(y@)[x]),
                smul(le_value(z_s@), vals(y@)[half + x]),
            ),
        decreases half - k,
    {
        assert(spec_point_valid(g@[k as int]@));
        assert(spec_point_valid(g@[half + k]@));
        let t1 = point_mul(&g[k], &zi);
        let t2 = point_mul(&g[half + k], &z_s);
        g2.push(point_add(&t1, &t2));
        proof {
            lemma_canonical_sv(y@[k as int]);
            lemma_canonical_sv(y@[half + k]);
        }
        let m1 = scalar_mul(&zi, &y[k]);
        let m2 = scalar_mul(&z_s, &y[half + k]);
        proof {
            lemma_canonical_sv(m1);
            lemma_canonical_sv(m2);
        }
        y2.push(scalar_add(&m1, &m2));
        k = k + 1;
    }
    assert(half as nat == even_size(p as nat) / 2);
    assert(units_ready(phi@, start + 1, half as nat));
    let total = phi.len();
    assert(start + 1 < total);
    proof {
        assert(phi@.subrange(start + 1, phi@.len() as int).map_values(|u: IProofUnit| u.view_unit()) =~= units.drop_first());
    }
    let res = inner_product_verify_func(g2, h, a_prime, y2, half, phi, start + 1, n);
    proof {
        let z = le_value(u.z.0@) % group_order();
        let g1 = gs.take(q as int);
        let y1 = ys.take(q as int);
        assert(pts(g2@) =~= Seq::new(half as nat, |k: int| spec_point_add(spec_point_mul(g1[k], inv(z)), spec_point_mul(g1[half + k], z))));
        assert(vals(y2@) =~= Seq::new(half as nat, |k: int| sadd(smul(inv(z), y1[k]), smul(z, y1[half + k]))));
    }
    res
}

/// The sum of `a[i] * b[i]` over `i < k`, as an integer.
pub open spec fn lin(a: Seq<nat>, b: Seq<nat>, k: int) -> int
    decreases k,
{
    if k <= 0 {
        0
    } else {
        lin(a, b, k - 1) + a[k - 1] * b[k - 1]
    }
}

/// The combined evaluation a party recomputes from its evaluations and the
/// mask's evaluation.
pub open spec fn verifier_evaluation(s_hat: Seq<PointBytes>, v: Seq<nat>, v_d: nat) -> nat {
    ((lin(weights(s_hat), v, v.len() as int) + v_d) % (group_order() as int)) as nat
}

/// The combined commitment a party recomputes: the commitments weighted
/// and summed in order, plus the mask's commitment.
pub open spec fn verifier_commitment(s_hat: Seq<PointBytes>, d_hat: Seq<u8>) -> Seq<u8> {
    spec_point_add(pfold(pts(s_hat), weights(s_hat), s_hat.len() as int), d_hat)
}

/// Whether a party accepts its evaluations `v` (at its points `y`) with
/// the element `e`.
pub open spec fn verify_eval(g: Seq<Seq<u8>>, h: Seq<u8>, s_hat: Seq<PointBytes>, v: Seq<nat>, y: Seq<ScalarBytes>, e: PhiView, t: nat, n: nat) -> bool {
    let vq = verifier_evaluation(s_hat, v, e.2);
    let sdh = verifier_commitment(s_hat, e.1);
    let z = hash_scalar(sdh + cat32(y) + sc(vq));
    verify_rounds(
        g,
        spec_point_mul(h, z),
        spec_point_add(sdh, spec_point_mul(h, smul(z, vq))),
        vals(y),
        t + 1,
        e.0,
        n,
    )
}

/// A party checks its evaluations `v` of the committed rows at its points
/// `y` against its element of the dealer's proof, given at least as many
/// commitments as evaluations, enough well-formed units and sizes that
/// match (see [`batch_verify_eval_checked`] for inputs that are checked
/// first).
pub fn batch_verify_eval(crs: &CommonReferenceString, s_hat: &Vec<PointBytes>, v: Vec<ScalarBytes>, y: Vec<ScalarBytes>, phi_element: PhiElement, t: usize, n: usize) -> (ok: bool)
    requires
        t < usize::MAX,
        crs.g@.len() == t + 1,
        y@.len() == t + 1,
        v@.len() <= s_hat@.len(),
        all_valid(crs.g@),
        spec_point_valid(crs.h@),
        all_valid(s_hat@),
        spec_point_valid(phi_element.d_hat@),
        all_canonical(v@),
        all_canonical(y@),
        canonical(phi_element.v_d_i),
        phi_element.proofs@.len() >= round_count((t + 1) as nat),
        forall|k: int| 0 <= k < phi_element.proofs@.len() ==> unit_ok(#[trigger] phi_element.proofs@[k]),
    ensures
        ok == verify_eval(pts(crs.g@), crs.h@, s_hat@, vals(v@), y@, phi_view(phi_element), t as nat, n as nat),
{
    let d_hat = phi_element.d_hat;
    let v_d = phi_element.v_d_i;
    let gamma = generate_random_number_by_fiat_shamir(s_hat);
    assert(vals(gamma@) =~= weights(s_hat@));
    assert(all_canonical(gamma@));
    let mut v_quota = zero();
    let mut i: usize = 0;
    while i < v.len()
        invariant
            i <= v@.len(),
            v@.len() <= gamma@.len(),
            vals(gamma@) == weights(s_hat@),
            all_canonical(gamma@),
            all_canonical(v@),
            le_value(v_quota@) == lin(weights(s_hat@), vals(v@), i as int) % (group_order() as int),
        decreases v.len() - i,
    {
        proof {
            lemma_canonical_sv(gamma@[i as int]);
            lemma_canonical_sv(v@[i as int]);
        }
        let prod = scalar_mul(&gamma[i], &v[i]);
        let ghost before = v_quota;
        v_quota = scalar_add(&v_quota, &prod);
        proof {
            let m = group_order() as int;
            let x = lin(weights(s_hat@), vals(v@), i as int);
            let y: int = (weights(s_hat@)[i as int] * vals(v@)[i as int]) as int;
            lemma_canonical_sv(before);
            lemma_canonical_sv(prod);
            vstd::arithmetic::div_mod::lemma_add_mod_noop(x, y, m);
            vstd::arithmetic::div_mod::lemma_mod_twice(y, m);
            vstd::arithmetic::div_mod::lemma_mod_twice(x, m);
        }
        i = i + 1;
    }
    let ghost before = v_quota;
    v_quota = scalar_add(&v_quota, &v_d);
    let ghost vqv = verifier_evaluation(s_hat@, vals(v@), le_value(v_d@));
    proof {
        let m = group_order() as int;
        let x = lin(weights(s_hat@), vals(v@), v@.len() as int);
        lemma_canonical_sv(before);
        lemma_canonical_sv(v_d);
        vstd::arithmetic::div_mod::lemma_add_mod_noop(x, le_value(v_d@) as int, m);
        vstd::arithmetic::div_mod::lemma_mod_twice(x, m);
        vstd::arithmetic::div_mod::lemma_small_mod(le_value(v_d@), group_order());
        assert(le_value(v_quota@) == vqv);
        lemma_le_bytes_value(v_quota@);
        lemma_canonical_sv(v_quota);
    }
    let mut sdh = point_identity();
    let mut k: usize = 0;
    while k < gamma.len()
        invariant
            k <= gamma@.len(),
            gamma@.len() == s_hat@.len(),
            vals(gamma@) == weights(s_hat@),
            all_canonical(gamma@),
            all_valid(s_hat@),
            spec_point_valid(sdh@),
            sdh@ == pfold(pts(s_hat@), weights(s_hat@), k as int),
        decreases gamma.len() - k,
    {
        proof {
            lemma_canonical_sv(gamma@[k as int]);
        }
        assert(spec_point_valid(s_hat@[k as int]@));
        let term = point_mul(&s_hat[k], &gamma[k]);
        sdh = point_add(&sdh, &term);
        k = k + 1;
    }
    sdh = point_add(&sdh, &d_hat);
    let ghost sdhv = verifier_commitment(s_hat@, d_hat@);
    assert(sdh@ == sdhv);
    let z = generate_statement_challenge_for_verifier(&sdh, &v_quota, &y);
    let ghost zv = hash_scalar(sdhv + cat32(y@) + sc(vqv));
    assert(le_value(z@) == zv);
    proof {
        lemma_canonical_sv(z);
    }
    let scalar_term = scalar_mul(&z, &v_quota);
    proof {
        lemma_canonical_sv(scalar_term);
    }
    let h_term = point_mul(&crs.h, &scalar_term);
    let sdh_quota = point_add(&sdh, &h_term);
    let h_z = point_mul(&crs.h, &z);
    let g_copy = copy_range(&crs.g, 0, crs.g.len());
    assert(g_copy@ =~= crs.g@);
    proof {
        assert(phi_element.proofs@.subrange(0, phi_element.proofs@.len() as int) =~= phi_element.proofs@);
        lemma_units_ready(phi_element.proofs@, 0, (t + 1) as nat);
    }
    inner_product_verify_func(g_copy, &h_z, sdh_quota, y, t + 1, &phi_element.proofs, 0, n)
}

// ---- entry points that check their inputs ----

/// Whether the bytes hold a reduced scalar.
pub fn is_canonical(b: &ScalarBytes) -> (r: bool)
    ensures
        r == canonical(*b),
{
    let red = scalar_reduce(*b);
    proof {
        lemma_le_bytes_value(red@);
        lemma_le_bytes_value(b@);
        if canonical(*b) {
            vstd::arithmetic::div_mod::lemma_small_mod(le_value(b@), group_order());
        }
    }
    crate::crypto::bytes_eq(&red, b)
}

/// Whether every encoding decompresses.
pub fn all_decompress(v: &Vec<PointBytes>) -> (r: bool)
    ensures
        r == all_valid(v@),
{
    let mut k: usize = 0;
    while k < v.len()
        invariant
            k <= v@.len(),
            forall|x: int| 0 <= x < k ==> spec_point_valid((#[trigger] v@[x])@),
        decreases v.len() - k,
    {
        if !point_decompresses(&v[k]) {
            return false;
        }
        k = k + 1;
    }
    true
}

/// Whether every scalar is reduced.
pub fn all_reduced(v: &Vec<ScalarBytes>) -> (r: bool)
    ensures
        r == all_canonical(v@),
{
    let mut k: usize = 0;
    while k < v.len()
        invariant
            k <= v@.len(),
            forall|x: int| 0 <= x < k ==> canonical(#[trigger] v@[x]),
        decreases v.len() - k,
    {
        if !is_canonical(&v[k]) {
            return false;
        }
        k = k + 1;
    }
    true
}

/// Whether every row of the matrix has `width` reduced scalars.
fn rows_reduced(m: &Vec<Vec<ScalarBytes>>, width: usize) -> (r: bool)
    ensures
        r == (matrix_canonical(m@) && forall|i: int| 0 <= i < m@.len() ==> (#[trigger] m@[i])@.len() == width),
{
    let mut k: usize = 0;
    while k < m.len()
        invariant
            k <= m@.len(),
            forall|x: int| 0 <= x < k ==> all_canonical((#[trigger] m@[x])@) && m@[x]@.len() == width,
        decreases m.len() - k,
    {
        if m[k].len() != width || !all_reduced(&m[k]) {
            return false;
        }
        k = k + 1;
    }
    true
}

proof fn lemma_round_count_bound(p: nat)
    requires
        p >= 1,
    ensures
        round_count(p) <= p,
    decreases p,
{
    if p > 1 {
        lemma_round_count_bound(even_size(p) / 2);
    }
}

/// The number of rounds of the argument from size `p >= 1`.
fn rounds_needed(p: usize) -> (r: usize)
    requires
        p >= 1,
    ensures
        r == round_count(p as nat),
    decreases p,
{
    if p <= 1 {
        1
    } else {
        let q = if p % 2 == 1 { p - 1 } else { p };
        proof {
            lemma_round_count_bound((q / 2) as nat);
        }
        1 + rounds_needed(q / 2)
    }
}

/// [`batch_eval`] on inputs that are checked first: `None` when a
/// generator does not decompress, a scalar is not reduced, or the sizes do
/// not fit (`t + 1` generators and points per party, rows of `s` of
/// `t + 1` entries, as many commitments as rows, at least one row and one
/// party).
pub fn batch_eval_checked(crs: &CommonReferenceString, s: &Vec<Vec<ScalarBytes>>, y: &Vec<Vec<ScalarBytes>>, s_hat: &Vec<PointBytes>, t: usize, n: usize) -> (r: Option<(Vec<Vec<ScalarBytes>>, Vec<PhiElement>)>)
    ensures
        r is Some <==> {
            &&& t < u64::MAX
            &&& t < usize::MAX
            &&& crs.g@.len() == t + 1
            &&& s@.len() >= 1
            &&& s@.len() == s_hat@.len()
            &&& forall|i: int| 0 <= i < s@.len() ==> (#[trigger] s@[i])@.len() == t + 1
            &&& y@.len() == t + 1
            &&& y@[0]@.len() >= 1
            &&& forall|k: int| 0 <= k <= t ==> (#[trigger] y@[k])@.len() == y@[0]@.len()
            &&& all_valid(crs.g@)
            &&& spec_point_valid(crs.h@)
            &&& matrix_canonical(s@)
            &&& matrix_canonical(y@)
        },
        r matches Some(res) ==> {
            &&& matv(res.0@) == evals(matv(s@), matv(y@))
            &&& res.1@.len() == y@[0]@.len()
            &&& exists|d: Seq<nat>|
                {
                    &&& d.len() == t + 1
                    &&& forall|i: int| 0 <= i <= t ==> #[trigger] d[i] <= t
                    &&& forall|i: int| 0 <= i < res.1@.len() ==> phi_view(#[trigger] res.1@[i]) == eval_phi(pts(crs.g@), crs.h@, matv(s@), matv(y@), s_hat@, d, i)
                }
        },
{
    if t >= usize::MAX || t as u64 >= u64::MAX || crs.g.len() != t + 1 || s.len() == 0 || s.len() != s_hat.len() || y.len() != t + 1 {
        return None;
    }
    let m = y[0].len();
    if m == 0 || !rows_reduced(s, t + 1) || !rows_reduced(y, m) || !all_decompress(&crs.g) || !point_decompresses(&crs.h) {
        return None;
    }
    Some(batch_eval(crs, s, y, s_hat, t, n))
}

/// Whether every unit of the element is well formed.
fn units_ok(units: &Vec<IProofUnit>) -> (r: bool)
    ensures
        r == forall|k: int| 0 <= k < units@.len() ==> unit_ok(#[trigger] units@[k]),
{
    let mut k: usize = 0;
    while k < units.len()
        invariant
            k <= units@.len(),
            forall|x: int| 0 <= x < k ==> unit_ok(#[trigger] units@[x]),
        decreases units.len() - k,
    {
        let u = &units[k];
        if !is_canonical(&u.a_only) || !is_canonical(&u.a_tilde) || !point_decompresses(&u.l) || !point_decompresses(&u.r) || u.b_i.1.len() % 32 != 0 {
            return false;
        }
        k = k + 1;
    }
    true
}

/// [`batch_verify_eval`] on inputs that are checked first: `None` when a
/// point does not decompress, a scalar is not reduced, a unit is malformed
/// or missing, or the sizes do not fit (`t + 1` generators and points,
/// no more evaluations than commitments).
pub fn batch_verify_eval_checked(crs: &CommonReferenceString, s_hat: &Vec<PointBytes>, v: Vec<ScalarBytes>, y: Vec<ScalarBytes>, phi_element: PhiElement, t: usize, n: usize) -> (r: Option<bool>)
    ensures
        r is Some <==> {
            &&& t < usize::MAX
            &&& crs.g@.len() == t + 1
            &&& y@.len() == t + 1
            &&& v@.len() <= s_hat@.len()
            &&& all_valid(crs.g@)
            &&& spec_point_valid(crs.h@)
            &&& all_valid(s_hat@)
            &&& spec_point_valid(phi_element.d_hat@)
            &&& all_canonical(v@)
            &&& all_canonical(y@)
            &&& canonical(phi_element.v_d_i)
            &&& phi_element.proofs@.len() >= round_count((t + 1) as nat)
            &&& forall|k: int| 0 <= k < phi_element.proofs@.len() ==> unit_ok(#[trigger] phi_element.proofs@[k])
        },
        r matches Some(ok) ==> ok == verify_eval(pts(crs.g@), crs.h@, s_hat@, vals(v@), y@, phi_view(phi_element), t as nat, n as nat),
{
    if t >= usize::MAX || crs.g.len() != t + 1 || y.len() != t + 1 || v.len() > s_hat.len() {
        return None;
    }
    if !all_decompress(&crs.g) || !point_decompresses(&crs.h) || !all_decompress(s_hat) || !point_decompresses(&phi_element.d_hat) {
        return None;
    }
    if !all_reduced(&v) || !all_reduced(&y) || !is_canonical(&phi_element.v_d_i) {
        return None;
    }
    if phi_element.proofs.len() < rounds_needed(t + 1) || !units_ok(&phi_element.proofs) {
        return None;
    }
    Some(batch_verify_eval(crs, s_hat, v, y, phi_element, t, n))
}

} // verus!
