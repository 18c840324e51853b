//! Linear algebra over `Z_q` behind the lattice-based polynomial commitment:
//! Kronecker products with the commitment matrix and with challenge
//! matrices, gadget decomposition into bits, evaluation vectors and the
//! Fiat-Shamir challenge.

use vstd::prelude::*;
use vstd::arithmetic::power::{pow, lemma_pow_adds, lemma_pow_increases, lemma_pow_mod_noop};
use vstd::arithmetic::div_mod::{
    lemma_add_mod_noop, lemma_mul_mod_noop, lemma_mul_mod_noop_left, lemma_mul_mod_noop_right,
    lemma_mod_twice,
};
use crate::types_and_const::ZqMod;
use crate::zq_int::{ZqInt, zq_seq_wf};
use crate::zq_matrix::{ZqMatrix, ZqVector, is_rect, zq_matrix_ncols, zq_matrix_rows};
use crate::polynomial::Polynomial;
use crate::hashing::{le_bytes, push_le, sha256_counter_blocks, spec_sha256};

verus! {

/// The ring element `value mod q`, where `value` is already reduced.
pub open spec fn zq(value: int, q: u128) -> ZqInt {
    ZqInt { value: value as u128, modulus: q }
}

/// Sum of `a[k] * b[k]` for `k < len`, over the integers.
pub open spec fn dot(a: Seq<ZqInt>, b: Seq<ZqInt>, len: int) -> int
    decreases len,
{
    if len <= 0 {
        0
    } else {
        dot(a, b, len - 1) + a[len - 1].value * b[len - 1].value
    }
}

/// `r` to the power `e`, as a `usize`.
pub fn upow(r: usize, e: usize) -> (p: usize)
    requires
        pow(r as int, e as nat) <= usize::MAX,
    ensures
        p == pow(r as int, e as nat),
{
    let mut p: usize = 1;
    let mut k: usize = 0;
    proof {
        reveal(pow);
    }
    while k < e
        invariant
            k <= e,
            p == pow(r as int, k as nat),
            pow(r as int, e as nat) <= usize::MAX,
        decreases e - k,
    {
        proof {
            reveal(pow);
            assert(pow(r as int, (k + 1) as nat) == r * pow(r as int, k as nat));
            assert(p * r == r * p) by (nonlinear_arith);
            if r > 0 {
                lemma_pow_increases(r as nat, (k + 1) as nat, e as nat);
            } else {
                assert(r * p == 0) by (nonlinear_arith)
                    requires
                        r == 0,
                ;
            }
        }
        p = p * r;
        k = k + 1;
    }
    p
}

/// A vector of `m` zeros modulo `modulus`.
pub fn dvector_zeros(m: usize, modulus: ZqMod) -> (v: ZqVector)
    requires
        modulus % 2 == 1,
    ensures
        v.entries() == Seq::new(m as nat, |i: int| zq(0, modulus)),
{
    let zero = ZqInt::new(0, modulus);
    let mut data: Vec<ZqInt> = Vec::new();
    let mut i: usize = 0;
    while i < m
        invariant
            i <= m,
            zero == zq(0, modulus),
            data@ == Seq::new(i as nat, |k: int| zq(0, modulus)),
        decreases m - i,
    {
        data.push(zero);
        i = i + 1;
        assert(data@ =~= Seq::new(i as nat, |k: int| zq(0, modulus)));
    }
    ZqVector::from_vec(data)
}

/// Distance of a residue from 0 in the centred representation.
pub open spec fn centred_abs(z: ZqInt) -> int {
    if z.value <= z.modulus / 2 {
        z.value as int
    } else {
        z.modulus - z.value
    }
}

/// The largest centred absolute value of the first `len` entries (0 for none).
pub open spec fn max_centred(s: Seq<ZqInt>, len: int) -> int
    decreases len,
{
    if len <= 0 {
        0
    } else {
        let rest = max_centred(s, len - 1);
        if centred_abs(s[len - 1]) > rest {
            centred_abs(s[len - 1])
        } else {
            rest
        }
    }
}

/// The infinity norm of a vector over `Z_q`, entries taken in `(-q/2, q/2]`.
pub fn infinity_norm(vec: &ZqVector) -> (r: ZqMod)
    requires
        forall|i: int| 0 <= i < vec.entries().len() ==> (#[trigger] vec.entries()[i]).wf(),
    ensures
        r == max_centred(vec.entries(), vec.entries().len() as int),
{
    let n = vec.len();
    let mut best: ZqMod = 0;
    let mut i: usize = 0;
    while i < n
        invariant
            i <= n,
            n == vec.entries().len(),
            forall|k: int| 0 <= k < vec.entries().len() ==> (#[trigger] vec.entries()[k]).wf(),
            best == max_centred(vec.entries(), i as int),
        decreases n - i,
    {
        let v = vec.get(i);
        let res = v.residue();
        let abs = if res <= v.modulus() / 2 {
            res
        } else {
            v.modulus() - res
        };
        if abs > best {
            best = abs;
        }
        i = i + 1;
    }
    best
}

proof fn lemma_pow_square_step(b: int, e: nat, q: int)
    requires
        q > 0,
    ensures
        e % 2 == 1 ==> pow(b, e) % q == (b * pow((b * b) % q, e / 2)) % q,
        e % 2 == 0 ==> pow(b, e) % q == pow((b * b) % q, e / 2) % q,
{
    let h = e / 2;
    reveal(pow);
    assert(pow(b, 2) == b * b) by {
        reveal(pow);
        assert(pow(b, 1) == b * pow(b, 0));
        assert(pow(b, 2) == b * pow(b, 1));
    }
    vstd::arithmetic::power::lemma_pow_multiplies(b, 2, h);
    assert(pow(pow(b, 2), h) == pow(b, 2 * h));
    lemma_pow_mod_noop(b * b, h, q);
    if e % 2 == 1 {
        assert(e == 2 * h + 1);
        lemma_pow_adds(b, 1, 2 * h);
        assert(pow(b, 0) == 1);
        assert(pow(b, 1) == b * pow(b, 0));
        assert(pow(b, e) == b * pow(b * b, h));
        lemma_mul_mod_noop(b, pow(b * b, h), q);
        lemma_mul_mod_noop(b, pow((b * b) % q, h), q);
    } else {
        assert(e == 2 * h);
    }
}

/// `x` to the power `n` in `Z_q`, by repeated squaring.
pub fn power_mod(x: ZqInt, n: usize, q: ZqMod) -> (r: ZqInt)
    requires
        q % 2 == 1,
        x.wf(),
        x.modulus == q,
    ensures
        r.wf(),
        r.modulus == q,
        r.value == pow(x.value as int, n as nat) % (q as int),
{
    let mut result = ZqInt::new(1, q);
    let mut base = x;
    let mut exp = n;
    proof {
        lemma_mul_mod_noop(1, pow(x.value as int, n as nat), q as int);
        lemma_mul_mod_noop_right(1int % (q as int), pow(x.value as int, n as nat), q as int);
    }
    while exp > 0
        invariant
            q % 2 == 1,
            result.wf(),
            result.modulus == q,
            base.wf(),
            base.modulus == q,
            (result.value * pow(base.value as int, exp as nat)) % (q as int) == pow(
                x.value as int,
                n as nat,
            ) % (q as int),
        decreases exp,
    {
        let ghost r0 = result.value as int;
        let ghost b0 = base.value as int;
        let ghost e0 = exp as nat;
        let ghost qq = q as int;
        proof {
            lemma_pow_square_step(b0, e0, qq);
        }
        if exp % 2 == 1 {
            result = result.mul(base);
            proof {
                let p = pow((b0 * b0) % qq, e0 / 2);
                let big = pow(b0, e0);
                lemma_mul_mod_noop_left(r0 * b0, p, qq);
                lemma_mul_mod_noop_right(r0, big, qq);
                lemma_mul_mod_noop_right(r0, b0 * p, qq);
                assert(r0 * (b0 * p) == (r0 * b0) * p) by (nonlinear_arith);
            }
        } else {
            proof {
                let p = pow((b0 * b0) % qq, e0 / 2);
                let big = pow(b0, e0);
                lemma_mul_mod_noop_right(r0, big, qq);
                lemma_mul_mod_noop_right(r0, p, qq);
            }
        }
        base = base.mul(base);
        exp = exp / 2;
    }
    proof {
        reveal(pow);
        assert(pow(base.value as int, 0) == 1);
        vstd::arithmetic::div_mod::lemma_small_mod(result.value as nat, q as nat);
    }
    result
}

/// Position `t` of a sequence cut into blocks of `n` lies in block `t / n`
/// at offset `t % n`.
pub proof fn lemma_block_index(i: int, p: int, n: int)
    requires
        n > 0,
        0 <= p < n,
    ensures
        (i * n + p) / n == i,
        (i * n + p) % n == p,
{
    vstd::arithmetic::div_mod::lemma_fundamental_div_mod_converse(i * n + p, n, i, p);
}

/// Evaluation vector `i` at `x`: its `r` entries are `x^(r^i * j)` for
/// `j < r`.
pub open spec fn x_vector(x: ZqInt, r: nat, i: nat) -> Seq<ZqInt> {
    Seq::new(
        r,
        |j: int| zq(pow(x.value as int, (pow(r as int, i) * j) as nat) % (x.modulus as int), x.modulus),
    )
}

/// The `ell + 1` evaluation vectors at `x`, for `i = 0..=ell`.
pub fn generate_x_vectors(x: ZqInt, ell: usize, r: usize) -> (result: Vec<ZqVector>)
    requires
        x.wf(),
        ell < usize::MAX,
        pow(r as int, ell as nat) <= usize::MAX,
    ensures
        result@.len() == ell + 1,
        forall|i: int| 0 <= i <= ell ==> (#[trigger] result@[i]).entries() == x_vector(x, r as nat, i as nat),
{
    let q = x.modulus();
    let mut result: Vec<ZqVector> = Vec::new();
    let mut i: usize = 0;
    while i <= ell
        invariant
            i <= ell + 1,
            ell < usize::MAX,
            x.wf(),
            q == x.modulus,
            pow(r as int, ell as nat) <= usize::MAX,
            result@.len() == i,
            forall|k: int| 0 <= k < i ==> (#[trigger] result@[k]).entries() == x_vector(x, r as nat, k as nat),
        decreases ell + 1 - i,
    {
        proof {
            if r > 0 {
                lemma_pow_increases(r as nat, i as nat, ell as nat);
            } else {
                reveal(pow);
                if i > 0 {
                    assert(pow(r as int, i as nat) == r * pow(r as int, (i - 1) as nat));
                } else {
                    assert(pow(r as int, 0) == 1);
                }
            }
        }
        let power_base = upow(r, i);
        let mut coefficients: Vec<ZqInt> = Vec::new();
        let mut current = ZqInt::new(1, q);
        let ghost xs = x_vector(x, r as nat, i as nat);
        proof {
            reveal(pow);
            assert(pow(x.value as int, 0) == 1);
            assert(power_base * 0 == 0);
        }
        let mut j: usize = 0;
        while j < r
            invariant
                j <= r,
                x.wf(),
                q == x.modulus,
                power_base == pow(r as int, i as nat),
                xs == x_vector(x, r as nat, i as nat),
                current.wf(),
                current.modulus == q,
                current.value == pow(x.value as int, (power_base * j) as nat) % (q as int),
                coefficients@ == xs.subrange(0, j as int),
            decreases r - j,
        {
            coefficients.push(current);
            let step = power_mod(x, power_base, q);
            let ghost a = pow(x.value as int, (power_base * j) as nat);
            let ghost b = pow(x.value as int, power_base as nat);
            current = current.mul(step);
            proof {
                assert(power_base * j + power_base == power_base * (j + 1)) by (nonlinear_arith);
                assert(0 <= power_base * j) by (nonlinear_arith)
                    requires
                        power_base >= 0,
                        j >= 0,
                ;
                lemma_pow_adds(x.value as int, (power_base * j) as nat, power_base as nat);
                lemma_mul_mod_noop(a, b, q as int);
                assert(coefficients@ =~= xs.subrange(0, j + 1));
            }
            j = j + 1;
        }
        assert(coefficients@ =~= xs);
        result.push(ZqVector::from_vec(coefficients));
        i = i + 1;
    }
    result
}

/// Adds `a * b` to an accumulator modulo `q`: the accumulated integer grows
/// by the product and stays reduced.
proof fn lemma_acc_step(acc: int, total: int, prod: int, q: int)
    requires
        q > 0,
        acc == total % q,
    ensures
        (acc + prod % q) % q == (total + prod) % q,
{
    lemma_add_mod_noop(total, prod, q);
    lemma_mod_twice(total, q);
}

/// `(I_k ⊗ a^T) · s`: entry `i` is the dot product of `a` with block `i`
/// (of length `|a|`) of `s`, modulo `q`.
pub open spec fn kron_vec_dot(a: Seq<ZqInt>, s: Seq<ZqInt>, k: nat, q: u128) -> Seq<ZqInt> {
    let n = a.len() as int;
    Seq::new(k, |i: int| zq(dot(a, s.subrange(i * n, i * n + n), n) % (q as int), q))
}

/// Computes `(I_k ⊗ a^T) · s` for a vector `s` of `k * |a|` entries.
pub fn i_kron_vec_dot_vec(a: &ZqVector, s: &ZqVector, k: usize, q: ZqMod) -> (t: ZqVector)
    requires
        q % 2 == 1,
        zq_seq_wf(a.entries(), q),
        zq_seq_wf(s.entries(), q),
        s.entries().len() == k * a.entries().len(),
    ensures
        t.entries() == kron_vec_dot(a.entries(), s.entries(), k as nat, q),
{
    let n = a.len();
    let slen = s.len();
    let ghost av = a.entries();
    let ghost sv = s.entries();
    let ghost spec_t = kron_vec_dot(av, sv, k as nat, q);
    let mut out: Vec<ZqInt> = Vec::new();
    let mut i: usize = 0;
    while i < k
        invariant
            i <= k,
            q % 2 == 1,
            n == av.len(),
            av == a.entries(),
            sv == s.entries(),
            zq_seq_wf(av, q),
            zq_seq_wf(sv, q),
            sv.len() == k * n,
            slen == sv.len(),
            spec_t == kron_vec_dot(av, sv, k as nat, q),
            out@ == spec_t.subrange(0, i as int),
        decreases k - i,
    {
        assert((i + 1) * n <= k * n) by (nonlinear_arith)
            requires
                i < k,
        ;
        assert(i * n + n == (i + 1) * n) by (nonlinear_arith);
        let start = i * n;
        let ghost block = sv.subrange(start as int, start + n);
        let mut acc = ZqInt::new(0, q);
        let mut j: usize = 0;
        proof {
            vstd::arithmetic::div_mod::lemma_small_mod(0, q as nat);
        }
        while j < n
            invariant
                j <= n,
                q % 2 == 1,
                n == av.len(),
                start + n <= sv.len(),
                sv.len() <= usize::MAX,
                av == a.entries(),
                sv == s.entries(),
                block == sv.subrange(start as int, start + n),
                zq_seq_wf(av, q),
                zq_seq_wf(sv, q),
                acc.wf(),
                acc.modulus == q,
                acc.value == dot(av, block, j as int) % (q as int),
            decreases n - j,
        {
            let prod = a.get(j).mul(s.get(start + j));
            let ghost before = dot(av, block, j as int);
            acc = acc.add(prod);
            proof {
                assert(block[j as int] == sv[start + j]);
                lemma_acc_step(
                    dot(av, block, j as int) % (q as int),
                    before,
                    av[j as int].value * block[j as int].value,
                    q as int,
                );
            }
            j = j + 1;
        }
        out.push(acc);
        proof {
            assert(out@ =~= spec_t.subrange(0, i + 1));
        }
        i = i + 1;
    }
    assert(out@ =~= spec_t);
    ZqVector::from_vec(out)
}

/// `(I_kappa ⊗ A) · s` for a matrix `A` given by its rows (of `m` entries):
/// entry `i * n + p` is `zero` plus the dot product of row `p` with block
/// `i` (of length `m`) of `s`, modulo `q`.
pub open spec fn kron_mat_dot(
    rows: Seq<Seq<ZqInt>>,
    m: int,
    s: Seq<ZqInt>,
    kappa: nat,
    zero: ZqInt,
) -> Seq<ZqInt> {
    let n = rows.len() as int;
    Seq::new(
        kappa * rows.len(),
        |t: int|
            zq(
                (zero.value + dot(rows[t % n], s.subrange((t / n) * m, (t / n) * m + m), m)) % (
                zero.modulus as int),
                zero.modulus,
            ),
    )
}

/// All rows of the matrix are well-formed residues modulo `q`.
pub open spec fn matrix_wf(a: ZqMatrix, q: u128) -> bool {
    &&& is_rect(zq_matrix_rows(a), zq_matrix_ncols(a))
    &&& forall|p: int| 0 <= p < zq_matrix_rows(a).len() ==> zq_seq_wf(#[trigger] zq_matrix_rows(a)[p], q)
}

/// Computes `(I_kappa ⊗ A) · s` for `s` of `kappa * A.ncols` entries.
pub fn i_kron_a_dot_s(
    a: &ZqMatrix,
    s: &ZqVector,
    kappa: usize,
    zero: &ZqInt,
    _one: &ZqInt,
) -> (t: ZqVector)
    requires
        zero.wf(),
        matrix_wf(*a, zero.modulus),
        zq_seq_wf(s.entries(), zero.modulus),
        s.entries().len() == kappa * zq_matrix_ncols(*a),
        kappa * zq_matrix_rows(*a).len() <= usize::MAX,
    ensures
        t.entries() == kron_mat_dot(
            zq_matrix_rows(*a),
            zq_matrix_ncols(*a) as int,
            s.entries(),
            kappa as nat,
            *zero,
        ),
{
    let n = a.nrows();
    let m = a.ncols();
    let slen = s.len();
    let q = zero.modulus();
    let ghost rows = zq_matrix_rows(*a);
    let ghost sv = s.entries();
    let ghost spec_t = kron_mat_dot(rows, m as int, sv, kappa as nat, *zero);
    let mut out: Vec<ZqInt> = Vec::new();
    let mut i: usize = 0;
    while i < kappa
        invariant
            i <= kappa,
            zero.wf(),
            q == zero.modulus,
            n == rows.len(),
            m == zq_matrix_ncols(*a),
            rows == zq_matrix_rows(*a),
            sv == s.entries(),
            slen == sv.len(),
            sv.len() == kappa * m,
            kappa * n <= usize::MAX,
            matrix_wf(*a, q),
            zq_seq_wf(sv, q),
            spec_t == kron_mat_dot(rows, m as int, sv, kappa as nat, *zero),
            out@ == spec_t.subrange(0, (i * n) as int),
        decreases kappa - i,
    {
        assert((i + 1) * m <= kappa * m) by (nonlinear_arith)
            requires
                i < kappa,
        ;
        assert(i * m + m == (i + 1) * m) by (nonlinear_arith);
        assert((i + 1) * n <= kappa * n) by (nonlinear_arith)
            requires
                i < kappa,
        ;
        assert(i * n + n == (i + 1) * n) by (nonlinear_arith);
        let start = i * m;
        let ghost block = sv.subrange(start as int, start + m);
        let mut p: usize = 0;
        while p < n
            invariant
                p <= n,
                i < kappa,
                zero.wf(),
                q == zero.modulus,
                n == rows.len(),
                m == zq_matrix_ncols(*a),
                rows == zq_matrix_rows(*a),
                sv == s.entries(),
                sv.len() == kappa * m,
                start == i * m,
                start + m <= sv.len(),
                sv.len() <= usize::MAX,
                i * n + n <= kappa * n,
                kappa * n <= usize::MAX,
                block == sv.subrange(start as int, start + m),
                matrix_wf(*a, q),
                zq_seq_wf(sv, q),
                spec_t == kron_mat_dot(rows, m as int, sv, kappa as nat, *zero),
                out@ == spec_t.subrange(0, i * n + p),
            decreases n - p,
        {
            let mut sum = *zero;
            let mut j: usize = 0;
            proof {
                vstd::arithmetic::div_mod::lemma_small_mod(zero.value as nat, q as nat);
            }
            while j < m
                invariant
                    j <= m,
                    p < n,
                    zero.wf(),
                    q == zero.modulus,
                    n == rows.len(),
                    m == zq_matrix_ncols(*a),
                    rows == zq_matrix_rows(*a),
                    sv == s.entries(),
                    start + m <= sv.len(),
                    sv.len() <= usize::MAX,
                    block == sv.subrange(start as int, start + m),
                    matrix_wf(*a, q),
                    zq_seq_wf(sv, q),
                    sum.wf(),
                    sum.modulus == q,
                    sum.value == (zero.value + dot(rows[p as int], block, j as int)) % (q as int),
                decreases m - j,
            {
                assert(zq_seq_wf(rows[p as int], q));
                let prod = a.get(p, j).mul(s.get(start + j));
                let ghost before = zero.value + dot(rows[p as int], block, j as int);
                sum = sum.add(prod);
                proof {
                    assert(block[j as int] == sv[start + j]);
                    lemma_acc_step(
                        before % (q as int),
                        before,
                        rows[p as int][j as int].value * block[j as int].value,
                        q as int,
                    );
                }
                j = j + 1;
            }
            out.push(sum);
            proof {
                lemma_block_index(i as int, p as int, n as int);
                assert(out@ =~= spec_t.subrange(0, i * n + p + 1));
            }
            p = p + 1;
        }
        i = i + 1;
    }
    assert(out@ =~= spec_t);
    ZqVector::from_vec(out)
}

/// Sum of entry `p` of the blocks `j < len` (each of length `m`) of `v`
/// whose challenge bit `crow[j]` is 1.
pub open spec fn sel_sum(crow: Seq<ZqInt>, v: Seq<ZqInt>, m: int, p: int, len: int) -> int
    decreases len,
{
    if len <= 0 {
        0
    } else {
        sel_sum(crow, v, m, p, len - 1) + if crow[len - 1].value == 1 {
            v[(len - 1) * m + p].value as int
        } else {
            0
        }
    }
}

/// `(C ⊗ I_m) · v` for a 0/1 matrix `C` given by its rows (of `kr`
/// entries): block `i` is the sum of the blocks `j` of `v` with `C[i][j] = 1`,
/// modulo `q`.
pub open spec fn kron_sel(rows: Seq<Seq<ZqInt>>, kr: int, v: Seq<ZqInt>, m: int, q: u128) -> Seq<
    ZqInt,
> {
    Seq::new(
        (rows.len() * m) as nat,
        |t: int| zq(sel_sum(rows[t / m], v, m, t % m, kr) % (q as int), q),
    )
}

/// Block sums selected by the rows of `c_t`; `v` holds `c_t.ncols` blocks
/// of `m` entries.
fn select_blocks(c_t: &ZqMatrix, v: &Vec<ZqInt>, m: usize, q: ZqMod) -> (out: Vec<ZqInt>)
    requires
        q % 2 == 1,
        is_rect(zq_matrix_rows(*c_t), zq_matrix_ncols(*c_t)),
        zq_seq_wf(v@, q),
        v@.len() == zq_matrix_ncols(*c_t) * m,
        zq_matrix_rows(*c_t).len() * m <= usize::MAX,
    ensures
        out@ == kron_sel(zq_matrix_rows(*c_t), zq_matrix_ncols(*c_t) as int, v@, m as int, q),
        zq_seq_wf(out@, q),
{
    let kappa = c_t.nrows();
    let kr = c_t.ncols();
    let vlen = v.len();
    let ghost rows = zq_matrix_rows(*c_t);
    let ghost spec_out = kron_sel(rows, kr as int, v@, m as int, q);
    let zero = ZqInt::new(0, q);
    proof {
        vstd::arithmetic::div_mod::lemma_small_mod(0, q as nat);
    }
    let mut out: Vec<ZqInt> = Vec::new();
    let mut i: usize = 0;
    while i < kappa
        invariant
            i <= kappa,
            q % 2 == 1,
            zero == zq(0, q),
            kappa == rows.len(),
            kr == zq_matrix_ncols(*c_t),
            rows == zq_matrix_rows(*c_t),
            is_rect(rows, kr as nat),
            zq_seq_wf(v@, q),
            v@.len() == kr * m,
            vlen == v@.len(),
            kappa * m <= usize::MAX,
            spec_out == kron_sel(rows, kr as int, v@, m as int, q),
            out@ == spec_out.subrange(0, (i * m) as int),
            zq_seq_wf(out@, q),
        decreases kappa - i,
    {
        assert((i + 1) * m <= kappa * m) by (nonlinear_arith)
            requires
                i < kappa,
        ;
        assert(i * m + m == (i + 1) * m) by (nonlinear_arith);
        let mut block: Vec<ZqInt> = Vec::new();
        let mut p: usize = 0;
        while p < m
            invariant
                p <= m,
                zero == zq(0, q),
                block@ == Seq::new(p as nat, |k: int| zero),
            decreases m - p,
        {
            block.push(zero);
            p = p + 1;
            assert(block@ =~= Seq::new(p as nat, |k: int| zero));
        }
        proof {
            assert forall|k: int| 0 <= k < m implies (#[trigger] block@[k]).wf() && block@[k].modulus
                == q && block@[k].value == sel_sum(rows[i as int], v@, m as int, k, 0) % (
            q as int) by {
                assert(block@[k] == zero);
                vstd::arithmetic::div_mod::lemma_small_mod(0, q as nat);
            }
        }
        let mut j: usize = 0;
        while j < kr
            invariant
                j <= kr,
                i < kappa,
                q % 2 == 1,
                kappa == rows.len(),
                kr == zq_matrix_ncols(*c_t),
                rows == zq_matrix_rows(*c_t),
                is_rect(rows, kr as nat),
                zq_seq_wf(v@, q),
                v@.len() == kr * m,
                vlen == v@.len(),
                block@.len() == m,
                forall|k: int|
                    0 <= k < m ==> (#[trigger] block@[k]).wf() && block@[k].modulus == q
                        && block@[k].value == sel_sum(rows[i as int], v@, m as int, k, j as int)
                        % (q as int),
            decreases kr - j,
        {
            assert((j + 1) * m <= kr * m) by (nonlinear_arith)
                requires
                    j < kr,
            ;
            assert(j * m + m == (j + 1) * m) by (nonlinear_arith);
            if c_t.get(i, j).residue() == 1 {
                let mut p: usize = 0;
                while p < m
                    invariant
                        p <= m,
                        j < kr,
                        i < kappa,
                        q % 2 == 1,
                        rows == zq_matrix_rows(*c_t),
                        kappa == rows.len(),
                        kr == zq_matrix_ncols(*c_t),
                        is_rect(rows, kr as nat),
                        rows[i as int][j as int].value == 1,
                        zq_seq_wf(v@, q),
                        v@.len() == kr * m,
                        vlen == v@.len(),
                        j * m + m <= kr * m,
                        block@.len() == m,
                        forall|k: int|
                            0 <= k < m ==> (#[trigger] block@[k]).wf() && block@[k].modulus == q
                                && block@[k].value == sel_sum(
                                rows[i as int],
                                v@,
                                m as int,
                                k,
                                if k < p {
                                    j + 1
                                } else {
                                    j as int
                                },
                            ) % (q as int),
                    decreases m - p,
                {
                    let ghost total = sel_sum(rows[i as int], v@, m as int, p as int, j as int);
                    let x = block[p].add(v[j * m + p]);
                    block[p] = x;
                    proof {
                        lemma_acc_step(
                            total % (q as int),
                            total,
                            v@[j * m + p].value as int,
                            q as int,
                        );
                        vstd::arithmetic::div_mod::lemma_small_mod(
                            v@[j * m + p].value as nat,
                            q as nat,
                        );
                    }
                    p = p + 1;
                }
            } else {
                assert(rows[i as int][j as int].value != 1);
            }
            j = j + 1;
        }
        let ghost before = out@;
        let mut p: usize = 0;
        while p < m
            invariant
                p <= m,
                i < kappa,
                block@.len() == m,
                q % 2 == 1,
                rows == zq_matrix_rows(*c_t),
                kappa == rows.len(),
                kr == zq_matrix_ncols(*c_t),
                i * m + m <= kappa * m,
                before == spec_out.subrange(0, (i * m) as int),
                spec_out == kron_sel(rows, kr as int, v@, m as int, q),
                zq_seq_wf(before, q),
                forall|k: int|
                    0 <= k < m ==> (#[trigger] block@[k]).wf() && block@[k].modulus == q
                        && block@[k].value == sel_sum(rows[i as int], v@, m as int, k, kr as int)
                        % (q as int),
                out@ == spec_out.subrange(0, i * m + p),
                zq_seq_wf(out@, q),
            decreases m - p,
        {
            out.push(block[p]);
            proof {
                lemma_block_index(i as int, p as int, m as int);
                assert(out@ =~= spec_out.subrange(0, i * m + p + 1));
            }
            p = p + 1;
        }
        i = i + 1;
    }
    assert(out@ =~= spec_out);
    out
}

/// Computes `(C ⊗ I_m) · v` for `v` of `C.ncols * m` entries.
pub fn c_kron_i_dot_v(c_t: &ZqMatrix, v: &ZqVector, m: usize, q: ZqMod) -> (r: ZqVector)
    requires
        q % 2 == 1,
        is_rect(zq_matrix_rows(*c_t), zq_matrix_ncols(*c_t)),
        zq_seq_wf(v.entries(), q),
        v.entries().len() == zq_matrix_ncols(*c_t) * m,
        zq_matrix_rows(*c_t).len() * m <= usize::MAX,
    ensures
        r.entries() == kron_sel(
            zq_matrix_rows(*c_t),
            zq_matrix_ncols(*c_t) as int,
            v.entries(),
            m as int,
            q,
        ),
        zq_seq_wf(r.entries(), q),
{
    let blocks = v.to_vec();
    ZqVector::from_vec(select_blocks(c_t, &blocks, m, q))
}

/// Sum of `y[base + j] << j` for `j < len` (the gadget vector
/// `(1, 2, 4, ...)` applied to `len` entries, each shift truncated to 128
/// bits).
pub open spec fn gadget_sum(y: Seq<ZqInt>, base: int, len: int) -> int
    decreases len,
{
    if len <= 0 {
        0
    } else {
        gadget_sum(y, base, len - 1) + (y[base + len - 1].value << ((len - 1) as usize)) as int
    }
}

/// `(I_k ⊗ g^T) · y` modulo `q`: entry `t` recomposes the `log_q` entries of
/// block `t` of `y`.
pub open spec fn gadget_apply(y: Seq<ZqInt>, k: nat, log_q: int, q: u128) -> Seq<ZqInt> {
    Seq::new(k, |t: int| zq(gadget_sum(y, t * log_q, log_q) % (q as int), q))
}

/// Computes `(C ⊗ g^T) · y = (C ⊗ I_m) · ((I ⊗ g^T) · y)` for `y` of
/// `C.ncols * m * log_q` entries.
pub fn c_kron_g_dot_y(c_t: &ZqMatrix, y: &ZqVector, m: usize, q: ZqMod, log_q: usize) -> (r:
    ZqVector)
    requires
        q % 2 == 1,
        log_q <= 128,
        is_rect(zq_matrix_rows(*c_t), zq_matrix_ncols(*c_t)),
        zq_seq_wf(y.entries(), q),
        y.entries().len() == zq_matrix_ncols(*c_t) * m * log_q,
        zq_matrix_rows(*c_t).len() * m <= usize::MAX,
        zq_matrix_ncols(*c_t) * m <= usize::MAX,
    ensures
        r.entries() == kron_sel(
            zq_matrix_rows(*c_t),
            zq_matrix_ncols(*c_t) as int,
            gadget_apply(y.entries(), (zq_matrix_ncols(*c_t) * m) as nat, log_q as int, q),
            m as int,
            q,
        ),
        zq_seq_wf(r.entries(), q),
{
    let kr = c_t.ncols();
    let ylen = y.len();
    let ghost yv = y.entries();
    let ghost g = gadget_apply(yv, (kr * m) as nat, log_q as int, q);
    let mut inter: Vec<ZqInt> = Vec::new();
    let mut t: usize = 0;
    proof {
        vstd::arithmetic::div_mod::lemma_small_mod(0, q as nat);
        assert(kr * m * log_q == (kr * m) * log_q) by (nonlinear_arith);
    }
    while t < kr * m
        invariant
            t <= kr * m,
            q % 2 == 1,
            log_q <= 128,
            kr == zq_matrix_ncols(*c_t),
            kr * m <= usize::MAX,
            yv == y.entries(),
            ylen == yv.len(),
            yv.len() == (kr * m) * log_q,
            zq_seq_wf(yv, q),
            g == gadget_apply(yv, (kr * m) as nat, log_q as int, q),
            inter@ == g.subrange(0, t as int),
            zq_seq_wf(inter@, q),
        decreases kr * m - t,
    {
        assert((t + 1) * log_q <= (kr * m) * log_q) by (nonlinear_arith)
            requires
                t < kr * m,
        ;
        assert(t * log_q + log_q == (t + 1) * log_q) by (nonlinear_arith);
        let start = t * log_q;
        let mut acc = ZqInt::new(0, q);
        let mut jj: usize = 0;
        while jj < log_q
            invariant
                jj <= log_q,
                log_q <= 128,
                q % 2 == 1,
                start == t * log_q,
                start + log_q <= yv.len(),
                yv.len() <= usize::MAX,
                yv == y.entries(),
                zq_seq_wf(yv, q),
                acc.wf(),
                acc.modulus == q,
                acc.value == gadget_sum(yv, start as int, jj as int) % (q as int),
            decreases log_q - jj,
        {
            let value = y.get(start + jj).residue();
            let shifted = value << jj;
            let term = ZqInt::new(shifted, q);
            let ghost before = gadget_sum(yv, start as int, jj as int);
            acc = acc.add(term);
            proof {
                lemma_acc_step(before % (q as int), before, shifted as int, q as int);
            }
            jj = jj + 1;
        }
        inter.push(acc);
        proof {
            assert(inter@ =~= g.subrange(0, t + 1));
        }
        t = t + 1;
    }
    assert(inter@ =~= g);
    ZqVector::from_vec(select_blocks(c_t, &inter, m, q))
}

/// Bit `j` of `v`.
pub open spec fn bit(v: u128, j: int) -> bool {
    (v >> (j as u128)) % 2 == 1
}

/// The bits of the first `m` entries of `f`, `log_q` per entry, lowest bit
/// first, as `one` and `zero`.
pub open spec fn bit_decomposition(f: Seq<ZqInt>, m: nat, log_q: nat, zero: ZqInt, one: ZqInt) -> Seq<
    ZqInt,
> {
    Seq::new(
        m * log_q,
        |t: int|
            if bit(f[t / (log_q as int)].value, t % (log_q as int)) {
                one
            } else {
                zero
            },
    )
}

/// Writes the first `m` entries of `f` in binary with `log_q` bits each;
/// every entry must be below `2^log_q`.
pub fn find_low_norm_vector(
    m: usize,
    f: &ZqVector,
    zero: &ZqInt,
    one: &ZqInt,
    log_q: usize,
) -> (s: ZqVector)
    requires
        log_q < 128,
        m <= f.entries().len(),
        m * log_q <= usize::MAX,
        forall|i: int| 0 <= i < m ==> (#[trigger] f.entries()[i]).value < (1u128 << log_q),
    ensures
        s.entries() == bit_decomposition(f.entries(), m as nat, log_q as nat, *zero, *one),
{
    let max_base: u128 = 1u128 << log_q;
    let ghost fv = f.entries();
    let ghost spec_s = bit_decomposition(fv, m as nat, log_q as nat, *zero, *one);
    let mut s: Vec<ZqInt> = Vec::new();
    let mut i: usize = 0;
    while i < m
        invariant
            i <= m,
            log_q < 128,
            m <= fv.len(),
            fv == f.entries(),
            m * log_q <= usize::MAX,
            spec_s == bit_decomposition(fv, m as nat, log_q as nat, *zero, *one),
            s@ == spec_s.subrange(0, (i * log_q) as int),
        decreases m - i,
    {
        let f_i = f.get(i).residue();
        assert(i * log_q + log_q <= m * log_q) by (nonlinear_arith)
            requires
                i < m,
        ;
        let mut j: usize = 0;
        while j < log_q
            invariant
                j <= log_q,
                i < m,
                log_q < 128,
                f_i == fv[i as int].value,
                i * log_q + log_q <= m * log_q,
                spec_s == bit_decomposition(fv, m as nat, log_q as nat, *zero, *one),
                s@ == spec_s.subrange(0, i * log_q + j),
            decreases log_q - j,
        {
            let base: u128 = 1u128 << j;
            let set = f_i & base != 0;
            proof {
                assert((f_i & (1u128 << j)) != 0 <==> (f_i >> (j as u128)) % 2 == 1) by (bit_vector)
                    requires
                        j < 128,
                ;
                lemma_block_index(i as int, j as int, log_q as int);
            }
            s.push(
                if set {
                    *one
                } else {
                    *zero
                },
            );
            proof {
                assert(s@ =~= spec_s.subrange(0, i * log_q + j + 1));
            }
            j = j + 1;
        }
        assert(i * log_q + log_q == (i + 1) * log_q) by (nonlinear_arith);
        i = i + 1;
    }
    assert(s@ =~= spec_s);
    ZqVector::from_vec(s)
}

/// The coefficient vector of a batch of polynomials of degree `t`: block
/// `p` (of length `big_r`) holds the coefficients of polynomial `p` padded
/// with zeros, and blocks past the last polynomial are zero, up to `total`
/// entries.
pub open spec fn f_vector(polys: Seq<Polynomial>, big_r: int, total: nat, t: int, q: u128) -> Seq<
    ZqInt,
> {
    Seq::new(
        total,
        |j: int|
            if j / big_r < polys.len() && j % big_r <= t {
                polys[j / big_r].coeffs()[j % big_r]
            } else {
                zq(0, q)
            },
    )
}

/// Lays the coefficients of the polynomials out in one vector of
/// `r^(ell+1) * kappa * n` entries, each polynomial in a block of
/// `r^(ell+1)` entries.  All polynomials must share one degree `t` with
/// `t + 1 <= r^(ell+1)`, and there must be between 1 and `kappa * n` of them.
pub fn generate_f_vector(
    r: usize,
    ell: usize,
    kappa: usize,
    n: usize,
    modulus: ZqMod,
    polynomials: Vec<Polynomial>,
) -> (f: ZqVector)
    requires
        modulus % 2 == 1,
        ell < usize::MAX,
        pow(r as int, (ell + 1) as nat) * kappa * n <= usize::MAX,
        kappa * n <= usize::MAX,
        1 <= polynomials@.len() <= kappa * n,
        forall|p: int|
            0 <= p < polynomials@.len() ==> (#[trigger] polynomials@[p]).wf()
                && polynomials@[p].spec_modulus() == modulus,
        forall|p: int|
            0 <= p < polynomials@.len() ==> (#[trigger] polynomials@[p]).coeffs().len()
                == polynomials@[0].coeffs().len(),
        polynomials@[0].coeffs().len() <= pow(r as int, (ell + 1) as nat),
    ensures
        f.entries() == f_vector(
            polynomials@,
            pow(r as int, (ell + 1) as nat),
            (pow(r as int, (ell + 1) as nat) * kappa * n) as nat,
            polynomials@[0].coeffs().len() - 1,
            modulus,
        ),
        zq_seq_wf(f.entries(), modulus),
{
    let ghost big = pow(r as int, (ell + 1) as nat);
    proof {
        if r == 0 {
            reveal(pow);
            assert(pow(0, (ell + 1) as nat) == 0 * pow(0, ell as nat));
        }
        vstd::arithmetic::power::lemma_pow_positive(r as int, (ell + 1) as nat);
        assert(big <= big * kappa * n && big * kappa <= big * kappa * n) by (nonlinear_arith)
            requires
                big >= 1,
                kappa * n >= 1,
        ;
    }
    let r_pow = upow(r, ell + 1);
    let total_length = r_pow * kappa * n;
    let k = polynomials.len();
    let t = polynomials[0].degree();
    let coeff_count = t + 1;
    let zero = ZqInt::new(0, modulus);
    proof {
        vstd::arithmetic::div_mod::lemma_small_mod(0, modulus as nat);
        assert(k * r_pow <= total_length) by (nonlinear_arith)
            requires
                k <= kappa * n,
                total_length == r_pow * kappa * n,
                r_pow >= 0,
        ;
    }
    let ghost spec_f = f_vector(polynomials@, big, total_length as nat, t as int, modulus);
    let mut coeffs: Vec<ZqInt> = Vec::new();
    let mut p: usize = 0;
    while p < k
        invariant
            p <= k,
            k == polynomials@.len(),
            r_pow == big,
            big >= 1,
            t + 1 == coeff_count,
            coeff_count <= r_pow,
            k * r_pow <= total_length,
            zero == zq(0, modulus),
            modulus % 2 == 1,
            forall|pp: int|
                0 <= pp < polynomials@.len() ==> (#[trigger] polynomials@[pp]).wf()
                    && polynomials@[pp].spec_modulus() == modulus,
            forall|pp: int|
                0 <= pp < polynomials@.len() ==> (#[trigger] polynomials@[pp]).coeffs().len()
                    == t + 1,
            spec_f == f_vector(polynomials@, big, total_length as nat, t as int, modulus),
            coeffs@ == spec_f.subrange(0, p * r_pow),
            zq_seq_wf(coeffs@, modulus),
        decreases k - p,
    {
        assert((p + 1) * r_pow <= k * r_pow) by (nonlinear_arith)
            requires
                p < k,
                r_pow >= 0,
        ;
        assert(p * r_pow + r_pow == (p + 1) * r_pow) by (nonlinear_arith);
        let poly = &polynomials[p];
        let mut i: usize = 0;
        while i < r_pow
            invariant
                i <= r_pow,
                p < k,
                k == polynomials@.len(),
                r_pow == big,
                big >= 1,
                t + 1 == coeff_count,
                coeff_count <= r_pow,
                p * r_pow + r_pow <= k * r_pow,
                k * r_pow <= total_length,
                zero == zq(0, modulus),
                *poly == polynomials@[p as int],
                poly.wf(),
                poly.spec_modulus() == modulus,
                poly.coeffs().len() == t + 1,
                spec_f == f_vector(polynomials@, big, total_length as nat, t as int, modulus),
                coeffs@ == spec_f.subrange(0, p * r_pow + i),
                zq_seq_wf(coeffs@, modulus),
            decreases r_pow - i,
        {
            proof {
                lemma_block_index(p as int, i as int, r_pow as int);
            }
            if i < coeff_count {
                coeffs.push(poly.get_coeff(i));
            } else {
                coeffs.push(zero);
            }
            proof {
                assert(coeffs@ =~= spec_f.subrange(0, p * r_pow + i + 1));
            }
            i = i + 1;
        }
        p = p + 1;
    }
    let mut j: usize = k * r_pow;
    while j < total_length
        invariant
            k * r_pow <= j <= total_length,
            k == polynomials@.len(),
            r_pow == big,
            big >= 1,
            zero == zq(0, modulus),
            modulus % 2 == 1,
            spec_f == f_vector(polynomials@, big, total_length as nat, t as int, modulus),
            coeffs@ == spec_f.subrange(0, j as int),
            zq_seq_wf(coeffs@, modulus),
        decreases total_length - j,
    {
        proof {
            assert((j as int) / (r_pow as int) >= k) by (nonlinear_arith)
                requires
                    j >= k * r_pow,
                    r_pow >= 1,
            {
                vstd::arithmetic::div_mod::lemma_div_is_ordered(k * r_pow, j as int, r_pow as int);
                vstd::arithmetic::div_mod::lemma_div_multiples_vanish(k as int, r_pow as int);
            }
        }
        coeffs.push(zero);
        proof {
            assert(coeffs@ =~= spec_f.subrange(0, j + 1));
        }
        j = j + 1;
    }
    assert(coeffs@ =~= spec_f);
    ZqVector::from_vec(coeffs)
}

/// The residues of `s`, each as 16 little-endian bytes, one after another.
pub open spec fn residues_le(s: Seq<ZqInt>) -> Seq<u8>
    decreases s.len(),
{
    if s.len() == 0 {
        Seq::empty()
    } else {
        residues_le(s.drop_last()) + le_bytes(s.last().value as nat, 16)
    }
}

/// [`residues_le`] of each vector in turn.
pub open spec fn residues_le_all(xs: Seq<Seq<ZqInt>>) -> Seq<u8>
    decreases xs.len(),
{
    if xs.len() == 0 {
        Seq::empty()
    } else {
        residues_le_all(xs.drop_last()) + residues_le(xs.last())
    }
}

/// The entries of each vector of a list.
pub open spec fn vectors_entries(xs: Seq<ZqVector>) -> Seq<Seq<ZqInt>> {
    xs.map_values(|v: ZqVector| v.entries())
}

/// The transcript hashed for a challenge: `t`, `u`, the evaluation vectors,
/// `y` and `v`, residues in 16 little-endian bytes each.
pub open spec fn fs_prefix(
    t: Seq<ZqInt>,
    u: Seq<ZqInt>,
    xs: Seq<Seq<ZqInt>>,
    y: Seq<ZqInt>,
    v: Seq<ZqInt>,
) -> Seq<u8> {
    residues_le(t) + residues_le(u) + residues_le_all(xs) + residues_le(y) + residues_le(v)
}

/// Byte `k` of the stream `H(prefix ‖ 0) ‖ H(prefix ‖ 1) ‖ ...`, the counter
/// in 4 little-endian bytes.
pub open spec fn fs_byte(prefix: Seq<u8>, k: int) -> u8 {
    spec_sha256(prefix + le_bytes((k / 32) as nat, 4))[k % 32]
}

/// Bit `k` of that stream, lowest bit of each byte first.
pub open spec fn fs_bit(prefix: Seq<u8>, k: int) -> u8 {
    (fs_byte(prefix, k / 8) >> ((k % 8) as u8)) & 1
}

/// The rows of the challenge matrix for a transcript: `kappa` rows of
/// `r * kappa` bits, entry `(i, j)` being bit `j + i * r * kappa` of the
/// stream, reduced modulo `q`.
pub open spec fn fs_rows(prefix: Seq<u8>, r: nat, kappa: nat, q: u128) -> Seq<Seq<ZqInt>> {
    Seq::new(
        kappa,
        |i: int| Seq::new(r * kappa, |j: int| zq(fs_bit(prefix, j + i * (r * kappa)) as int % (q as int), q)),
    )
}

/// Appends the residues of `v` as 16 little-endian bytes each.
fn push_residues(v: &ZqVector, out: &mut Vec<u8>)
    ensures
        final(out)@ == old(out)@ + residues_le(v.entries()),
{
    let n = v.len();
    let ghost start = out@;
    let mut i: usize = 0;
    while i < n
        invariant
            i <= n,
            n == v.entries().len(),
            out@ == start + residues_le(v.entries().subrange(0, i as int)),
        decreases n - i,
    {
        push_le(v.get(i).residue(), 16, out);
        proof {
            let s = v.entries().subrange(0, i + 1);
            assert(s.drop_last() =~= v.entries().subrange(0, i as int));
            assert(out@ =~= start + residues_le(s));
        }
        i = i + 1;
    }
    assert(v.entries().subrange(0, n as int) =~= v.entries());
}

/// The Fiat-Shamir challenge: a `kappa x (r * kappa)` matrix of bits taken
/// from SHA-256 of the transcript (`t`, `u`, the evaluation vectors, `y`,
/// `v`) with a counter; entry `(i, j)` is bit `j + i * r * kappa` of the
/// stream, reduced modulo `q`.
pub fn generate_fiat_shamir_challenge_matrix(
    t: &ZqVector,
    u: &ZqVector,
    x_vecs: &Vec<ZqVector>,
    y: &ZqVector,
    v: &ZqVector,
    r: usize,
    kappa: usize,
    q: ZqMod,
) -> (c: ZqMatrix)
    requires
        q % 2 == 1,
        r * kappa * kappa + 7 <= 256 * 0xffff_ffff,
        r * kappa * kappa + 7 <= usize::MAX,
    ensures
        zq_matrix_rows(c).len() == kappa,
        zq_matrix_ncols(c) == r * kappa,
        is_rect(zq_matrix_rows(c), zq_matrix_ncols(c)),
        zq_matrix_rows(c) == fs_rows(
            fs_prefix(t.entries(), u.entries(), vectors_entries(x_vecs@), y.entries(), v.entries()),
            r as nat,
            kappa as nat,
            q,
        ),
        forall|i: int, j: int|
            0 <= i < kappa && 0 <= j < r * kappa ==> #[trigger] zq_matrix_rows(c)[i][j] == zq(
                fs_bit(
                    fs_prefix(
                        t.entries(),
                        u.entries(),
                        vectors_entries(x_vecs@),
                        y.entries(),
                        v.entries(),
                    ),
                    j + i * (r * kappa),
                ) as int % (q as int),
                q,
            ),
{
    assert(r * kappa * kappa == (r * kappa) * kappa) by (nonlinear_arith);
    assert(r * kappa <= r * kappa * kappa || kappa == 0) by (nonlinear_arith);
    let rows = r * kappa;
    let cols = kappa;
    let total_bits = rows * cols;
    let total_bytes = (total_bits + 7) / 8;
    let mut prefix: Vec<u8> = Vec::new();
    push_residues(t, &mut prefix);
    push_residues(u, &mut prefix);
    let ghost xs = vectors_entries(x_vecs@);
    let ghost before_x = prefix@;
    let mut k: usize = 0;
    while k < x_vecs.len()
        invariant
            k <= x_vecs.len(),
            xs == vectors_entries(x_vecs@),
            prefix@ == before_x + residues_le_all(xs.subrange(0, k as int)),
        decreases x_vecs.len() - k,
    {
        push_residues(&x_vecs[k], &mut prefix);
        proof {
            let s = xs.subrange(0, k + 1);
            assert(s.drop_last() =~= xs.subrange(0, k as int));
            assert(s.last() == x_vecs@[k as int].entries());
            assert(prefix@ =~= before_x + residues_le_all(s));
        }
        k = k + 1;
    }
    assert(xs.subrange(0, x_vecs@.len() as int) =~= xs);
    push_residues(y, &mut prefix);
    push_residues(v, &mut prefix);
    let ghost pre = fs_prefix(t.entries(), u.entries(), xs, y.entries(), v.entries());
    assert(prefix@ =~= pre);
    let count = ((total_bytes + 31) / 32) as u32;
    let blocks = sha256_counter_blocks(&prefix, count);
    let mut bytes: Vec<u8> = Vec::new();
    let mut k: usize = 0;
    while k < total_bytes
        invariant
            k <= total_bytes,
            total_bytes <= 32 * 0xffff_ffff,
            count == (total_bytes + 31) / 32,
            blocks@.len() == count,
            forall|c: int| 0 <= c < count ==> #[trigger] blocks@[c]@ == spec_sha256(pre + le_bytes(c as nat, 4)),
            bytes@.len() == k,
            forall|b: int| 0 <= b < k ==> #[trigger] bytes@[b] == fs_byte(pre, b),
        decreases total_bytes - k,
    {
        let block = k / 32;
        assert(blocks@[block as int]@ == spec_sha256(pre + le_bytes(block as nat, 4)));
        bytes.push(blocks[block][k % 32]);
        k = k + 1;
    }
    let mut data: Vec<ZqInt> = Vec::new();
    let mut d: usize = 0;
    while d < total_bits
        invariant
            d <= total_bits,
            total_bits == rows * cols,
            total_bytes == (total_bits + 7) / 8,
            bytes@.len() == total_bytes,
            q % 2 == 1,
            forall|b: int| 0 <= b < bytes@.len() ==> #[trigger] bytes@[b] == fs_byte(pre, b),
            data@.len() == d,
            forall|z: int| 0 <= z < d ==> #[trigger] data@[z] == zq(fs_bit(pre, z) as int % (q as int), q),
        decreases total_bits - d,
    {
        let byte = bytes[d / 8];
        let bit: u8 = (byte >> ((d % 8) as u8)) & 1;
        data.push(ZqInt::new(bit as u128, q));
        d = d + 1;
    }
    let m = ZqMatrix::from_column_major(rows, cols, data);
    let c = m.transpose();
    proof {
        assert forall|i: int, j: int| 0 <= i < kappa && 0 <= j < r * kappa implies #[trigger] zq_matrix_rows(c)[i][j] == zq(
            fs_bit(pre, j + i * (r * kappa)) as int % (q as int),
            q,
        ) by {
            assert(zq_matrix_rows(c)[i][j] == zq_matrix_rows(m)[j][i]);
            assert(j + i * (r * kappa) < rows * cols) by (nonlinear_arith)
                requires
                    0 <= i < kappa,
                    0 <= j < r * kappa,
                    rows == r * kappa,
                    cols == kappa,
            ;
        }
        let fr = fs_rows(pre, r as nat, kappa as nat, q);
        assert forall|i: int| 0 <= i < kappa implies #[trigger] zq_matrix_rows(c)[i] =~= fr[i] by {
            assert forall|j: int| 0 <= j < r * kappa implies zq_matrix_rows(c)[i][j] == fr[i][j] by {
                assert(zq_matrix_rows(c)[i][j] == zq(
                    fs_bit(pre, j + i * (r * kappa)) as int % (q as int),
                    q,
                ));
            }
        }
        assert(zq_matrix_rows(c) =~= fr);
    }
    c
}

/// `r^e`, `r^e * kappa` and `r^e * kappa * n` fit a `usize`.
pub open spec fn level_fits(r: usize, e: nat, kappa: usize, n: usize) -> bool {
    &&& pow(r as int, e) <= usize::MAX
    &&& pow(r as int, e) * kappa <= usize::MAX
    &&& pow(r as int, e) * kappa * n <= usize::MAX
}

/// Sizes at a lower level fit when those at a higher level do.
pub proof fn lemma_level_fits_lower(r: usize, e1: nat, e2: nat, kappa: usize, n: usize)
    requires
        e1 <= e2,
        level_fits(r, e2, kappa, n),
        kappa * n <= usize::MAX,
    ensures
        level_fits(r, e1, kappa, n),
{
    if r >= 1 {
        lemma_pow_increases(r as nat, e1, e2);
        let a = pow(r as int, e1);
        let b = pow(r as int, e2);
        vstd::arithmetic::power::lemma_pow_positive(r as int, e1);
        assert(a * kappa <= b * kappa && a * kappa * n <= b * kappa * n) by (nonlinear_arith)
            requires
                0 <= a <= b,
                kappa >= 0,
                n >= 0,
        ;
    } else {
        reveal(pow);
        if e1 == 0 {
            assert(pow(r as int, e1) == 1);
        } else {
            assert(pow(r as int, e1) == r * pow(r as int, (e1 - 1) as nat));
        }
        let a = pow(r as int, e1);
        assert(a * kappa <= kappa && a * kappa * n <= kappa * n) by (nonlinear_arith)
            requires
                a == 0 || a == 1,
                kappa >= 0,
                n >= 0,
        ;
    }
}

/// `r^(e+1) * kappa * n == (r^e * kappa * n) * r`.
pub proof fn lemma_level_next(r: usize, e: nat, kappa: usize, n: usize)
    ensures
        pow(r as int, e + 1) * kappa * n == (pow(r as int, e) * kappa * n) * r,
{
    reveal(pow);
    assert(pow(r as int, e + 1) == r * pow(r as int, e));
    let a = pow(r as int, e);
    assert((r * a) * kappa * n == (a * kappa * n) * r) by (nonlinear_arith);
}

/// `r^e * kappa * n`.
fn level_size(r: usize, e: usize, kappa: usize, n: usize) -> (s: usize)
    requires
        level_fits(r, e as nat, kappa, n),
    ensures
        s == pow(r as int, e as nat) * kappa * n,
{
    let p = upow(r, e);
    p * kappa * n
}

/// The evaluation vectors, their entries all reduced modulo `q` and `r` of
/// them per vector.
pub open spec fn x_vectors_wf(xs: Seq<Seq<ZqInt>>, r: usize, q: u128) -> bool {
    forall|i: int| 0 <= i < xs.len() ==> (#[trigger] xs[i]).len() == r && zq_seq_wf(xs[i], q)
}

/// Folding `f` with the evaluation vectors `x[ell_begin - ell]`,
/// `x[ell_begin - ell + 1]`, ..., `x[ell_begin]`: at level `e` the vector of
/// `r^(e+1) * kappa * n` entries shrinks to `r^e * kappa * n`.
pub open spec fn poly_eval(
    f: Seq<ZqInt>,
    x: Seq<Seq<ZqInt>>,
    r: usize,
    ell: nat,
    ell_begin: nat,
    kappa: usize,
    n: usize,
    q: u128,
) -> Seq<ZqInt>
    decreases ell,
{
    let ul = kron_vec_dot(
        x[ell_begin - ell],
        f,
        (pow(r as int, ell) * kappa * n) as nat,
        q,
    );
    if ell == 0 {
        ul
    } else {
        poly_eval(ul, x, r, (ell - 1) as nat, ell_begin, kappa, n, q)
    }
}

/// Evaluates the committed polynomials: folds `f` level by level with the
/// evaluation vectors (see [`poly_eval`]).
pub fn generate_polynomial_evaluation(
    f: ZqVector,
    x: &Vec<ZqVector>,
    r: usize,
    ell: usize,
    ell_begin: usize,
    kappa: usize,
    n: usize,
    q: ZqMod,
) -> (u: ZqVector)
    requires
        q % 2 == 1,
        ell <= ell_begin < x@.len(),
        x_vectors_wf(vectors_entries(x@), r, q),
        zq_seq_wf(f.entries(), q),
        f.entries().len() == pow(r as int, (ell + 1) as nat) * kappa * n,
        level_fits(r, ell as nat, kappa, n),
        kappa * n <= usize::MAX,
    ensures
        u.entries() == poly_eval(f.entries(), vectors_entries(x@), r, ell as nat, ell_begin as nat, kappa, n, q),
        zq_seq_wf(u.entries(), q),
        u.entries().len() == kappa * n,
    decreases ell,
{
    let x_l = &x[ell_begin - ell];
    let k = level_size(r, ell, kappa, n);
    proof {
        lemma_level_next(r, ell as nat, kappa, n);
        assert(vectors_entries(x@)[ell_begin - ell] == x_l.entries());
        assert(f.entries().len() == k * x_l.entries().len()) by (nonlinear_arith)
            requires
                f.entries().len() == pow(r as int, (ell + 1) as nat) * kappa * n,
                pow(r as int, (ell + 1) as nat) * kappa * n == (pow(r as int, ell as nat) * kappa * n) * r,
                k == pow(r as int, ell as nat) * kappa * n,
                x_l.entries().len() == r,
        ;
    }
    let ul = i_kron_vec_dot_vec(x_l, &f, k, q);
    proof {
        assert forall|i: int| 0 <= i < ul.entries().len() implies (#[trigger] ul.entries()[i]).wf()
            && ul.entries()[i].modulus == q by {
            vstd::arithmetic::div_mod::lemma_mod_bound(
                dot(x_l.entries(), f.entries().subrange(i * r, i * r + r), r as int),
                q as int,
            );
        }
    }
    if ell == 0 {
        proof {
            reveal(pow);
            assert(pow(r as int, 0) == 1);
        }
        return ul;
    }
    proof {
        lemma_level_fits_lower(r, (ell - 1) as nat, ell as nat, kappa, n);
    }
    generate_polynomial_evaluation(ul, x, r, ell - 1, ell_begin, kappa, n, q)
}

/// Folding `f` with the evaluation vectors for levels `ell` down to
/// `ell_end`; at level `e` the vector shrinks to `r^(e - ell_end + 1) *
/// kappa * n` entries.
pub open spec fn v_fold(
    f: Seq<ZqInt>,
    x: Seq<Seq<ZqInt>>,
    r: usize,
    ell: int,
    ell_begin: int,
    ell_end: int,
    kappa: usize,
    n: usize,
    q: u128,
) -> Seq<ZqInt>
    decreases ell - ell_end,
{
    if ell < ell_end {
        f
    } else {
        let res = kron_vec_dot(
            x[ell_begin - ell],
            f,
            (pow(r as int, (ell - ell_end + 1) as nat) * kappa * n) as nat,
            q,
        );
        if ell == ell_end {
            res
        } else {
            v_fold(res, x, r, ell - 1, ell_begin, ell_end, kappa, n, q)
        }
    }
}

/// One folding level of [`v_fold`].
fn v_step(
    f: &ZqVector,
    x: &Vec<ZqVector>,
    r: usize,
    e: usize,
    ell_begin: usize,
    ell_end: usize,
    kappa: usize,
    n: usize,
    q: ZqMod,
) -> (res: ZqVector)
    requires
        q % 2 == 1,
        ell_end <= e <= ell_begin,
        ell_begin - ell_end < x@.len(),
        x_vectors_wf(vectors_entries(x@), r, q),
        zq_seq_wf(f.entries(), q),
        f.entries().len() == pow(r as int, (e - ell_end + 2) as nat) * kappa * n,
        level_fits(r, (e - ell_end + 1) as nat, kappa, n),
    ensures
        res.entries() == kron_vec_dot(
            vectors_entries(x@)[ell_begin - e],
            f.entries(),
            (pow(r as int, (e - ell_end + 1) as nat) * kappa * n) as nat,
            q,
        ),
        zq_seq_wf(res.entries(), q),
        res.entries().len() == pow(r as int, (e - ell_end + 1) as nat) * kappa * n,
{
    let _xlen = x.len();
    let x_l = &x[ell_begin - e];
    let k = level_size(r, e - ell_end + 1, kappa, n);
    proof {
        lemma_level_next(r, (e - ell_end + 1) as nat, kappa, n);
        assert(vectors_entries(x@)[ell_begin - e] == x_l.entries());
        assert(f.entries().len() == k * x_l.entries().len()) by (nonlinear_arith)
            requires
                f.entries().len() == pow(r as int, (e - ell_end + 2) as nat) * kappa * n,
                pow(r as int, (e - ell_end + 2) as nat) * kappa * n == (pow(
                    r as int,
                    (e - ell_end + 1) as nat,
                ) * kappa * n) * r,
                k == pow(r as int, (e - ell_end + 1) as nat) * kappa * n,
                x_l.entries().len() == r,
        ;
    }
    let res = i_kron_vec_dot_vec(x_l, f, k, q);
    proof {
        assert forall|i: int| 0 <= i < res.entries().len() implies (#[trigger] res.entries()[i]).wf()
            && res.entries()[i].modulus == q by {
            vstd::arithmetic::div_mod::lemma_mod_bound(
                dot(x_l.entries(), f.entries().subrange(i * r, i * r + r), r as int),
                q as int,
            );
        }
    }
    res
}

/// Folds `f` with the evaluation vectors for levels `ell` down to
/// `ell_end` (see [`v_fold`]).
pub fn generate_v(
    f: ZqVector,
    x: &Vec<ZqVector>,
    r: usize,
    ell: usize,
    ell_begin: usize,
    ell_end: usize,
    kappa: usize,
    n: usize,
    q: ZqMod,
) -> (v: ZqVector)
    requires
        q % 2 == 1,
        ell <= ell_begin,
        ell >= ell_end ==> ell_begin - ell_end < x@.len(),
        x_vectors_wf(vectors_entries(x@), r, q),
        zq_seq_wf(f.entries(), q),
        ell >= ell_end ==> f.entries().len() == pow(r as int, (ell - ell_end + 2) as nat) * kappa * n,
        ell >= ell_end ==> level_fits(r, (ell - ell_end + 1) as nat, kappa, n),
        kappa * n <= usize::MAX,
    ensures
        v.entries() == v_fold(
            f.entries(),
            vectors_entries(x@),
            r,
            ell as int,
            ell_begin as int,
            ell_end as int,
            kappa,
            n,
            q,
        ),
        zq_seq_wf(v.entries(), q),
        ell >= ell_end ==> v.entries().len() == pow(r as int, 1) * kappa * n,
{
    if ell < ell_end {
        return f;
    }
    let ghost xs = vectors_entries(x@);
    let ghost target = v_fold(f.entries(), xs, r, ell as int, ell_begin as int, ell_end as int, kappa, n, q);
    let mut result = f;
    let mut e = ell;
    while e > ell_end
        invariant
            q % 2 == 1,
            ell_end <= e <= ell <= ell_begin,
            ell_begin - ell_end < x@.len(),
            xs == vectors_entries(x@),
            x_vectors_wf(xs, r, q),
            zq_seq_wf(result.entries(), q),
            result.entries().len() == pow(r as int, (e - ell_end + 2) as nat) * kappa * n,
            level_fits(r, (ell - ell_end + 1) as nat, kappa, n),
            kappa * n <= usize::MAX,
            v_fold(result.entries(), xs, r, e as int, ell_begin as int, ell_end as int, kappa, n, q)
                == target,
        decreases e - ell_end,
    {
        proof {
            lemma_level_fits_lower(r, (e - ell_end + 1) as nat, (ell - ell_end + 1) as nat, kappa, n);
        }
        result = v_step(&result, x, r, e, ell_begin, ell_end, kappa, n, q);
        e = e - 1;
    }
    proof {
        lemma_level_fits_lower(r, 1, (ell - ell_end + 1) as nat, kappa, n);
    }
    v_step(&result, x, r, e, ell_begin, ell_end, kappa, n, q)
}

/// A size bound at level `e2` bounds the size at a lower level `e1 >= 1`.
pub proof fn lemma_fits_scaled(r: usize, e1: nat, e2: nat, kappa: int, n: int, log_q: int)
    requires
        1 <= e1 <= e2,
        kappa >= 0,
        n >= 0,
        log_q >= 0,
        pow(r as int, e2) * kappa * n * log_q <= usize::MAX,
    ensures
        pow(r as int, e1) * kappa * n * log_q <= usize::MAX,
{
    let a = pow(r as int, e1);
    let b = pow(r as int, e2);
    if r >= 1 {
        lemma_pow_increases(r as nat, e1, e2);
        vstd::arithmetic::power::lemma_pow_positive(r as int, e1);
    } else {
        reveal(pow);
        assert(a == r * pow(r as int, (e1 - 1) as nat));
        assert(b == r * pow(r as int, (e2 - 1) as nat));
    }
    assert(a * kappa * n * log_q <= b * kappa * n * log_q) by (nonlinear_arith)
        requires
            0 <= a <= b,
            kappa >= 0,
            n >= 0,
            log_q >= 0,
    ;
}

/// The bits of the first `r^(i+1) * kappa * n` entries of `t`, `log_q` per
/// entry (the low-norm opening at level `i`).
pub open spec fn commit_bits(t: Seq<ZqInt>, r: usize, i: nat, kappa: usize, n: usize, log_q: usize, q: u128) -> Seq<
    ZqInt,
> {
    bit_decomposition(
        t,
        (pow(r as int, i + 1) * kappa * n) as nat,
        log_q as nat,
        zq(0, q),
        zq(1int % (q as int), q),
    )
}

/// Level `i` of the commitment: `(I ⊗ A)` times the bits of `t`.
pub open spec fn commit_level(
    t: Seq<ZqInt>,
    rows: Seq<Seq<ZqInt>>,
    m: int,
    r: usize,
    i: nat,
    kappa: usize,
    n: usize,
    log_q: usize,
    q: u128,
) -> Seq<ZqInt> {
    kron_mat_dot(
        rows,
        m,
        commit_bits(t, r, i, kappa, n, log_q, q),
        (pow(r as int, i) * kappa) as nat,
        zq(0, q),
    )
}

/// The commitment after levels `ell` down to `i` (`f` itself when `i > ell`).
pub open spec fn commit_t(
    f: Seq<ZqInt>,
    rows: Seq<Seq<ZqInt>>,
    m: int,
    r: usize,
    i: int,
    ell: int,
    kappa: usize,
    n: usize,
    log_q: usize,
    q: u128,
) -> Seq<ZqInt>
    decreases ell + 1 - i,
{
    if i > ell || i < 0 {
        f
    } else {
        commit_level(
            commit_t(f, rows, m, r, i + 1, ell, kappa, n, log_q, q),
            rows,
            m,
            r,
            i as nat,
            kappa,
            n,
            log_q,
            q,
        )
    }
}

/// Commits to `f`: for `i = ell, ..., 0` the current vector is written in
/// binary (the opening `s_i`, stored at `s_vectors[i]`) and multiplied by
/// `I ⊗ A`.
pub fn generate_t(
    f: &ZqVector,
    s_vectors: &mut Vec<Option<ZqVector>>,
    r: usize,
    ell: usize,
    kappa: usize,
    n: usize,
    q: ZqMod,
    log_q: usize,
    a: &ZqMatrix,
) -> (t: ZqVector)
    requires
        q % 2 == 1,
        log_q < 128,
        q <= (1u128 << log_q),
        matrix_wf(*a, q),
        zq_matrix_rows(*a).len() == n,
        zq_matrix_ncols(*a) == r * n * log_q,
        zq_seq_wf(f.entries(), q),
        f.entries().len() == pow(r as int, (ell + 1) as nat) * kappa * n,
        old(s_vectors)@.len() == ell + 1,
        level_fits(r, (ell + 1) as nat, kappa, n),
        pow(r as int, (ell + 1) as nat) * kappa * n * log_q <= usize::MAX,
        kappa * n <= usize::MAX,
    ensures
        t.entries() == commit_t(
            f.entries(),
            zq_matrix_rows(*a),
            zq_matrix_ncols(*a) as int,
            r,
            0,
            ell as int,
            kappa,
            n,
            log_q,
            q,
        ),
        zq_seq_wf(t.entries(), q),
        t.entries().len() == kappa * n,
        final(s_vectors)@.len() == ell + 1,
        forall|i: int|
            0 <= i <= ell ==> (#[trigger] final(s_vectors)@[i]) is Some && final(s_vectors)@[i]->0.entries()
                == commit_bits(
                commit_t(
                    f.entries(),
                    zq_matrix_rows(*a),
                    zq_matrix_ncols(*a) as int,
                    r,
                    i + 1,
                    ell as int,
                    kappa,
                    n,
                    log_q,
                    q,
                ),
                r,
                i as nat,
                kappa,
                n,
                log_q,
                q,
            ),
{
    let ghost rows = zq_matrix_rows(*a);
    let ghost m = zq_matrix_ncols(*a) as int;
    let ghost fv = f.entries();
    let zero = ZqInt::new(0, q);
    let one = ZqInt::new(1, q);
    let _slots = s_vectors.len();
    let mut t = f.duplicate();
    let mut i: usize = ell + 1;
    proof {
        vstd::arithmetic::div_mod::lemma_small_mod(0, q as nat);
    }
    while i > 0
        invariant
            i <= ell + 1,
            q % 2 == 1,
            log_q < 128,
            q <= (1u128 << log_q),
            zero == zq(0, q),
            one == zq(1int % (q as int), q),
            matrix_wf(*a, q),
            rows == zq_matrix_rows(*a),
            m == zq_matrix_ncols(*a),
            rows.len() == n,
            m == r * n * log_q,
            fv == f.entries(),
            zq_seq_wf(t.entries(), q),
            t.entries().len() == pow(r as int, i as nat) * kappa * n,
            t.entries() == commit_t(fv, rows, m, r, i as int, ell as int, kappa, n, log_q, q),
            s_vectors@.len() == ell + 1,
            level_fits(r, (ell + 1) as nat, kappa, n),
            pow(r as int, (ell + 1) as nat) * kappa * n * log_q <= usize::MAX,
            kappa * n <= usize::MAX,
            forall|j: int|
                i <= j <= ell ==> (#[trigger] s_vectors@[j]) is Some && s_vectors@[j]->0.entries()
                    == commit_bits(
                    commit_t(fv, rows, m, r, j + 1, ell as int, kappa, n, log_q, q),
                    r,
                    j as nat,
                    kappa,
                    n,
                    log_q,
                    q,
                ),
        decreases i,
    {
        i = i - 1;
        proof {
            lemma_level_fits_lower(r, i as nat, (ell + 1) as nat, kappa, n);
            lemma_level_fits_lower(r, (i + 1) as nat, (ell + 1) as nat, kappa, n);
            if r >= 1 {
                lemma_pow_increases(r as nat, (i + 1) as nat, (ell + 1) as nat);
            }
            lemma_fits_scaled(r, (i + 1) as nat, (ell + 1) as nat, kappa as int, n as int, log_q as int);
        }
        let k = upow(r, i) * kappa;
        let l = level_size(r, i + 1, kappa, n);
        proof {
            assert forall|z: int| 0 <= z < l implies (#[trigger] t.entries()[z]).value < (1u128 << log_q) by {
                assert(t.entries()[z].wf());
            }
        }
        let s = find_low_norm_vector(l, &t, &zero, &one, log_q);
        proof {
            let bits = commit_bits(t.entries(), r, i as nat, kappa, n, log_q, q);
            assert(s.entries() == bits);
            lemma_level_next(r, i as nat, kappa, n);
            assert(s.entries().len() == k * m) by (nonlinear_arith)
                requires
                    s.entries().len() == l * log_q,
                    l == pow(r as int, (i + 1) as nat) * kappa * n,
                    pow(r as int, (i + 1) as nat) * kappa * n == (pow(r as int, i as nat) * kappa * n) * r,
                    k == pow(r as int, i as nat) * kappa,
                    m == r * n * log_q,
            ;
            assert forall|z: int| 0 <= z < s.entries().len() implies (#[trigger] s.entries()[z]).wf()
                && s.entries()[z].modulus == q by {
                vstd::arithmetic::div_mod::lemma_mod_bound(1, q as int);
            }
            assert(k * n == pow(r as int, i as nat) * kappa * n);
        }
        let next = i_kron_a_dot_s(a, &s, k, &zero, &one);
        proof {
            assert forall|z: int| 0 <= z < next.entries().len() implies (#[trigger] next.entries()[z]).wf()
                && next.entries()[z].modulus == q by {
                vstd::arithmetic::div_mod::lemma_mod_bound(
                    zero.value + dot(
                        rows[z % (n as int)],
                        s.entries().subrange((z / (n as int)) * m, (z / (n as int)) * m + m),
                        m,
                    ),
                    q as int,
                );
            }
        }
        s_vectors[i] = Some(s);
        t = next;
    }
    proof {
        reveal(pow);
        assert(pow(r as int, 0) == 1);
    }
    t
}

/// One opening of the evaluation proof: the short vector `y` and the
/// folded evaluation `v` of a round.
pub struct ProofUnit {
    pub y: ZqVector,
    pub v: ZqVector,
}

/// The residues of a sequence of ring elements.
pub open spec fn residue_seq(s: Seq<ZqInt>) -> Seq<u128> {
    s.map_values(|z: ZqInt| z.value)
}

/// The ring elements `r mod q` for the residues `r` of a sequence.
pub open spec fn reduce_seq(s: Seq<u128>, q: u128) -> Seq<ZqInt> {
    s.map_values(|x: u128| zq(x as int % (q as int), q))
}

/// The entries of each opening of a proof.
pub open spec fn proof_views(p: Seq<ProofUnit>) -> Seq<(Seq<ZqInt>, Seq<ZqInt>)> {
    p.map_values(|u: ProofUnit| (u.y.entries(), u.v.entries()))
}

/// The residues of a vector.
fn residues_of(v: &ZqVector) -> (out: Vec<ZqMod>)
    ensures
        out@ == residue_seq(v.entries()),
{
    let n = v.len();
    let mut out: Vec<ZqMod> = Vec::new();
    let mut i: usize = 0;
    while i < n
        invariant
            i <= n,
            n == v.entries().len(),
            out@ == residue_seq(v.entries()).subrange(0, i as int),
        decreases n - i,
    {
        out.push(v.get(i).residue());
        i = i + 1;
        assert(out@ =~= residue_seq(v.entries()).subrange(0, i as int));
    }
    assert(out@ =~= residue_seq(v.entries()));
    out
}

/// The vector of the residues of `vec` modulo `q`.
pub fn vec_to_dvec(vec: &Vec<ZqMod>, q: ZqMod) -> (v: ZqVector)
    requires
        q % 2 == 1,
    ensures
        v.entries() == reduce_seq(vec@, q),
        zq_seq_wf(v.entries(), q),
{
    let mut out: Vec<ZqInt> = Vec::new();
    let mut i: usize = 0;
    while i < vec.len()
        invariant
            i <= vec.len(),
            q % 2 == 1,
            out@ == reduce_seq(vec@, q).subrange(0, i as int),
        decreases vec.len() - i,
    {
        out.push(ZqInt::new(vec[i], q));
        i = i + 1;
        assert(out@ =~= reduce_seq(vec@, q).subrange(0, i as int));
    }
    assert(out@ =~= reduce_seq(vec@, q));
    ZqVector::from_vec(out)
}

impl ProofUnit {
    /// An opening from its two vectors.
    pub fn new(y: ZqVector, v: ZqVector) -> (p: ProofUnit)
        ensures
            p.y == y,
            p.v == v,
    {
        ProofUnit { y, v }
    }

    /// The residues of `y` and of `v`.
    pub fn to_residue_vecs(&self) -> (r: (Vec<ZqMod>, Vec<ZqMod>))
        ensures
            r.0@ == residue_seq(self.y.entries()),
            r.1@ == residue_seq(self.v.entries()),
    {
        (residues_of(&self.y), residues_of(&self.v))
    }

    /// The opening whose vectors hold the given residues modulo `modulus`.
    pub fn from_residue_vecs(residues: &(Vec<ZqMod>, Vec<ZqMod>), modulus: ZqMod) -> (p: ProofUnit)
        requires
            modulus % 2 == 1,
        ensures
            p.y.entries() == reduce_seq(residues.0@, modulus),
            p.v.entries() == reduce_seq(residues.1@, modulus),
    {
        let y = vec_to_dvec(&residues.0, modulus);
        let v = vec_to_dvec(&residues.1, modulus);
        ProofUnit { y, v }
    }
}

/// The openings after a round: opening `j + 1` folded with the challenge
/// becomes opening `j`.
pub open spec fn fold_openings(
    c: Seq<Seq<ZqInt>>,
    kr: int,
    s: Seq<Seq<ZqInt>>,
    r: usize,
    n: usize,
    log_q: usize,
    q: u128,
) -> Seq<Seq<ZqInt>> {
    Seq::new(
        (s.len() - 1) as nat,
        |j: int| kron_sel(c, kr, s[j + 1], pow(r as int, (j + 1) as nat) * n * log_q, q),
    )
}

/// The evaluation proof from round `depth` to round `ell`: the openings
/// emitted, then the final evaluation vectors, value, openings, `y` and `v`.
/// In each round the challenge `c` folds `y`, `v`, the openings and `f`;
/// the last round emits the folded `f` in place of `v`, the others emit the
/// folded `f` evaluated at the remaining vectors and derive the next
/// challenge from the new transcript.
pub open spec fn proof_run(
    x: Seq<Seq<ZqInt>>,
    f: Seq<ZqInt>,
    s: Seq<Seq<ZqInt>>,
    y: Seq<ZqInt>,
    v: Seq<ZqInt>,
    c: Seq<Seq<ZqInt>>,
    ell: nat,
    depth: nat,
    r: usize,
    n: usize,
    kappa: usize,
    q: u128,
    log_q: usize,
) -> (Seq<(Seq<ZqInt>, Seq<ZqInt>)>, Seq<Seq<ZqInt>>, Seq<ZqInt>, Seq<Seq<ZqInt>>, Seq<ZqInt>, Seq<
    ZqInt,
>)
    decreases ell + 1 - depth,
{
    if depth > ell {
        (Seq::empty(), x, f, s, y, v)
    } else {
        let kr = r * kappa;
        let t1 = kron_sel(c, kr, gadget_apply(y, (kr * n) as nat, log_q as int, q), n as int, q);
        let u1 = kron_sel(c, kr, v, n as int, q);
        let s1 = fold_openings(c, kr, s, r, n, log_q, q);
        let x1 = x.subrange(0, x.len() - 1);
        let y1 = s1[0];
        let f1 = kron_sel(c, kr, f, pow(r as int, (ell - depth + 1) as nat) * n, q);
        if depth == ell {
            (seq![(y1, f1)], x1, f1, s1, y1, v)
        } else {
            let v1 = v_fold(f1, x1, r, ell as int, ell as int, (depth + 1) as int, kappa, n, q);
            let c1 = fs_rows(fs_prefix(t1, u1, x1, y1, v1), r as nat, kappa as nat, q);
            let rest = proof_run(x1, f1, s1, y1, v1, c1, ell, (depth + 1) as nat, r, n, kappa, q, log_q);
            (seq![(y1, v1)] + rest.0, rest.1, rest.2, rest.3, rest.4, rest.5)
        }
    }
}

/// The sizes and reductions that round `depth` of the proof relies on.
pub open spec fn proof_state_ok(
    x: Seq<Seq<ZqInt>>,
    f: Seq<ZqInt>,
    s: Seq<Seq<ZqInt>>,
    y: Seq<ZqInt>,
    v: Seq<ZqInt>,
    c: Seq<Seq<ZqInt>>,
    ell: nat,
    depth: nat,
    r: usize,
    n: usize,
    kappa: usize,
    q: u128,
    log_q: usize,
) -> bool {
    let kr = r * kappa;
    &&& q % 2 == 1
    &&& log_q <= 128
    &&& 1 <= depth
    &&& level_fits(r, ell + 1, kappa, n)
    &&& pow(r as int, ell + 1) * kappa * n * log_q <= usize::MAX
    &&& pow(r as int, ell) * n * log_q <= usize::MAX
    &&& pow(r as int, ell) * n <= usize::MAX
    &&& pow(r as int, ell) <= usize::MAX
    &&& kappa * n <= usize::MAX
    &&& r * kappa * kappa + 7 <= 256 * 0xffff_ffff
    &&& r * kappa * kappa + 7 <= usize::MAX
    &&& depth <= ell ==> {
        &&& c.len() == kappa
        &&& is_rect(c, kr as nat)
        &&& y.len() == kr * n * log_q
        &&& zq_seq_wf(y, q)
        &&& v.len() == kr * n
        &&& zq_seq_wf(v, q)
        &&& s.len() == ell + 2 - depth
        &&& forall|j: int|
            0 <= j < s.len() ==> (#[trigger] s[j]).len() == pow(r as int, (j + 1) as nat) * kappa
                * n * log_q && zq_seq_wf(s[j], q)
        &&& x.len() == ell + 2 - depth
        &&& x_vectors_wf(x, r, q)
        &&& f.len() == pow(r as int, (ell - depth + 2) as nat) * kappa * n
        &&& zq_seq_wf(f, q)
    }
}

/// `r^(e+1) = r * r^e`, scaled.
proof fn lemma_pow_succ_scaled(r: usize, e: nat, a: int, b: int, c: int)
    ensures
        pow(r as int, e + 1) * a * b * c == r * a * (pow(r as int, e) * b * c),
        pow(r as int, e + 1) * a * b == r * a * (pow(r as int, e) * b),
        a * (pow(r as int, e) * b * c) == pow(r as int, e) * a * b * c,
        a * (pow(r as int, e) * b) == pow(r as int, e) * a * b,
{
    reveal(pow);
    let p = pow(r as int, e);
    assert(pow(r as int, e + 1) == r * p);
    assert((r * p) * a * b * c == r * a * (p * b * c)) by (nonlinear_arith);
    assert((r * p) * a * b == r * a * (p * b)) by (nonlinear_arith);
    assert(a * (p * b * c) == p * a * b * c) by (nonlinear_arith);
    assert(a * (p * b) == p * a * b) by (nonlinear_arith);
}

/// `r^e1 * c <= r^e2 * c` for `1 <= e1 <= e2` and `c >= 0`.
proof fn lemma_pow_mono_scaled(r: usize, e1: nat, e2: nat, c: int)
    requires
        1 <= e1 <= e2,
        c >= 0,
    ensures
        pow(r as int, e1) * c <= pow(r as int, e2) * c,
        pow(r as int, e1) >= 0,
{
    let a = pow(r as int, e1);
    let b = pow(r as int, e2);
    if r >= 1 {
        lemma_pow_increases(r as nat, e1, e2);
        vstd::arithmetic::power::lemma_pow_positive(r as int, e1);
    } else {
        reveal(pow);
        assert(a == r * pow(r as int, (e1 - 1) as nat));
        assert(b == r * pow(r as int, (e2 - 1) as nat));
    }
    assert(a * c <= b * c) by (nonlinear_arith)
        requires
            0 <= a <= b,
            c >= 0,
    ;
}

/// Runs rounds `depth..=ell` of the evaluation proof (see [`proof_run`]),
/// appending the openings to `proofs`; `x`, `fi`, `si`, `yi` and `vi` are
/// left in their final state.
pub fn generate_proof(
    proofs: &mut Vec<ProofUnit>,
    x: &mut Vec<ZqVector>,
    fi: &mut ZqVector,
    si: &mut Vec<ZqVector>,
    yi: &mut ZqVector,
    vi: &mut ZqVector,
    ci_plus_1: ZqMatrix,
    ell: usize,
    depth: usize,
    r: usize,
    n: usize,
    kappa: usize,
    q: ZqMod,
    log_q: usize,
)
    requires
        proof_state_ok(
            vectors_entries(old(x)@),
            old(fi).entries(),
            vectors_entries(old(si)@),
            old(yi).entries(),
            old(vi).entries(),
            zq_matrix_rows(ci_plus_1),
            ell as nat,
            depth as nat,
            r,
            n,
            kappa,
            q,
            log_q,
        ),
        depth <= ell ==> zq_matrix_ncols(ci_plus_1) == r * kappa,
    ensures
        proof_views(final(proofs)@) == proof_views(old(proofs)@) + proof_run(
            vectors_entries(old(x)@),
            old(fi).entries(),
            vectors_entries(old(si)@),
            old(yi).entries(),
            old(vi).entries(),
            zq_matrix_rows(ci_plus_1),
            ell as nat,
            depth as nat,
            r,
            n,
            kappa,
            q,
            log_q,
        ).0,
        ({
            let run = proof_run(
                vectors_entries(old(x)@),
                old(fi).entries(),
                vectors_entries(old(si)@),
                old(yi).entries(),
                old(vi).entries(),
                zq_matrix_rows(ci_plus_1),
                ell as nat,
                depth as nat,
                r,
                n,
                kappa,
                q,
                log_q,
            );
            &&& vectors_entries(final(x)@) == run.1
            &&& final(fi).entries() == run.2
            &&& vectors_entries(final(si)@) == run.3
            &&& final(yi).entries() == run.4
            &&& final(vi).entries() == run.5
        }),
{
    let ghost run0 = proof_run(
        vectors_entries(x@),
        fi.entries(),
        vectors_entries(si@),
        yi.entries(),
        vi.entries(),
        zq_matrix_rows(ci_plus_1),
        ell as nat,
        depth as nat,
        r,
        n,
        kappa,
        q,
        log_q,
    );
    let ghost p0 = proof_views(proofs@);
    let mut depth = depth;
    let mut c = ci_plus_1;
    while depth <= ell
        invariant_except_break
            proof_state_ok(
                vectors_entries(x@),
                fi.entries(),
                vectors_entries(si@),
                yi.entries(),
                vi.entries(),
                zq_matrix_rows(c),
                ell as nat,
                depth as nat,
                r,
                n,
                kappa,
                q,
                log_q,
            ),
            depth <= ell ==> zq_matrix_ncols(c) == r * kappa,
            ({
                let cur = proof_run(
                    vectors_entries(x@),
                    fi.entries(),
                    vectors_entries(si@),
                    yi.entries(),
                    vi.entries(),
                    zq_matrix_rows(c),
                    ell as nat,
                    depth as nat,
                    r,
                    n,
                    kappa,
                    q,
                    log_q,
                );
                &&& p0 + run0.0 == proof_views(proofs@) + cur.0
                &&& run0.1 == cur.1
                &&& run0.2 == cur.2
                &&& run0.3 == cur.3
                &&& run0.4 == cur.4
                &&& run0.5 == cur.5
            }),
        ensures
            proof_views(proofs@) == p0 + run0.0,
            vectors_entries(x@) == run0.1,
            fi.entries() == run0.2,
            vectors_entries(si@) == run0.3,
            yi.entries() == run0.4,
            vi.entries() == run0.5,
        decreases ell + 1 - depth,
    {
        let ghost xv = vectors_entries(x@);
        let ghost fv = fi.entries();
        let ghost sv = vectors_entries(si@);
        let ghost yv = yi.entries();
        let ghost vv = vi.entries();
        let ghost cv = zq_matrix_rows(c);
        let ghost pv = proof_views(proofs@);
        let ghost kr = r * kappa;
        proof {
            lemma_level_fits_lower(r, 1, (ell + 1) as nat, kappa, n);
            reveal(pow);
            assert(pow(r as int, 1) == r * pow(r as int, 0));
            assert(r * kappa * n == pow(r as int, 1) * kappa * n) by (nonlinear_arith)
                requires
                    pow(r as int, 1) == r,
            ;
            assert(kr * n * log_q == (kr * n) * log_q) by (nonlinear_arith);
        }
        let t1 = c_kron_g_dot_y(&c, yi, n, q, log_q);
        let u1 = c_kron_i_dot_v(&c, vi, n, q);
        let slen = si.len();
        let mut s1: Vec<ZqVector> = Vec::new();
        let mut j: usize = 0;
        while j < slen - 1
            invariant
                j <= slen - 1,
                slen == sv.len(),
                sv == vectors_entries(si@),
                cv == zq_matrix_rows(c),
                proof_state_ok(xv, fv, sv, yv, vv, cv, ell as nat, depth as nat, r, n, kappa, q, log_q),
                depth <= ell,
                zq_matrix_ncols(c) == r * kappa,
                vectors_entries(s1@) == fold_openings(cv, (r * kappa) as int, sv, r, n, log_q, q).subrange(0, j as int),
                forall|z: int| 0 <= z < s1@.len() ==> zq_seq_wf(#[trigger] s1@[z].entries(), q),
            decreases slen - 1 - j,
        {
            proof {
                lemma_pow_mono_scaled(r, (j + 1) as nat, ell as nat, n as int);
                lemma_pow_mono_scaled(r, (j + 1) as nat, ell as nat, (n * log_q) as int);
                assert(pow(r as int, (j + 1) as nat) * (n * log_q) == pow(r as int, (j + 1) as nat) * n * log_q) by (nonlinear_arith);
                assert(pow(r as int, ell as nat) * (n * log_q) == pow(r as int, ell as nat) * n * log_q) by (nonlinear_arith);
                assert(pow(r as int, (j + 1) as nat) * n * log_q <= pow(r as int, ell as nat) * n * log_q) by (nonlinear_arith)
                    requires
                        pow(r as int, (j + 1) as nat) * (n * log_q) <= pow(r as int, ell as nat) * (n * log_q),
                ;
                vstd::arithmetic::power::lemma_pow_positive(1, 0);
            }
            let mj = upow_fit(r, j + 1, ell) * n * log_q;
            proof {
                lemma_pow_succ_scaled(r, (j + 1) as nat, kappa as int, n as int, log_q as int);
                lemma_pow_mono_scaled(r, (j + 2) as nat, (ell + 1) as nat, (kappa * n * log_q) as int);
                assert(sv[j + 1].len() == pow(r as int, (j + 2) as nat) * kappa * n * log_q);
                assert(kappa * mj == pow(r as int, (j + 1) as nat) * kappa * n * log_q) by (nonlinear_arith)
                    requires
                        mj == pow(r as int, (j + 1) as nat) * n * log_q,
                ;
                lemma_fits_scaled(r, (j + 1) as nat, (ell + 1) as nat, kappa as int, n as int, log_q as int);
                assert(vectors_entries(si@)[j + 1] == si@[j + 1].entries());
            }
            let next = c_kron_i_dot_v(&c, &si[j + 1], mj, q);
            let ghost before = s1@;
            let ghost nv = next.entries();
            let ghost nvec = next;
            let ghost fo = fold_openings(cv, (r * kappa) as int, sv, r, n, log_q, q);
            proof {
                assert(nv == fo[j as int]);
                assert(vectors_entries(before).len() == before.len());
                assert(before.len() == j);
            }
            s1.push(next);
            proof {
                assert(s1@ == before.push(nvec));
                assert(s1@.len() == j + 1);
                assert forall|z: int| 0 <= z < j + 1 implies #[trigger] vectors_entries(s1@)[z] == fo[z] by {
                    if z < j {
                        assert(s1@[z] == before[z]);
                        assert(vectors_entries(before)[z] == fo.subrange(0, j as int)[z]);
                    } else {
                        assert(s1@[z].entries() == nv);
                    }
                }
                assert(vectors_entries(s1@) =~= fo.subrange(0, j + 1));
            }
            j = j + 1;
        }
        assert(vectors_entries(s1@) =~= fold_openings(cv, (r * kappa) as int, sv, r, n, log_q, q));
        *si = s1;
        let xl = x.len();
        x.truncate(xl - 1);
        assert(vectors_entries(x@) =~= xv.subrange(0, xv.len() - 1));
        *yi = si[0].duplicate();
        let e = ell - depth + 1;
        proof {
            lemma_pow_mono_scaled(r, e as nat, ell as nat, n as int);
        }
        let m = upow_fit(r, e, ell) * n;
        proof {
            lemma_pow_succ_scaled(r, e as nat, kappa as int, n as int, 1);
            assert(fv.len() == (r * kappa) * m) by (nonlinear_arith)
                requires
                    fv.len() == pow(r as int, (e + 1) as nat) * kappa * n,
                    pow(r as int, (e + 1) as nat) * kappa * n == r * kappa * (pow(r as int, e as nat) * n),
                    m == pow(r as int, e as nat) * n,
            ;
            lemma_level_fits_lower(r, e as nat, (ell + 1) as nat, kappa, n);
            assert(kappa * m == pow(r as int, e as nat) * kappa * n) by (nonlinear_arith)
                requires
                    m == pow(r as int, e as nat) * n,
            ;
        }
        let f1 = c_kron_i_dot_v(&c, fi, m, q);
        *fi = f1;
        if depth == ell {
            proofs.push(ProofUnit::new(yi.duplicate(), fi.duplicate()));
            proof {
                assert(proof_views(proofs@) =~= pv.push((yi.entries(), fi.entries())));
                assert(pv + seq![(yi.entries(), fi.entries())] =~= pv.push((yi.entries(), fi.entries())));
            }
            break;
        }
        proof {
            lemma_level_fits_lower(r, (ell - depth) as nat, (ell + 1) as nat, kappa, n);
        }
        let v1 = generate_v(fi.duplicate(), x, r, ell, ell, depth + 1, kappa, n, q);
        *vi = v1;
        proofs.push(ProofUnit::new(yi.duplicate(), vi.duplicate()));
        c = generate_fiat_shamir_challenge_matrix(&t1, &u1, x, yi, vi, r, kappa, q);
        proof {
            assert(proof_views(proofs@) =~= pv.push((yi.entries(), vi.entries())));
            let fo = fold_openings(cv, (r * kappa) as int, sv, r, n, log_q, q);
            assert(vectors_entries(si@) == fo);
            assert forall|z: int| 0 <= z < fo.len() implies (#[trigger] fo[z]).len() == pow(
                r as int,
                (z + 1) as nat,
            ) * kappa * n * log_q && zq_seq_wf(fo[z], q) by {
                assert(fo[z] == si@[z].entries());
                let pz = pow(r as int, (z + 1) as nat);
                lemma_pow_mono_scaled(r, (z + 1) as nat, (z + 1) as nat, 0);
                assert(pz * n * log_q >= 0) by (nonlinear_arith)
                    requires
                        pz >= 0,
                ;
                assert(cv.len() == kappa);
                assert(fo[z].len() == kappa * (pz * n * log_q));
                assert(kappa * (pz * n * log_q) == pz * kappa * n * log_q) by (nonlinear_arith);
            }
            assert(yi.entries() == fo[0]);
            assert(pow(r as int, 1) == r) by {
                reveal(pow);
                assert(pow(r as int, 1) == r * pow(r as int, 0));
            }
            assert(pow(r as int, 1) * kappa * n * log_q == r * kappa * n * log_q);
            assert(pow(r as int, 1) * kappa * n == r * kappa * n);
            let xn = vectors_entries(x@);
            assert forall|z: int| 0 <= z < xn.len() implies (#[trigger] xn[z]).len() == r && zq_seq_wf(xn[z], q) by {
                assert(xn[z] == xv[z]);
            }
        }
        depth = depth + 1;
    }
}

/// `r^e` where `r^ell` fits and `1 <= e <= ell`.
fn upow_fit(r: usize, e: usize, ell: usize) -> (p: usize)
    requires
        1 <= e <= ell,
        pow(r as int, ell as nat) <= usize::MAX,
    ensures
        p == pow(r as int, e as nat),
{
    proof {
        lemma_pow_mono_scaled(r, e as nat, ell as nat, 1);
        assert(pow(r as int, e as nat) <= pow(r as int, ell as nat)) by (nonlinear_arith)
            requires
                pow(r as int, e as nat) * 1 <= pow(r as int, ell as nat) * 1,
        ;
    }
    upow(r, e)
}

/// The largest centred absolute value of the entries of `y` is at most
/// `bound` (compared after conversion to `usize`).
pub open spec fn norm_within(y: Seq<ZqInt>, bound: int) -> bool {
    (max_centred(y, y.len() as int) as usize) <= bound
}

/// Checks of round `i >= 1` of an evaluation proof with challenge `c`, and
/// of all later rounds: `y_i` opens the fold of `y_{i-1}`, `v_i` evaluates
/// to the fold of `v_{i-1}`, and `y_i` is short.
pub open spec fn proof_rounds_ok(
    p: Seq<(Seq<ZqInt>, Seq<ZqInt>)>,
    rows: Seq<Seq<ZqInt>>,
    m: int,
    x: Seq<Seq<ZqInt>>,
    c: Seq<Seq<ZqInt>>,
    i: nat,
    ell: nat,
    r: usize,
    kappa: usize,
    n: usize,
    q: u128,
    log_q: usize,
) -> bool
    decreases ell + 1 - i,
{
    if i > ell || i == 0 {
        true
    } else {
        let kr = r * kappa;
        let y = p[i as int].0;
        let v = p[i as int].1;
        let yp = p[i - 1].0;
        let vp = p[i - 1].1;
        let tj = kron_sel(c, kr, gadget_apply(yp, (kr * n) as nat, log_q as int, q), n as int, q);
        let uj = kron_sel(c, kr, vp, n as int, q);
        &&& y.len() == kappa * m
        &&& yp.len() == kr * n * log_q
        &&& v.len() == kappa * n * x[ell - i].len()
        &&& vp.len() == kr * n
        &&& kron_mat_dot(rows, m, y, kappa as nat, zq(0, q)) == tj
        &&& kron_vec_dot(x[ell - i], v, (kappa * n) as nat, q) == uj
        &&& norm_within(y, pow(kr as int, i))
        &&& proof_rounds_ok(
            p,
            rows,
            m,
            x,
            fs_rows(fs_prefix(tj, uj, x.subrange(0, ell + 1 - i), y, v), r as nat, kappa as nat, q),
            i + 1,
            ell,
            r,
            kappa,
            n,
            q,
            log_q,
        )
    }
}

/// An evaluation proof is accepted: it has `ell + 1` rounds, round 0 opens
/// the commitment `t` and evaluates to `u`, and every later round checks
/// against the challenge derived from the previous one.
pub open spec fn proofs_accepted(
    p: Seq<(Seq<ZqInt>, Seq<ZqInt>)>,
    rows: Seq<Seq<ZqInt>>,
    m: int,
    t: Seq<ZqInt>,
    u: Seq<ZqInt>,
    x: Seq<Seq<ZqInt>>,
    ell: nat,
    r: usize,
    kappa: usize,
    n: usize,
    q: u128,
    log_q: usize,
) -> bool {
    &&& p.len() >= ell + 1
    &&& p[0].0.len() == kappa * m
    &&& p[0].1.len() == kappa * n * x[ell as int].len()
    &&& kron_mat_dot(rows, m, p[0].0, kappa as nat, zq(0, q)) == t
    &&& kron_vec_dot(x[ell as int], p[0].1, (kappa * n) as nat, q) == u
    &&& norm_within(p[0].0, 1)
    &&& proof_rounds_ok(
        p,
        rows,
        m,
        x,
        fs_rows(fs_prefix(t, u, x, p[0].0, p[0].1), r as nat, kappa as nat, q),
        1,
        ell,
        r,
        kappa,
        n,
        q,
        log_q,
    )
}

/// The parameters that checking a proof relies on.
pub open spec fn verify_params_ok(
    a: ZqMatrix,
    x: Seq<Seq<ZqInt>>,
    ell: nat,
    r: usize,
    kappa: usize,
    n: usize,
    q: u128,
    log_q: usize,
) -> bool {
    &&& q % 2 == 1
    &&& log_q <= 128
    &&& matrix_wf(a, q)
    &&& x.len() == ell + 1
    &&& x_vectors_wf(x, r, q)
    &&& kappa * zq_matrix_rows(a).len() <= usize::MAX
    &&& kappa * zq_matrix_ncols(a) <= usize::MAX
    &&& kappa * n <= usize::MAX
    &&& r * kappa <= usize::MAX
    &&& r * kappa * n <= usize::MAX
    &&& r * kappa * n * log_q <= usize::MAX
    &&& pow((r * kappa) as int, ell) <= usize::MAX
    &&& r * kappa * kappa + 7 <= 256 * 0xffff_ffff
    &&& r * kappa * kappa + 7 <= usize::MAX
}

/// All vectors of all openings are reduced modulo `q`.
pub open spec fn proofs_wf(p: Seq<ProofUnit>, q: u128) -> bool {
    forall|i: int|
        0 <= i < p.len() ==> zq_seq_wf((#[trigger] p[i]).y.entries(), q) && zq_seq_wf(
            p[i].v.entries(),
            q,
        )
}

/// Whether an evaluation proof is accepted (see [`proofs_accepted`]); a
/// proof of the wrong shape is rejected.
pub fn check_proofs(
    proofs: &Vec<ProofUnit>,
    a: &ZqMatrix,
    t: ZqVector,
    u: ZqVector,
    x: Vec<ZqVector>,
    ell: usize,
    r: usize,
    kappa: usize,
    n: usize,
    q: ZqMod,
    log_q: usize,
) -> (ok: bool)
    requires
        verify_params_ok(*a, vectors_entries(x@), ell as nat, r, kappa, n, q, log_q),
        proofs_wf(proofs@, q),
    ensures
        ok == proofs_accepted(
            proof_views(proofs@),
            zq_matrix_rows(*a),
            zq_matrix_ncols(*a) as int,
            t.entries(),
            u.entries(),
            vectors_entries(x@),
            ell as nat,
            r,
            kappa,
            n,
            q,
            log_q,
        ),
{
    let ghost pv = proof_views(proofs@);
    let ghost rows = zq_matrix_rows(*a);
    let ghost xv = vectors_entries(x@);
    let m = a.ncols();
    let zero = ZqInt::new(0, q);
    let one = ZqInt::new(1, q);
    proof {
        vstd::arithmetic::div_mod::lemma_small_mod(0, q as nat);
    }
    let ghost accepted = proofs_accepted(
        pv,
        rows,
        m as int,
        t.entries(),
        u.entries(),
        xv,
        ell as nat,
        r,
        kappa,
        n,
        q,
        log_q,
    );
    let _xlen = x.len();
    assert(x@.len() == xv.len());
    if proofs.len() <= ell {
        return false;
    }
    proof {
        assert(kappa * n * r == r * kappa * n) by (nonlinear_arith);
    }
    let p0 = &proofs[0];
    assert(pv[0] == (p0.y.entries(), p0.v.entries()));
    let x_ell = &x[ell];
    assert(xv[ell as int] == x_ell.entries());
    if p0.y.len() != kappa * m || p0.v.len() != kappa * n * x_ell.len() {
        return false;
    }
    let left = i_kron_a_dot_s(a, &p0.y, kappa, &zero, &one);
    if !left.equals(&t) {
        return false;
    }
    let left = i_kron_vec_dot_vec(x_ell, &p0.v, kappa * n, q);
    if !left.equals(&u) {
        return false;
    }
    let kr = r * kappa;
    proof {
        reveal(pow);
    }
    let bound0 = upow(kr, 0);
    if infinity_norm(&p0.y) as usize > bound0 {
        return false;
    }
    let mut c = generate_fiat_shamir_challenge_matrix(&t, &u, &x, &p0.y, &p0.v, r, kappa, q);
    let mut xcur = x;
    let mut i: usize = 1;
    while i <= ell
        invariant
            1 <= i <= ell + 1,
            proofs@.len() >= ell + 1,
            pv == proof_views(proofs@),
            proofs_wf(proofs@, q),
            rows == zq_matrix_rows(*a),
            m == zq_matrix_ncols(*a),
            zero == zq(0, q),
            one == zq(1int % (q as int), q),
            kr == r * kappa,
            verify_params_ok(*a, xv, ell as nat, r, kappa, n, q, log_q),
            xv == vectors_entries(x@),
            ell + 1 <= usize::MAX,
            accepted == proofs_accepted(
                pv,
                rows,
                m as int,
                t.entries(),
                u.entries(),
                xv,
                ell as nat,
                r,
                kappa,
                n,
                q,
                log_q,
            ),
            vectors_entries(xcur@) == xv.subrange(0, ell + 2 - i),
            zq_matrix_rows(c).len() == kappa,
            zq_matrix_ncols(c) == r * kappa,
            is_rect(zq_matrix_rows(c), zq_matrix_ncols(c)),
            accepted == proof_rounds_ok(
                pv,
                rows,
                m as int,
                xv,
                zq_matrix_rows(c),
                i as nat,
                ell as nat,
                r,
                kappa,
                n,
                q,
                log_q,
            ),
        decreases ell + 1 - i,
    {
        let ghost cv = zq_matrix_rows(c);
        let pi = &proofs[i];
        let pp = &proofs[i - 1];
        assert(pv[i as int] == (pi.y.entries(), pi.v.entries()));
        assert(pv[i - 1] == (pp.y.entries(), pp.v.entries()));
        assert(xcur@.len() == vectors_entries(xcur@).len());
        proof {
            assert(kappa * n * r == r * kappa * n) by (nonlinear_arith);
        }
        let x_l = &xcur[ell - i];
        assert(vectors_entries(xcur@)[ell - i] == x_l.entries());
        assert(x_l.entries() == xv[ell - i]);
        if pi.y.len() != kappa * m || pp.y.len() != kr * n * log_q || pi.v.len() != kappa * n
            * x_l.len() || pp.v.len() != kr * n {
            proof {
                assert(!proof_rounds_ok(pv, rows, m as int, xv, cv, i as nat, ell as nat, r, kappa, n, q, log_q));
                assert(!accepted);
            }
            return false;
        }
        let left = i_kron_a_dot_s(a, &pi.y, kappa, &zero, &one);
        let tj1 = c_kron_g_dot_y(&c, &pp.y, n, q, log_q);
        if !left.equals(&tj1) {
            proof {
                assert(!proof_rounds_ok(pv, rows, m as int, xv, cv, i as nat, ell as nat, r, kappa, n, q, log_q));
                assert(!accepted);
            }
            return false;
        }
        let left = i_kron_vec_dot_vec(x_l, &pi.v, kappa * n, q);
        let uj1 = c_kron_i_dot_v(&c, &pp.v, n, q);
        if !left.equals(&uj1) {
            proof {
                assert(!proof_rounds_ok(pv, rows, m as int, xv, cv, i as nat, ell as nat, r, kappa, n, q, log_q));
                assert(!accepted);
            }
            return false;
        }
        let bound = upow_fit(kr, i, ell);
        if infinity_norm(&pi.y) as usize > bound {
            proof {
                assert(!proof_rounds_ok(pv, rows, m as int, xv, cv, i as nat, ell as nat, r, kappa, n, q, log_q));
                assert(!accepted);
            }
            return false;
        }
        let xl = xcur.len();
        xcur.truncate(xl - 1);
        assert(vectors_entries(xcur@) =~= xv.subrange(0, ell + 1 - i));
        c = generate_fiat_shamir_challenge_matrix(&tj1, &uj1, &xcur, &pi.y, &pi.v, r, kappa, q);
        i = i + 1;
    }
    true
}

/// Verifies an evaluation proof that is accepted (see [`check_proofs`] for
/// any proof); other proofs are ruled out.
pub fn verify_proofs(
    proofs: &Vec<ProofUnit>,
    a: &ZqMatrix,
    t: ZqVector,
    u: ZqVector,
    x: Vec<ZqVector>,
    ell: usize,
    r: usize,
    kappa: usize,
    n: usize,
    q: ZqMod,
    log_q: usize,
) -> (ok: bool)
    requires
        verify_params_ok(*a, vectors_entries(x@), ell as nat, r, kappa, n, q, log_q),
        proofs_wf(proofs@, q),
        proofs_accepted(
            proof_views(proofs@),
            zq_matrix_rows(*a),
            zq_matrix_ncols(*a) as int,
            t.entries(),
            u.entries(),
            vectors_entries(x@),
            ell as nat,
            r,
            kappa,
            n,
            q,
            log_q,
        ),
    ensures
        ok,
{
    check_proofs(proofs, a, t, u, x, ell, r, kappa, n, q, log_q)
}

/// Every entry's centred absolute value is at most the largest one, which
/// lies in `[0, q/2]` for residues modulo `q`.
proof fn lemma_max_centred_bounds(s: Seq<ZqInt>, len: int, q: u128)
    requires
        0 <= len <= s.len(),
        zq_seq_wf(s, q),
    ensures
        0 <= max_centred(s, len) <= q / 2,
        forall|j: int| 0 <= j < len ==> centred_abs(#[trigger] s[j]) <= max_centred(s, len),
    decreases len,
{
    if len > 0 {
        lemma_max_centred_bounds(s, len - 1, q);
        assert(s[len - 1].wf() && s[len - 1].modulus == q);
    }
}

/// An opening within a bound has every entry, centred, within it (for
/// moduli whose half fits a `usize`).
proof fn lemma_norm_within_entries(y: Seq<ZqInt>, bound: int, q: u128)
    requires
        norm_within(y, bound),
        zq_seq_wf(y, q),
        q / 2 <= usize::MAX,
    ensures
        forall|j: int| 0 <= j < y.len() ==> centred_abs(#[trigger] y[j]) <= bound,
{
    lemma_max_centred_bounds(y, y.len() as int, q);
}

/// The rounds from `i` on hold openings within their bounds.
proof fn lemma_rounds_within(
    p: Seq<(Seq<ZqInt>, Seq<ZqInt>)>,
    rows: Seq<Seq<ZqInt>>,
    m: int,
    x: Seq<Seq<ZqInt>>,
    c: Seq<Seq<ZqInt>>,
    i: nat,
    ell: nat,
    r: usize,
    kappa: usize,
    n: usize,
    q: u128,
    log_q: usize,
)
    requires
        proof_rounds_ok(p, rows, m, x, c, i, ell, r, kappa, n, q, log_q),
        i >= 1,
    ensures
        forall|k: int| i <= k <= ell ==> norm_within(#[trigger] p[k].0, pow((r * kappa) as int, k as nat)),
    decreases ell + 1 - i,
{
    if i <= ell {
        let kr = r * kappa;
        let yp = p[i - 1].0;
        let vp = p[i - 1].1;
        let tj = kron_sel(c, kr, gadget_apply(yp, (kr * n) as nat, log_q as int, q), n as int, q);
        let uj = kron_sel(c, kr, vp, n as int, q);
        let y = p[i as int].0;
        let v = p[i as int].1;
        lemma_rounds_within(
            p,
            rows,
            m,
            x,
            fs_rows(fs_prefix(tj, uj, x.subrange(0, ell + 1 - i), y, v), r as nat, kappa as nat, q),
            i + 1,
            ell,
            r,
            kappa,
            n,
            q,
            log_q,
        );
    }
}

/// Law: an accepted evaluation proof (one for which `check_proofs` returns
/// true) is short in every round: each entry of the opening `y_i` of round
/// `i`, taken in `(-q/2, q/2]`, is at most `(r * kappa)^i` in absolute value
/// (for moduli whose half fits a `usize`); a proof with a longer opening in
/// any round is rejected.
pub proof fn lemma_accepted_openings_are_short(
    p: Seq<(Seq<ZqInt>, Seq<ZqInt>)>,
    rows: Seq<Seq<ZqInt>>,
    m: int,
    t: Seq<ZqInt>,
    u: Seq<ZqInt>,
    x: Seq<Seq<ZqInt>>,
    ell: nat,
    r: usize,
    kappa: usize,
    n: usize,
    q: u128,
    log_q: usize,
)
    requires
        proofs_accepted(p, rows, m, t, u, x, ell, r, kappa, n, q, log_q),
        forall|i: int| 0 <= i <= ell ==> zq_seq_wf(#[trigger] p[i].0, q),
        q / 2 <= usize::MAX,
    ensures
        forall|i: int, j: int|
            0 <= i <= ell && 0 <= j < p[i].0.len() ==> centred_abs(#[trigger] p[i].0[j]) <= pow(
                (r * kappa) as int,
                i as nat,
            ),
{
    lemma_rounds_within(
        p,
        rows,
        m,
        x,
        fs_rows(fs_prefix(t, u, x, p[0].0, p[0].1), r as nat, kappa as nat, q),
        1,
        ell,
        r,
        kappa,
        n,
        q,
        log_q,
    );
    assert forall|i: int, j: int|
        0 <= i <= ell && 0 <= j < p[i].0.len() implies centred_abs(#[trigger] p[i].0[j]) <= pow((r * kappa) as int, i as nat) by {
        if i == 0 {
            vstd::arithmetic::power::lemma_pow0((r * kappa) as int);
            lemma_norm_within_entries(p[0].0, 1, q);
        } else {
            assert(norm_within(p[i].0, pow((r * kappa) as int, i as nat)));
            lemma_norm_within_entries(p[i].0, pow((r * kappa) as int, i as nat), q);
        }
    }
}

} // verus!
