//! Reconstruction of shared secrets: Lagrange interpolation at zero over
//! `Z_q`, and the turning of the reconstructed secrets into one beacon value.

use vstd::prelude::*;
use vstd::arithmetic::div_mod::{lemma_mul_mod_noop_left, lemma_mul_mod_noop_right, lemma_mul_mod_noop, lemma_add_mod_noop, lemma_mod_twice, lemma_small_mod, lemma_fundamental_div_mod, lemma_mod_bound};
use crate::hashing::{sha256, push_decimal, decimal, spec_sha256, be_value, u128_from_be_prefix};
use crate::types_and_const::{Id, RandomNum, ZqMod};

verus! {

/// Greatest common divisor by Euclid's algorithm (on non-negative integers).
pub open spec fn spec_gcd(a: int, b: int) -> int
    decreases a,
    when a >= 0 && b >= 0
{
    if a == 0 {
        b
    } else {
        spec_gcd(b % a, a)
    }
}

/// The inverse of `a` modulo `q`: the residue `r` in `[0, q)` with
/// `a * r = 1 (mod q)`.
pub open spec fn spec_mod_inverse(a: int, q: int) -> int {
    choose|r: int| is_mod_inverse(a, q, r)
}

/// `r` is a residue modulo `q` whose product with `a` is 1 modulo `q`.
pub open spec fn is_mod_inverse(a: int, q: int, r: int) -> bool {
    0 <= r < q && (a * r) % q == 1int % q
}

pub open spec fn abs(x: int) -> int {
    if x < 0 {
        -x
    } else {
        x
    }
}

pub open spec fn max1(x: int) -> int {
    if x < 1 {
        1
    } else {
        x
    }
}

/// The coefficients extended Euclid finds for `(a, b)`: `(b, 0, 1)` when
/// `a` is zero, otherwise from those `(g, x, y)` of `(b mod a, a)` the
/// triple `(g, y - (b / a) * x, x)`.
pub open spec fn spec_egcd(a: int, b: int) -> (int, int, int)
    decreases a,
    when a >= 0 && b >= 0
{
    if a == 0 {
        (b, 0, 1)
    } else {
        let r = spec_egcd(b % a, a);
        (r.0, r.2 - (b / a) * r.1, r.1)
    }
}

/// Extended Euclid: returns `(g, x, y)` with `g = gcd(a, b)` and
/// `a * x + b * y = g`; the coefficients are those of the recursion
/// ([`spec_egcd`]).
pub fn extended_gcd(a: i128, b: i128) -> (res: (i128, i128, i128))
    requires
        0 <= a,
        0 <= b,
    ensures
        (res.0 as int, res.1 as int, res.2 as int) == spec_egcd(a as int, b as int),
        res.0 == spec_gcd(a as int, b as int),
        a * res.1 + b * res.2 == res.0,
        abs(res.1 as int) <= max1(b as int),
        abs(res.2 as int) <= max1(a as int),
        a == 0 ==> res.1 == 0,
    decreases a,
{
    if a == 0 {
        (b, 0, 1)
    } else {
        let r = b % a;
        let d = b / a;
        proof {
            lemma_fundamental_div_mod(b as int, a as int);
            assert(0 <= r < a);
            assert(d >= 0) by (nonlinear_arith)
                requires
                    a > 0,
                    b >= 0,
                    d == b / a,
            ;
        }
        let (g, x, y) = extended_gcd(r, a);
        proof {
            assert(a * d + r == b);
            assert(d * abs(x as int) + r <= b) by (nonlinear_arith)
                requires
                    abs(x as int) <= a,
                    a * d + r == b,
                    d >= 0,
                    r >= 0,
            ;
            assert(abs((d * x) as int) == d * abs(x as int)) by (nonlinear_arith)
                requires
                    d >= 0,
            ;
            if r == 0 {
                assert(x == 0);
                assert(d * x == 0) by (nonlinear_arith)
                    requires
                        x == 0,
                ;
            }
            assert(a * (y - d * x) + b * x == r * x + a * y) by (nonlinear_arith)
                requires
                    b == a * d + r,
            ;
        }
        let dx = d * x;
        (g, y - dx, x)
    }
}

proof fn lemma_inverse_unique(a: int, q: int, r1: int, r2: int)
    requires
        q > 0,
        0 <= r1 < q,
        0 <= r2 < q,
        (a * r1) % q == 1int % q,
        (a * r2) % q == 1int % q,
    ensures
        r1 == r2,
{
    // r1 = r1 * (a * r2) = r2 * (a * r1) = r2  (mod q)
    lemma_mul_mod_noop_right(r1, a * r2, q);
    lemma_mul_mod_noop_right(r1, 1, q);
    lemma_mul_mod_noop_right(r2, a * r1, q);
    lemma_mul_mod_noop_right(r2, 1, q);
    assert(r1 * (a * r2) == r2 * (a * r1)) by (nonlinear_arith);
    lemma_small_mod(r1 as nat, q as nat);
    lemma_small_mod(r2 as nat, q as nat);
}

/// Lemma: a residue `r` in `[0, q)` with `a * r = 1 (mod q)` is the inverse.
pub proof fn lemma_is_mod_inverse(a: int, q: int, r: int)
    requires
        q > 0,
        0 <= r < q,
        (a * r) % q == 1int % q,
    ensures
        spec_mod_inverse(a, q) == r,
{
    assert(is_mod_inverse(a, q, r));
    let c = spec_mod_inverse(a, q);
    assert(0 <= c < q && (a * c) % q == 1int % q);
    lemma_inverse_unique(a, q, r, c);
}

/// The inverse of `a` modulo `q`, for `a` coprime with `q` (the inverse
/// does not exist otherwise), where the representative `x mod q + q` of
/// Euclid's coefficient `x` fits an `i128` as the computation needs.
pub fn mod_inverse(a: ZqMod, q: ZqMod) -> (inv: ZqMod)
    requires
        q > 0,
        a <= i128::MAX,
        q <= i128::MAX,
        spec_gcd(a as int, q as int) == 1,
        spec_egcd(a as int, q as int).1 >= 0 ==> spec_egcd(a as int, q as int).1 % (q as int) + q <= i128::MAX,
    ensures
        inv < q,
        (a * inv) % (q as int) == 1int % (q as int),
        inv == spec_mod_inverse(a as int, q as int),
{
    let (g, x, y) = extended_gcd(a as i128, q as i128);
    if g != 1 {
        proof {
            assert(false);
        }
    }
    let qi = q as i128;
    let res: i128 = if x >= 0 {
        let m = x % qi;
        (m + qi) % qi
    } else {
        // |x| <= q: the remainder of a negative coefficient, lifted by q.
        let m = (-x) % qi;
        if m == 0 {
            0
        } else {
            qi - m
        }
    };
    proof {
        let xi = x as int;
        let qq = q as int;
        assert(res as int == xi % qq) by {
            if xi >= 0 {
                vstd::arithmetic::div_mod::lemma_mod_add_multiples_vanish(xi % qq, qq);
                vstd::arithmetic::div_mod::lemma_mod_twice(xi, qq);
            } else {
                let m = (-xi) % qq;
                vstd::arithmetic::div_mod::lemma_fundamental_div_mod(-xi, qq);
                let d = (-xi) / qq;
                assert(xi == (-d) * qq - m) by (nonlinear_arith)
                    requires
                        -xi == qq * d + m,
                ;
                if m == 0 {
                    vstd::arithmetic::div_mod::lemma_mod_multiples_basic(-d, qq);
                } else {
                    assert(xi == (-d - 1) * qq + (qq - m)) by (nonlinear_arith)
                        requires
                            xi == (-d) * qq - m,
                    ;
                    vstd::arithmetic::div_mod::lemma_mod_multiples_vanish(-d - 1, qq - m, qq);
                    vstd::arithmetic::div_mod::lemma_small_mod((qq - m) as nat, qq as nat);
                }
            }
        }
        assert((a * xi) % qq == 1int % qq) by {
            assert(a * xi + qq * y == 1);
            assert(a * xi == 1 + (-(y as int)) * qq) by (nonlinear_arith)
                requires
                    a * xi + qq * y == 1,
            ;
            vstd::arithmetic::div_mod::lemma_mod_multiples_vanish(-(y as int), 1, qq);
        }
        lemma_mul_mod_noop_right(a as int, xi, qq);
        lemma_is_mod_inverse(a as int, qq, res as int);
    }
    res as ZqMod
}


/// The factor that point `j` contributes to the Lagrange basis polynomial of
/// point `i`, evaluated at zero: `(-x_j) / (x_i - x_j)` in `Z_q`.
pub open spec fn lagrange_factor(points: Seq<u128>, q: int, i: int, j: int) -> int {
    ((q - points[j]) % q) * spec_mod_inverse((points[i] + q - points[j]) % q, q)
}

/// Product of the factors of points `0..k` other than `i`.
pub open spec fn basis_product(points: Seq<u128>, q: int, i: int, k: int) -> int
    decreases k,
{
    if k <= 0 {
        1
    } else if k - 1 == i {
        basis_product(points, q, i, k - 1)
    } else {
        basis_product(points, q, i, k - 1) * lagrange_factor(points, q, i, k - 1)
    }
}

/// `sum_{i < k} y_i * L_i(0)` over the integers, where `L_i` is the
/// Lagrange basis polynomial of the first `points.len()` points.
pub open spec fn lagrange_partial_sum(points: Seq<u128>, values: Seq<u128>, q: int, k: int) -> int
    decreases k,
{
    if k <= 0 {
        0
    } else {
        lagrange_partial_sum(points, values, q, k - 1) + values[k - 1] * basis_product(
            points,
            q,
            k - 1,
            points.len() as int,
        )
    }
}

/// The value at zero of the polynomial of degree below `points.len()` that
/// takes `values[i]` at `points[i]`, in `Z_q`.
pub open spec fn spec_lagrange_at_zero(points: Seq<u128>, values: Seq<u128>, q: int) -> int {
    lagrange_partial_sum(points, values, q, points.len() as int) % q
}

/// The points can be interpolated modulo `q`: they are residues and every
/// difference of two of them is invertible.
pub open spec fn interpolation_points_ok(points: Seq<u128>, q: int) -> bool {
    &&& forall|i: int| 0 <= i < points.len() ==> (#[trigger] points[i]) < q
    &&& forall|i: int, j: int|
        0 <= i < points.len() && 0 <= j < points.len() && i != j ==> spec_gcd(
            ((#[trigger] points[i]) + q - (#[trigger] points[j])) % q,
            q,
        ) == 1
}

/// Bound under which the interpolation arithmetic fits in `u128`.
pub open spec fn small_modulus(q: u128) -> bool {
    0 < q <= 0x1_0000_0000_0000_0000
}

proof fn lemma_small_modulus_products(a: u128, b: u128, q: u128)
    requires
        small_modulus(q),
        a < q,
        b < q,
    ensures
        a * b <= u128::MAX,
{
    assert(a * b <= (q - 1) * (q - 1)) by (nonlinear_arith)
        requires
            a < q,
            b < q,
    ;
    assert((q - 1) * (q - 1) <= 0xffff_ffff_ffff_ffff * 0xffff_ffff_ffff_ffffint) by (nonlinear_arith)
        requires
            q - 1 <= 0xffff_ffff_ffff_ffffint,
            q >= 1,
    ;
}

proof fn lemma_mod_mul_step(t: int, x: int, f: int, q: int)
    requires
        q > 0,
    ensures
        (((t % q) * x) % q * f) % q == (t * (x * f)) % q,
{
    lemma_mul_mod_noop_left(t, x, q);
    lemma_mul_mod_noop_left(t * x, f, q);
    vstd::arithmetic::mul::lemma_mul_is_associative(t, x, f);
}

/// Value at zero of the interpolating polynomial through
/// `(points[i], values[i])`, computed in `Z_q`, for points whose
/// differences are invertible modulo `q`.
pub fn lagrange_interpolation_at_zero(points: &Vec<ZqMod>, values: &Vec<ZqMod>, q: ZqMod) -> (res:
    ZqMod)
    requires
        small_modulus(q),
        points.len() <= values.len(),
        interpolation_points_ok(points@, q as int),
        forall|i: int| 0 <= i < values.len() ==> (#[trigger] values[i]) < q,
    ensures
        res < q,
        res == spec_lagrange_at_zero(points@, values@, q as int),
{
    let n = points.len();
    let mut result: u128 = 0;
    let ghost qq = q as int;
    let mut i: usize = 0;
    proof {
        assert(lagrange_partial_sum(points@, values@, qq, 0) == 0);
        lemma_small_mod(0, q as nat);
    }
    while i < n
        invariant
            n == points.len(),
            small_modulus(q),
            qq == q as int,
            points.len() <= values.len(),
            interpolation_points_ok(points@, qq),
            forall|k: int| 0 <= k < values.len() ==> (#[trigger] values[k]) < q,
            i <= n,
            result < q,
            result == lagrange_partial_sum(points@, values@, qq, i as int) % qq,
        decreases n - i,
    {
        let xi = points[i];
        let yi = values[i];
        let mut term = yi;
        let mut j: usize = 0;
        proof {
            assert(basis_product(points@, qq, i as int, 0) == 1);
            lemma_small_mod(yi as nat, q as nat);
        }
        while j < n
            invariant
                n == points.len(),
                small_modulus(q),
                qq == q as int,
                points.len() <= values.len(),
                interpolation_points_ok(points@, qq),
                i < n,
                xi == points[i as int],
                yi == values[i as int],
                yi < q,
                j <= n,
                term < q,
                term == (yi * basis_product(points@, qq, i as int, j as int)) % qq,
            decreases n - j,
        {
            if i != j {
                let xj = points[j];
                assert(xj < q);
                let numerator = (q - xj) % q;
                let denominator = (xi + q - xj) % q;
                proof {
                    assert(spec_gcd(((points[i as int]) + qq - (points[j as int])) % qq, qq) == 1);
                }
                let denominator_inv = mod_inverse(denominator, q);
                proof {
                    lemma_small_modulus_products(term, numerator, q);
                }
                let t1 = (term * numerator) % q;
                proof {
                    lemma_small_modulus_products(t1, denominator_inv, q);
                }
                let t2 = (t1 * denominator_inv) % q;
                proof {
                    let bp = basis_product(points@, qq, i as int, j as int);
                    assert(basis_product(points@, qq, i as int, j + 1) == bp * lagrange_factor(
                        points@,
                        qq,
                        i as int,
                        j as int,
                    ));
                    assert(lagrange_factor(points@, qq, i as int, j as int) == numerator
                        * denominator_inv);
                    lemma_mod_mul_step(yi * bp, numerator as int, denominator_inv as int, qq);
                    vstd::arithmetic::mul::lemma_mul_is_associative(
                        yi as int,
                        bp,
                        numerator * denominator_inv,
                    );
                }
                term = t2;
            } else {
                proof {
                    assert(basis_product(points@, qq, i as int, j + 1) == basis_product(
                        points@,
                        qq,
                        i as int,
                        j as int,
                    ));
                }
            }
            j = j + 1;
        }
        let new_result = (result + term) % q;
        proof {
            let s = lagrange_partial_sum(points@, values@, qq, i as int);
            let t = yi * basis_product(points@, qq, i as int, n as int);
            assert(lagrange_partial_sum(points@, values@, qq, i + 1) == s + t);
            lemma_add_mod_noop(s, t, qq);
            lemma_mod_twice(s, qq);
            lemma_mod_twice(t, qq);
        }
        result = new_result;
        i = i + 1;
    }
    result
}


/// The evaluation point of each party: its id reduced modulo `q`.
pub fn generate_evaluation_points_n(ids: &Vec<Id>, q: ZqMod) -> (res: Vec<ZqMod>)
    requires
        q > 0,
    ensures
        res.len() == ids.len(),
        forall|i: int| 0 <= i < ids.len() ==> res[i] == (ids[i] as int) % (q as int),
{
    let mut res: Vec<ZqMod> = Vec::new();
    let mut k: usize = 0;
    while k < ids.len()
        invariant
            q > 0,
            k <= ids.len(),
            res.len() == k,
            forall|i: int| 0 <= i < k ==> res[i] == (ids[i] as int) % (q as int),
        decreases ids.len() - k,
    {
        let base = (ids[k] as ZqMod) % q;
        res.push(base);
        k = k + 1;
    }
    res
}

/// All rows of `m` have the length of the first row.
pub open spec fn is_rectangular<T>(m: Seq<Vec<T>>) -> bool {
    forall|i: int| 0 <= i < m.len() ==> (#[trigger] m[i]).len() == m[0].len()
}

/// Number of columns of a matrix given by its rows (zero when there is no
/// row or the first row is empty).
pub open spec fn column_count<T>(m: Seq<Vec<T>>) -> int {
    if m.len() == 0 {
        0
    } else {
        m[0].len() as int
    }
}

/// Column `j` of a matrix given by its rows.
pub open spec fn column(m: Seq<Vec<u128>>, j: int) -> Seq<u128> {
    Seq::new(m.len(), |i: int| m[i][j])
}

/// Law: transposing a rectangular matrix with at least one entry twice
/// gives the matrix back.
pub proof fn lemma_transpose_twice(m: Seq<Vec<u128>>, once: Seq<Vec<u128>>, twice: Seq<Vec<u128>>)
    requires
        is_rectangular(m),
        m.len() >= 1,
        m[0].len() >= 1,
        once.len() == column_count(m),
        forall|j: int| 0 <= j < once.len() ==> (#[trigger] once[j])@ == column(m, j),
        twice.len() == column_count(once),
        forall|j: int| 0 <= j < twice.len() ==> (#[trigger] twice[j])@ == column(once, j),
    ensures
        twice.len() == m.len(),
        forall|i: int| 0 <= i < m.len() ==> (#[trigger] twice[i])@ == m[i]@,
{
    assert(once[0]@ == column(m, 0));
    assert forall|i: int| 0 <= i < m.len() implies (#[trigger] twice[i])@ == m[i]@ by {
        assert(twice[i]@ == column(once, i));
        assert forall|j: int| 0 <= j < m[i]@.len() implies twice[i]@[j] == m[i]@[j] by {
            assert(m[i].len() == m[0].len());
            assert(once[j]@ == column(m, j));
        }
        assert(twice[i]@ =~= m[i]@);
    }
}

/// Transposition of a rectangular matrix of residues.
pub fn transpose(shares: &Vec<Vec<ZqMod>>) -> (res: Vec<Vec<ZqMod>>)
    requires
        is_rectangular(shares@),
    ensures
        res.len() == column_count(shares@),
        forall|j: int| 0 <= j < res.len() ==> (#[trigger] res[j])@ == column(shares@, j),
{
    if shares.len() == 0 || shares[0].len() == 0 {
        return Vec::new();
    }
    let rows = shares.len();
    let cols = shares[0].len();
    let mut transposed: Vec<Vec<ZqMod>> = Vec::new();
    let mut j: usize = 0;
    while j < cols
        invariant
            rows == shares.len(),
            rows > 0,
            cols == shares[0].len(),
            is_rectangular(shares@),
            j <= cols,
            transposed.len() == j,
            forall|k: int| 0 <= k < j ==> (#[trigger] transposed[k])@ == column(shares@, k),
        decreases cols - j,
    {
        let mut col: Vec<ZqMod> = Vec::new();
        let mut i: usize = 0;
        while i < rows
            invariant
                rows == shares.len(),
                cols == shares[0].len(),
                is_rectangular(shares@),
                j < cols,
                i <= rows,
                col.len() == i,
                forall|k: int| 0 <= k < i ==> col[k] == shares[k][j as int],
            decreases rows - i,
        {
            assert(shares[i as int].len() == cols);
            col.push(shares[i][j]);
            i = i + 1;
        }
        assert(col@ =~= column(shares@, j as int));
        transposed.push(col);
        j = j + 1;
    }
    transposed
}

/// Ids reduced modulo `q`.
pub open spec fn ids_mod(ids: Seq<Id>, q: int) -> Seq<u128> {
    ids.map_values(|id: Id| ((id as int) % q) as u128)
}

/// Concatenation of the decimal representations of the secrets.
pub open spec fn decimal_concat(s: Seq<u128>) -> Seq<u8>
    decreases s.len(),
{
    if s.len() == 0 {
        Seq::empty()
    } else {
        decimal_concat(s.drop_last()) + decimal(s.last() as nat)
    }
}

/// SHA-256 of the concatenated decimal representations of the secrets.
pub fn vec_to_sha256(secrets: &Vec<ZqMod>) -> (r: [u8; 32])
    ensures
        r@ == spec_sha256(decimal_concat(secrets@)),
{
    let mut concatenated: Vec<u8> = Vec::new();
    let mut k: usize = 0;
    while k < secrets.len()
        invariant
            k <= secrets.len(),
            concatenated@ == decimal_concat(secrets@.subrange(0, k as int)),
        decreases secrets.len() - k,
    {
        proof {
            assert(secrets@.subrange(0, k + 1).drop_last() =~= secrets@.subrange(0, k as int));
        }
        push_decimal(secrets[k], &mut concatenated);
        k = k + 1;
    }
    assert(secrets@.subrange(0, secrets.len() as int) =~= secrets@);
    sha256(&concatenated)
}

/// The first 16 bytes of a digest read as a big-endian integer.
pub fn hash_to_u128(hash: &[u8; 32]) -> (r: u128)
    ensures
        r == be_value(hash@.subrange(0, 16)),
{
    u128_from_be_prefix(hash)
}

/// The reconstructed secrets of one beacon slot.
pub struct BreezeReconResult {
    pub value: Vec<ZqMod>,
}

/// The beacon value derived from reconstructed secrets.
pub open spec fn spec_secret_to_number(value: Seq<u128>) -> nat {
    be_value(spec_sha256(decimal_concat(value)).subrange(0, 16))
}

impl BreezeReconResult {
    pub fn new(output: Vec<ZqMod>) -> (r: Self)
        ensures
            r.value@ == output@,
    {
        BreezeReconResult { value: output }
    }

    /// The beacon value: the first 16 bytes, big-endian, of the SHA-256 of
    /// the secrets written one after another in decimal.
    pub fn secret_to_number(&self) -> (r: RandomNum)
        ensures
            r == spec_secret_to_number(self.value@),
    {
        let hash = vec_to_sha256(&self.value);
        hash_to_u128(&hash)
    }

    /// Interpolates, for every column of `shares` (one row per party, in the
    /// order of `evaluate_ids`), the secret at zero and adds it to the matching
    /// entry of `cumulated`, for rows of one length and ids distinct modulo
    /// `q`.
    pub fn interpolate(
        evaluate_ids: &Vec<Id>,
        shares: &Vec<Vec<ZqMod>>,
        q: ZqMod,
        cumulated: &mut Vec<ZqMod>,
    )
        requires
            small_modulus(q),
            is_rectangular(shares@),
            evaluate_ids.len() <= shares.len(),
            interpolation_points_ok(ids_mod(evaluate_ids@, q as int), q as int),
            forall|i: int, j: int|
                0 <= i < shares.len() && 0 <= j < shares[i].len() ==> (#[trigger] shares[i][j]) < q,
            old(cumulated).len() >= column_count(shares@),
            forall|k: int| 0 <= k < old(cumulated).len() ==> (#[trigger] old(cumulated)[k]) <= u128::MAX - q,
        ensures
            final(cumulated).len() == old(cumulated).len(),
            forall|k: int|
                0 <= k < column_count(shares@) ==> (#[trigger] final(cumulated)[k]) == old(cumulated)[k]
                    + spec_lagrange_at_zero(ids_mod(evaluate_ids@, q as int), column(shares@, k), q as int),
            forall|k: int|
                column_count(shares@) <= k < old(cumulated).len() ==> (#[trigger] final(cumulated)[k])
                    == old(cumulated)[k],
    {
        let evaluate_points = generate_evaluation_points_n(evaluate_ids, q);
        assert(evaluate_points@ =~= ids_mod(evaluate_ids@, q as int));
        let shares_t = transpose(shares);
        let ghost start = cumulated@;
        let mut idx: usize = 0;
        while idx < shares_t.len()
            invariant
                small_modulus(q),
                evaluate_points@ == ids_mod(evaluate_ids@, q as int),
                interpolation_points_ok(evaluate_points@, q as int),
                is_rectangular(shares@),
                evaluate_ids.len() <= shares.len(),
                forall|i: int, j: int|
                    0 <= i < shares.len() && 0 <= j < shares[i].len() ==> (#[trigger] shares[i][j]) < q,
                shares_t.len() == column_count(shares@),
                forall|j: int| 0 <= j < shares_t.len() ==> (#[trigger] shares_t[j])@ == column(shares@, j),
                start.len() >= column_count(shares@),
                forall|k: int| 0 <= k < start.len() ==> (#[trigger] start[k]) <= u128::MAX - q,
                cumulated.len() == start.len(),
                idx <= shares_t.len(),
                forall|k: int|
                    0 <= k < idx ==> (#[trigger] cumulated[k]) == start[k] + spec_lagrange_at_zero(
                        evaluate_points@,
                        column(shares@, k),
                        q as int,
                    ),
                forall|k: int| idx <= k < start.len() ==> (#[trigger] cumulated[k]) == start[k],
            decreases shares_t.len() - idx,
        {
            let share = &shares_t[idx];
            assert forall|i: int| 0 <= i < share.len() implies (#[trigger] share[i]) < q by {
                assert(share[i] == shares[i][idx as int]);
                assert(shares[i].len() == shares[0].len());
            }
            let res = lagrange_interpolation_at_zero(&evaluate_points, share, q);
            let c = cumulated[idx];
            cumulated.set(idx, c + res);
            idx = idx + 1;
        }
    }
}

} // verus!
