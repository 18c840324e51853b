//! Why Lagrange interpolation at zero gives back the shared secret: over
//! `Z_q`, with points whose differences are invertible, interpolating the
//! values of a polynomial of degree below the number of points yields its
//! constant term.

use vstd::prelude::*;
use vstd::arithmetic::div_mod::{lemma_add_mod_noop, lemma_mul_mod_noop, lemma_mod_twice, lemma_sub_mod_noop, lemma_fundamental_div_mod};
use crate::breeze_reconstruct_dealer::{spec_gcd, spec_mod_inverse, is_mod_inverse, interpolation_points_ok};

verus! {

// ---- modular arithmetic ----

proof fn lemma_cong_mul(a: int, a2: int, b: int, b2: int, q: int)
    requires
        q > 0,
        a % q == a2 % q,
        b % q == b2 % q,
    ensures
        (a * b) % q == (a2 * b2) % q,
{
    lemma_mul_mod_noop(a, b, q);
    lemma_mul_mod_noop(a2, b2, q);
}

proof fn lemma_cong_add(a: int, a2: int, b: int, b2: int, q: int)
    requires
        q > 0,
        a % q == a2 % q,
        b % q == b2 % q,
    ensures
        (a + b) % q == (a2 + b2) % q,
{
    lemma_add_mod_noop(a, b, q);
    lemma_add_mod_noop(a2, b2, q);
}

proof fn lemma_cong_sub(a: int, a2: int, b: int, b2: int, q: int)
    requires
        q > 0,
        a % q == a2 % q,
        b % q == b2 % q,
    ensures
        (a - b) % q == (a2 - b2) % q,
{
    lemma_sub_mod_noop(a, b, q);
    lemma_sub_mod_noop(a2, b2, q);
}

/// Bezout coefficients: `a * x + b * y == gcd(a, b)`.
proof fn lemma_bezout(a: int, b: int) -> (xy: (int, int))
    requires
        a >= 0,
        b >= 0,
    ensures
        a * xy.0 + b * xy.1 == spec_gcd(a, b),
    decreases a,
{
    if a == 0 {
        (0, 1)
    } else {
        lemma_fundamental_div_mod(b, a);
        let r = b % a;
        let d = b / a;
        let (x, y) = lemma_bezout(r, a);
        assert(a * (y - d * x) + b * x == r * x + a * y) by (nonlinear_arith)
            requires
                b == a * d + r,
        ;
        (y - d * x, x)
    }
}

/// An element coprime with `q` has its inverse.
pub proof fn lemma_inverse_exists(a: int, q: int)
    requires
        q > 0,
        0 <= a,
        spec_gcd(a, q) == 1,
    ensures
        is_mod_inverse(a, q, spec_mod_inverse(a, q)),
        (a * spec_mod_inverse(a, q)) % q == 1int % q,
{
    let (x, y) = lemma_bezout(a, q);
    let r = x % q;
    assert((a * r) % q == 1int % q) by {
        lemma_mul_mod_noop(a, x, q);
        lemma_mul_mod_noop(a, r, q);
        lemma_mod_twice(x, q);
        assert(a * x == q * (-y) + 1) by (nonlinear_arith)
            requires
                a * x + q * y == 1,
        ;
        vstd::arithmetic::div_mod::lemma_mod_multiples_vanish(-y, 1, q);
    }
    assert(is_mod_inverse(a, q, r));
}

// ---- sums ----

/// `f(0) + ... + f(n - 1)`.
pub open spec fn fsum(f: spec_fn(int) -> int, n: int) -> int
    decreases n,
{
    if n <= 0 {
        0
    } else {
        fsum(f, n - 1) + f(n - 1)
    }
}

proof fn lemma_fsum_cong(f: spec_fn(int) -> int, g: spec_fn(int) -> int, n: int, q: int)
    requires
        q > 0,
        forall|i: int| 0 <= i < n ==> #[trigger] f(i) % q == g(i) % q,
    ensures
        fsum(f, n) % q == fsum(g, n) % q,
    decreases n,
{
    if n > 0 {
        lemma_fsum_cong(f, g, n - 1, q);
        lemma_cong_add(fsum(f, n - 1), fsum(g, n - 1), f(n - 1), g(n - 1), q);
    }
}

proof fn lemma_fsum_ext(f: spec_fn(int) -> int, g: spec_fn(int) -> int, n: int)
    requires
        forall|i: int| 0 <= i < n ==> #[trigger] f(i) == g(i),
    ensures
        fsum(f, n) == fsum(g, n),
    decreases n,
{
    if n > 0 {
        lemma_fsum_ext(f, g, n - 1);
    }
}

proof fn lemma_fsum_add(f: spec_fn(int) -> int, g: spec_fn(int) -> int, n: int)
    ensures
        fsum(|i: int| f(i) + g(i), n) == fsum(f, n) + fsum(g, n),
    decreases n,
{
    if n > 0 {
        lemma_fsum_add(f, g, n - 1);
    }
}

proof fn lemma_fsum_sub(f: spec_fn(int) -> int, g: spec_fn(int) -> int, n: int)
    ensures
        fsum(|i: int| f(i) - g(i), n) == fsum(f, n) - fsum(g, n),
    decreases n,
{
    if n > 0 {
        lemma_fsum_sub(f, g, n - 1);
    }
}

proof fn lemma_fsum_scale(c: int, f: spec_fn(int) -> int, n: int)
    ensures
        fsum(|i: int| c * f(i), n) == c * fsum(f, n),
    decreases n,
{
    if n > 0 {
        lemma_fsum_scale(c, f, n - 1);
        assert(c * fsum(f, n - 1) + c * f(n - 1) == c * (fsum(f, n - 1) + f(n - 1))) by (nonlinear_arith);
    }
}

/// Shifting the terms one place up.
proof fn lemma_fsum_shift(f: spec_fn(int) -> int, g: spec_fn(int) -> int, n: int)
    requires
        n >= 1,
        forall|i: int| #[trigger] f(i) == if i >= 1 { g(i - 1) } else { 0 },
    ensures
        fsum(f, n) == fsum(g, n - 1),
    decreases n,
{
    if n > 1 {
        lemma_fsum_shift(f, g, n - 1);
        assert(f(n - 1) == g(n - 2));
        assert(fsum(f, n) == fsum(f, n - 1) + f(n - 1));
        assert(fsum(g, n - 1) == fsum(g, n - 2) + g(n - 2));
    } else {
        assert(f(0) == 0);
        assert(fsum(f, 1) == fsum(f, 0) + f(0));
    }
}

/// Dropping the last term.
proof fn lemma_fsum_truncate(f: spec_fn(int) -> int, g: spec_fn(int) -> int, n: int)
    requires
        n >= 1,
        forall|i: int| 0 <= i < n - 1 ==> #[trigger] f(i) == g(i),
        f(n - 1) == 0,
    ensures
        fsum(f, n) == fsum(g, n - 1),
{
    lemma_fsum_ext(f, g, n - 1);
}

// ---- polynomials by their coefficients, lowest first ----

/// The value of the polynomial at `x` (Horner's rule).
pub open spec fn peval(c: Seq<int>, x: int) -> int
    decreases c.len(),
{
    if c.len() == 0 {
        0
    } else {
        c[0] + x * peval(c.drop_first(), x)
    }
}

/// The quotient of the division by `x - a`.
pub open spec fn quot(c: Seq<int>, a: int) -> Seq<int>
    decreases c.len(),
{
    if c.len() <= 1 {
        Seq::empty()
    } else {
        seq![peval(c.drop_first(), a)] + quot(c.drop_first(), a)
    }
}

proof fn lemma_quot(c: Seq<int>, a: int, x: int)
    requires
        c.len() >= 1,
    ensures
        peval(c, x) == (x - a) * peval(quot(c, a), x) + peval(c, a),
        quot(c, a).len() == c.len() - 1,
        c.len() >= 2 ==> quot(c, a).last() == c.last(),
    decreases c.len(),
{
    let r = c.drop_first();
    if c.len() == 1 {
        assert(peval(r, x) == 0);
        assert(peval(r, a) == 0);
        assert(peval(c, x) == c[0] + x * 0);
        assert(peval(c, a) == c[0] + a * 0);
        assert(quot(c, a) =~= Seq::<int>::empty());
        assert(peval(quot(c, a), x) == 0);
        assert((x - a) * 0 == 0);
    } else {
        lemma_quot(r, a, x);
        let qr = quot(r, a);
        let qc = quot(c, a);
        assert(qc.drop_first() =~= qr);
        assert(peval(qc, x) == peval(r, a) + x * peval(qr, x));
        let pra = peval(r, a);
        let prx = peval(r, x);
        let pq = peval(qr, x);
        assert(c[0] + x * prx == (x - a) * (pra + x * pq) + (c[0] + a * pra)) by (nonlinear_arith)
            requires
                prx == (x - a) * pq + pra,
        ;
        assert(peval(c, x) == c[0] + x * prx);
        assert(peval(c, a) == c[0] + a * pra);
        if r.len() == 1 {
            assert(peval(r.drop_first(), a) == 0);
            assert(qc =~= seq![r[0]]);
        }
    }
}

/// The coefficients with `v` added to the constant one.
pub open spec fn add_const(s: Seq<int>, v: int) -> Seq<int> {
    if s.len() == 0 {
        seq![v]
    } else {
        s.update(0, s[0] + v)
    }
}

/// The product with `x - a`.
pub open spec fn mul_lin(c: Seq<int>, a: int) -> Seq<int>
    decreases c.len(),
{
    if c.len() == 0 {
        Seq::empty()
    } else {
        seq![-a * c[0]] + add_const(mul_lin(c.drop_first(), a), c[0])
    }
}

proof fn lemma_mul_lin(c: Seq<int>, a: int, x: int)
    ensures
        peval(mul_lin(c, a), x) == (x - a) * peval(c, x),
        c.len() >= 1 ==> mul_lin(c, a).len() == c.len() + 1,
        c.len() >= 1 ==> mul_lin(c, a).last() == c.last(),
    decreases c.len(),
{
    if c.len() > 0 {
        let r = c.drop_first();
        lemma_mul_lin(r, a, x);
        let m = mul_lin(r, a);
        let ac = add_const(m, c[0]);
        assert(peval(ac, x) == peval(m, x) + c[0]) by {
            if m.len() > 0 {
                assert(ac.drop_first() =~= m.drop_first());
            } else {
                assert(peval(ac.drop_first(), x) == 0);
            }
        }
        let mc = mul_lin(c, a);
        assert(mc.drop_first() =~= ac);
        let prx = peval(r, x);
        assert(-a * c[0] + x * ((x - a) * prx + c[0]) == (x - a) * (c[0] + x * prx)) by (nonlinear_arith);
        if r.len() == 0 {
            assert(m.len() == 0);
        }
    }
}

/// `(t - X[0]) * ... * (t - X[k - 1])`.
pub open spec fn prodlin(xs: Seq<int>, t: int, k: int) -> int
    decreases k,
{
    if k <= 0 {
        1
    } else {
        prodlin(xs, t, k - 1) * (t - xs[k - 1])
    }
}

/// The coefficients of `(x - X[0]) * ... * (x - X[k - 1])`.
pub open spec fn node(xs: Seq<int>, k: int) -> Seq<int>
    decreases k,
{
    if k <= 0 {
        seq![1]
    } else {
        mul_lin(node(xs, k - 1), xs[k - 1])
    }
}

proof fn lemma_node(xs: Seq<int>, k: int, t: int)
    requires
        k >= 0,
    ensures
        peval(node(xs, k), t) == prodlin(xs, t, k),
        node(xs, k).len() == k + 1,
        node(xs, k).last() == 1,
    decreases k,
{
    if k == 0 {
        assert(peval(seq![1int].drop_first(), t) == 0);
    } else {
        lemma_node(xs, k - 1, t);
        lemma_mul_lin(node(xs, k - 1), xs[k - 1], t);
        assert(prodlin(xs, t, k) == prodlin(xs, t, k - 1) * (t - xs[k - 1]));
        assert((t - xs[k - 1]) * prodlin(xs, t, k - 1) == prodlin(xs, t, k - 1) * (t - xs[k - 1])) by (nonlinear_arith);
    }
}

/// The product over `j < k`, `j != i`, of `-X[j]`.
pub open spec fn ni0(xs: Seq<int>, i: int, k: int) -> int
    decreases k,
{
    if k <= 0 {
        1
    } else if k - 1 == i {
        ni0(xs, i, k - 1)
    } else {
        ni0(xs, i, k - 1) * (-xs[k - 1])
    }
}

proof fn lemma_prodlin_zero(xs: Seq<int>, i: int, k: int)
    requires
        0 <= i < k,
    ensures
        prodlin(xs, 0, k) == (-xs[i]) * ni0(xs, i, k),
    decreases k,
{
    if k - 1 == i {
        lemma_ni0_outside(xs, i, k - 1);
        assert(prodlin(xs, 0, k) == prodlin(xs, 0, k - 1) * (0 - xs[i]));
        assert(prodlin(xs, 0, k - 1) * (0 - xs[i]) == (-xs[i]) * prodlin(xs, 0, k - 1)) by (nonlinear_arith);
    } else {
        lemma_prodlin_zero(xs, i, k - 1);
        let p = ni0(xs, i, k - 1);
        assert((-xs[i]) * p * (0 - xs[k - 1]) == (-xs[i]) * (p * (-xs[k - 1]))) by (nonlinear_arith);
    }
}

proof fn lemma_ni0_outside(xs: Seq<int>, i: int, k: int)
    requires
        0 <= k <= i,
    ensures
        ni0(xs, i, k) == prodlin(xs, 0, k),
    decreases k,
{
    if k > 0 {
        lemma_ni0_outside(xs, i, k - 1);
    }
}

proof fn lemma_prodlin_at_point(xs: Seq<int>, i: int, k: int)
    requires
        0 <= i < k,
    ensures
        prodlin(xs, xs[i], k) == 0,
    decreases k,
{
    if k - 1 == i {
        assert(prodlin(xs, xs[i], k) == prodlin(xs, xs[i], k - 1) * 0);
    } else {
        lemma_prodlin_at_point(xs, i, k - 1);
    }
}

// ---- the reciprocal products of the points ----

/// The points as integers.
pub open spec fn ints(xs: Seq<u128>) -> Seq<int> {
    xs.map_values(|x: u128| x as int)
}

/// `X[i] - X[j]` as a residue.
pub open spec fn dm(xs: Seq<u128>, q: int, i: int, j: int) -> int {
    (xs[i] + q - xs[j]) % q
}

/// The inverse of `X[i] - X[j]`.
pub open spec fn dinv(xs: Seq<u128>, q: int, i: int, j: int) -> int {
    spec_mod_inverse(dm(xs, q, i, j), q)
}

/// The product over `j < k`, `j != i`, of the inverses of `X[i] - X[j]`.
pub open spec fn rprod(xs: Seq<u128>, q: int, i: int, k: int) -> int
    decreases k,
{
    if k <= 0 {
        1
    } else if k - 1 == i {
        rprod(xs, q, i, k - 1)
    } else {
        rprod(xs, q, i, k - 1) * dinv(xs, q, i, k - 1)
    }
}

proof fn lemma_dm(xs: Seq<u128>, q: int, i: int, j: int)
    requires
        q > 0,
        0 <= i < xs.len(),
        0 <= j < xs.len(),
    ensures
        dm(xs, q, i, j) % q == (xs[i] - xs[j]) % q,
        0 <= dm(xs, q, i, j) < q,
{
    vstd::arithmetic::div_mod::lemma_mod_add_multiples_vanish(xs[i] - xs[j], q);
    lemma_mod_twice(xs[i] + q - xs[j], q);
    vstd::arithmetic::div_mod::lemma_mod_bound(xs[i] + q - xs[j], q);
}

proof fn lemma_dinv(xs: Seq<u128>, q: int, i: int, j: int)
    requires
        q > 0,
        interpolation_points_ok(xs, q),
        0 <= i < xs.len(),
        0 <= j < xs.len(),
        i != j,
    ensures
        (dm(xs, q, i, j) * dinv(xs, q, i, j)) % q == 1int % q,
        ((xs[i] - xs[j]) * dinv(xs, q, i, j)) % q == 1int % q,
{
    lemma_dm(xs, q, i, j);
    assert(spec_gcd(((xs[i]) + q - (xs[j])) % q, q) == 1);
    lemma_inverse_exists(dm(xs, q, i, j), q);
    lemma_cong_mul(dm(xs, q, i, j), xs[i] - xs[j], dinv(xs, q, i, j), dinv(xs, q, i, j), q);
}

proof fn lemma_points_ok_sub(xs: Seq<u128>, q: int)
    requires
        interpolation_points_ok(xs, q),
        xs.len() >= 1,
    ensures
        interpolation_points_ok(xs.drop_first(), q),
        interpolation_points_ok(xs.drop_last(), q),
{
    let df = xs.drop_first();
    let dl = xs.drop_last();
    assert forall|i: int, j: int| 0 <= i < df.len() && 0 <= j < df.len() && i != j implies spec_gcd(((#[trigger] df[i]) + q - (#[trigger] df[j])) % q, q) == 1 by {
        assert(df[i] == xs[i + 1] && df[j] == xs[j + 1]);
    }
    assert forall|i: int, j: int| 0 <= i < dl.len() && 0 <= j < dl.len() && i != j implies spec_gcd(((#[trigger] dl[i]) + q - (#[trigger] dl[j])) % q, q) == 1 by {
        assert(dl[i] == xs[i] && dl[j] == xs[j]);
    }
}

/// Dropping the last point changes no product over earlier points.
proof fn lemma_rprod_prefix(xs: Seq<u128>, q: int, i: int, k: int)
    requires
        0 <= i < xs.len() - 1,
        0 <= k <= xs.len() - 1,
    ensures
        rprod(xs.drop_last(), q, i, k) == rprod(xs, q, i, k),
    decreases k,
{
    if k > 0 {
        lemma_rprod_prefix(xs, q, i, k - 1);
        assert(dinv(xs.drop_last(), q, i, k - 1) == dinv(xs, q, i, k - 1));
    }
}

/// Splitting off the factor of the first point.
proof fn lemma_rprod_first(xs: Seq<u128>, q: int, i: int, k: int)
    requires
        1 <= i < xs.len(),
        1 <= k <= xs.len(),
    ensures
        rprod(xs, q, i, k) == dinv(xs, q, i, 0) * rprod(xs.drop_first(), q, i - 1, k - 1),
    decreases k,
{
    let df = xs.drop_first();
    if k == 1 {
        assert(rprod(xs, q, i, 1) == rprod(xs, q, i, 0) * dinv(xs, q, i, 0));
    } else {
        lemma_rprod_first(xs, q, i, k - 1);
        let a = dinv(xs, q, i, 0);
        let p = rprod(df, q, i - 1, k - 2);
        if k - 1 != i {
            assert(dinv(df, q, i - 1, k - 2) == dinv(xs, q, i, k - 1));
            let f = dinv(xs, q, i, k - 1);
            assert(a * p * f == a * (p * f)) by (nonlinear_arith);
        }
    }
}

/// The sum over the points of their reciprocal products.
pub open spec fn esum(xs: Seq<u128>, q: int) -> int {
    fsum(|i: int| rprod(xs, q, i, xs.len() as int), xs.len() as int)
}

/// The term of point `i` in the recurrence of [`esum`].
proof fn lemma_esum_term(xs: Seq<u128>, q: int, i: int)
    requires
        q > 0,
        interpolation_points_ok(xs, q),
        xs.len() >= 2,
        0 <= i < xs.len(),
    ensures
        (rprod(xs, q, i, xs.len() as int) * (xs[xs.len() - 1] - xs[0])) % q == ((if i >= 1 {
            rprod(xs.drop_first(), q, i - 1, xs.len() - 1)
        } else {
            0
        }) - (if i <= xs.len() - 2 {
            rprod(xs.drop_last(), q, i, xs.len() - 1)
        } else {
            0
        })) % q,
{
    let k = xs.len() as int;
    let r = rprod(xs, q, i, k);
    let a = if i >= 1 { rprod(xs.drop_first(), q, i - 1, k - 1) } else { 0 };
    let b = if i <= k - 2 { rprod(xs.drop_last(), q, i, k - 1) } else { 0 };
    let d0 = dm(xs, q, i, 0);
    let dz = dm(xs, q, i, k - 1);
    lemma_dm(xs, q, i, 0);
    lemma_dm(xs, q, i, k - 1);
    // a = r * (x_i - x_0) and b = r * (x_i - z), modulo q
    assert((r * (xs[i] - xs[0])) % q == a % q) by {
        if i >= 1 {
            lemma_rprod_first(xs, q, i, k);
            lemma_dinv(xs, q, i, 0);
            let v = dinv(xs, q, i, 0);
            assert(r * (xs[i] - xs[0]) == a * ((xs[i] - xs[0]) * v)) by (nonlinear_arith)
                requires
                    r == v * a,
            ;
            lemma_cong_mul(a, a, (xs[i] - xs[0]) * v, 1, q);
        } else {
            assert(r * (xs[i] - xs[0]) == r * 0);
        }
    }
    assert((r * (xs[i] - xs[k - 1])) % q == b % q) by {
        if i <= k - 2 {
            lemma_rprod_prefix(xs, q, i, k - 1);
            lemma_dinv(xs, q, i, k - 1);
            let v = dinv(xs, q, i, k - 1);
            assert(r == rprod(xs, q, i, k - 1) * v);
            assert(r * (xs[i] - xs[k - 1]) == b * ((xs[i] - xs[k - 1]) * v)) by (nonlinear_arith)
                requires
                    r == b * v,
            ;
            lemma_cong_mul(b, b, (xs[i] - xs[k - 1]) * v, 1, q);
        } else {
            assert(r * (xs[i] - xs[k - 1]) == r * 0);
        }
    }
    assert(r * (xs[k - 1] - xs[0]) == r * (xs[i] - xs[0]) - r * (xs[i] - xs[k - 1])) by (nonlinear_arith);
    lemma_cong_sub(r * (xs[i] - xs[0]), a, r * (xs[i] - xs[k - 1]), b, q);
}

/// The reciprocal products of two or more points sum to zero modulo `q`.
proof fn lemma_esum_zero(xs: Seq<u128>, q: int)
    requires
        q > 0,
        interpolation_points_ok(xs, q),
        xs.len() >= 2,
    ensures
        esum(xs, q) % q == 0,
    decreases xs.len(),
{
    let k = xs.len() as int;
    let df = xs.drop_first();
    let dl = xs.drop_last();
    lemma_points_ok_sub(xs, q);
    let w = xs[k - 1] - xs[0];
    let rf = |i: int| rprod(xs, q, i, k);
    let af = |i: int| if i >= 1 { rprod(df, q, i - 1, k - 1) } else { 0 };
    let bf = |i: int| if i <= k - 2 { rprod(dl, q, i, k - 1) } else { 0 };
    let lhs = |i: int| w * rf(i);
    let rhs = |i: int| af(i) - bf(i);
    assert forall|i: int| 0 <= i < k implies #[trigger] lhs(i) % q == rhs(i) % q by {
        lemma_esum_term(xs, q, i);
        assert(lhs(i) == rf(i) * w) by (nonlinear_arith)
            requires
                lhs(i) == w * rf(i),
        ;
    }
    lemma_fsum_cong(lhs, rhs, k, q);
    lemma_fsum_scale(w, rf, k);
    lemma_fsum_sub(af, bf, k);
    lemma_fsum_ext(|i: int| af(i) - bf(i), rhs, k);
    lemma_fsum_ext(|i: int| w * rf(i), lhs, k);
    lemma_fsum_shift(af, |i: int| rprod(df, q, i, k - 1), k);
    lemma_fsum_truncate(bf, |i: int| rprod(dl, q, i, k - 1), k);
    assert(esum(df, q) == fsum(|i: int| rprod(df, q, i, k - 1), k - 1));
    assert(esum(dl, q) == fsum(|i: int| rprod(dl, q, i, k - 1), k - 1));
    assert(esum(xs, q) == fsum(rf, k));
    // (z - x_0) * esum(xs) = esum(df) - esum(dl), modulo q
    assert((w * esum(xs, q)) % q == (esum(df, q) - esum(dl, q)) % q);
    assert((esum(df, q) - esum(dl, q)) % q == 0) by {
        if k == 2 {
            assert(rprod(df, q, 0, 0) == 1);
            assert(rprod(dl, q, 0, 0) == 1);
            assert(rprod(df, q, 0, 1) == 1);
            assert(rprod(dl, q, 0, 1) == 1);
            assert(fsum(|i: int| rprod(df, q, i, k - 1), 1) == fsum(|i: int| rprod(df, q, i, k - 1), 0) + rprod(df, q, 0, 1));
            assert(fsum(|i: int| rprod(dl, q, i, k - 1), 1) == fsum(|i: int| rprod(dl, q, i, k - 1), 0) + rprod(dl, q, 0, 1));
        } else {
            lemma_esum_zero(df, q);
            lemma_esum_zero(dl, q);
            lemma_cong_sub(esum(df, q), 0, esum(dl, q), 0, q);
        }
    }
    // multiply by the inverse of z - x_0
    lemma_dinv(xs, q, k - 1, 0);
    let v = dinv(xs, q, k - 1, 0);
    let e = esum(xs, q);
    assert(e * (w * v) == (w * e) * v) by (nonlinear_arith);
    lemma_cong_mul(e, e, w * v, 1, q);
    lemma_cong_mul(w * e, 0, v, v, q);
}

proof fn lemma_fsum_zero(f: spec_fn(int) -> int, n: int)
    requires
        forall|i: int| 0 <= i < n ==> #[trigger] f(i) == 0,
    ensures
        fsum(f, n) == 0,
    decreases n,
{
    if n > 0 {
        lemma_fsum_zero(f, n - 1);
    }
}

/// The values of a polynomial at the points, weighted by their reciprocal
/// products and summed.
pub open spec fn dsum(xs: Seq<u128>, q: int, c: Seq<int>) -> int {
    fsum(|i: int| peval(c, xs[i] as int) * rprod(xs, q, i, xs.len() as int), xs.len() as int)
}

/// Over `k` points, the weighted sum of the values of a polynomial of
/// degree below `k` is its coefficient of degree `k - 1`, modulo `q`.
proof fn lemma_dsum(xs: Seq<u128>, q: int, c: Seq<int>)
    requires
        q > 0,
        interpolation_points_ok(xs, q),
        xs.len() >= 1,
        c.len() <= xs.len(),
    ensures
        dsum(xs, q, c) % q == (if c.len() == xs.len() { c.last() } else { 0 }) % q,
    decreases xs.len(),
{
    let k = xs.len() as int;
    let tf = |i: int| peval(c, xs[i] as int) * rprod(xs, q, i, k);
    assert(dsum(xs, q, c) == fsum(tf, k));
    if c.len() == 0 {
        assert forall|i: int| 0 <= i < k implies #[trigger] tf(i) == 0 by {
            assert(peval(c, xs[i] as int) == 0);
        }
        lemma_fsum_zero(tf, k);
    } else if k == 1 {
        assert(rprod(xs, q, 0, 0) == 1);
        assert(rprod(xs, q, 0, 1) == 1);
        assert(peval(c.drop_first(), xs[0] as int) == 0);
        assert(fsum(tf, 1) == fsum(tf, 0) + tf(0));
        assert(peval(c, xs[0] as int) == c[0]);
        assert(tf(0) == c[0]);
    } else {
        let z = xs[k - 1] as int;
        let qc = quot(c, z);
        let dl = xs.drop_last();
        lemma_points_ok_sub(xs, q);
        lemma_quot(c, z, z);
        let cz = peval(c, z);
        let ff = |i: int| if i <= k - 2 { peval(qc, xs[i] as int) * rprod(dl, q, i, k - 1) } else { 0 };
        let gf = |i: int| cz * rprod(xs, q, i, k);
        let hf = |i: int| ff(i) + gf(i);
        assert forall|i: int| 0 <= i < k implies #[trigger] tf(i) % q == hf(i) % q by {
            let x = xs[i] as int;
            lemma_quot(c, z, x);
            let pq = peval(qc, x);
            let r = rprod(xs, q, i, k);
            assert(tf(i) == (x - z) * pq * r + cz * r) by (nonlinear_arith)
                requires
                    tf(i) == peval(c, x) * r,
                    peval(c, x) == (x - z) * pq + cz,
            ;
            if i <= k - 2 {
                lemma_rprod_prefix(xs, q, i, k - 1);
                lemma_dinv(xs, q, i, k - 1);
                let v = dinv(xs, q, i, k - 1);
                let rp = rprod(dl, q, i, k - 1);
                assert(r == rp * v);
                assert((x - z) * pq * r == (pq * rp) * ((x - z) * v)) by (nonlinear_arith)
                    requires
                        r == rp * v,
                ;
                lemma_cong_mul(pq * rp, pq * rp, (x - z) * v, 1, q);
                lemma_cong_add((x - z) * pq * r, pq * rp, cz * r, cz * r, q);
            } else {
                assert(x - z == 0);
                assert((x - z) * pq * r == 0) by (nonlinear_arith)
                    requires
                        x - z == 0,
                ;
            }
        }
        lemma_fsum_cong(tf, hf, k, q);
        lemma_fsum_add(ff, gf, k);
        lemma_fsum_ext(|i: int| ff(i) + gf(i), hf, k);
        lemma_fsum_truncate(ff, |i: int| peval(qc, dl[i] as int) * rprod(dl, q, i, k - 1), k);
        assert(dsum(dl, q, qc) == fsum(|i: int| peval(qc, dl[i] as int) * rprod(dl, q, i, k - 1), k - 1));
        let rf = |i: int| rprod(xs, q, i, k);
        lemma_fsum_scale(cz, rf, k);
        lemma_fsum_ext(|i: int| cz * rf(i), gf, k);
        assert(esum(xs, q) == fsum(rf, k));
        lemma_esum_zero(xs, q);
        lemma_cong_mul(cz, cz, esum(xs, q), 0, q);
        lemma_dsum(dl, q, qc);
        let target = if qc.len() == dl.len() { qc.last() } else { 0 };
        lemma_cong_add(dsum(dl, q, qc), target, cz * esum(xs, q), 0, q);
        assert(fsum(ff, k) == dsum(dl, q, qc));
        assert(fsum(gf, k) == cz * esum(xs, q));
        assert(fsum(hf, k) == fsum(ff, k) + fsum(gf, k));
        assert(fsum(tf, k) % q == (target + 0) % q);
        assert(target == (if c.len() == xs.len() { c.last() } else { 0 }));
    }
}

// ---- Lagrange's basis at zero ----

/// The basis value of point `i` at zero is, modulo `q`, the product of
/// the other points negated times the reciprocal product.
proof fn lemma_basis_split(xs: Seq<u128>, q: int, i: int, k: int)
    requires
        q > 0,
        0 <= i < xs.len(),
        0 <= k <= xs.len(),
    ensures
        crate::breeze_reconstruct_dealer::basis_product(xs, q, i, k) % q == (ni0(ints(xs), i, k) * rprod(xs, q, i, k)) % q,
    decreases k,
{
    if k > 0 {
        lemma_basis_split(xs, q, i, k - 1);
        if k - 1 != i {
            let x = xs[k - 1] as int;
            let b = crate::breeze_reconstruct_dealer::basis_product(xs, q, i, k - 1);
            let n = ni0(ints(xs), i, k - 1);
            let r = rprod(xs, q, i, k - 1);
            let v = dinv(xs, q, i, k - 1);
            assert(ints(xs)[k - 1] == x);
            assert(((q - x) % q) % q == (-x) % q) by {
                lemma_mod_twice(q - x, q);
                vstd::arithmetic::div_mod::lemma_mod_add_multiples_vanish(-x, q);
            }
            assert(crate::breeze_reconstruct_dealer::lagrange_factor(xs, q, i, k - 1) == ((q - x) % q) * v);
            lemma_cong_mul((q - x) % q, -x, v, v, q);
            lemma_cong_mul(b, n * r, ((q - x) % q) * v, (-x) * v, q);
            assert((n * r) * ((-x) * v) == (n * (-x)) * (r * v)) by (nonlinear_arith);
        }
    }
}

/// The other points' product vanishes when one of them is zero.
proof fn lemma_ni0_zero(xs: Seq<int>, i: int, m: int, k: int)
    requires
        0 <= m < k,
        m != i,
        xs[m] == 0,
    ensures
        ni0(xs, i, k) == 0,
    decreases k,
{
    if k - 1 == m {
        assert(ni0(xs, i, k) == ni0(xs, i, k - 1) * (-xs[m]));
    } else if k - 1 == i {
        lemma_ni0_zero(xs, i, m, k - 1);
    } else {
        lemma_ni0_zero(xs, i, m, k - 1);
        assert(ni0(xs, i, k) == 0 * (-xs[k - 1]));
    }
}

/// At a point that is zero, the basis value is 1 modulo `q`.
proof fn lemma_zero_point_basis(xs: Seq<u128>, q: int, m: int, k: int)
    requires
        q > 0,
        interpolation_points_ok(xs, q),
        0 <= m < xs.len(),
        0 <= k <= xs.len(),
        xs[m] == 0,
    ensures
        (ni0(ints(xs), m, k) * rprod(xs, q, m, k)) % q == 1int % q,
    decreases k,
{
    if k > 0 {
        lemma_zero_point_basis(xs, q, m, k - 1);
        if k - 1 != m {
            let x = xs[k - 1] as int;
            let n = ni0(ints(xs), m, k - 1);
            let r = rprod(xs, q, m, k - 1);
            let v = dinv(xs, q, m, k - 1);
            assert(ints(xs)[k - 1] == x);
            lemma_dinv(xs, q, m, k - 1);
            assert((xs[m] - xs[k - 1]) * v == (-x) * v);
            assert((n * (-x)) * (r * v) == (n * r) * ((-x) * v)) by (nonlinear_arith);
            lemma_cong_mul(n * r, 1, (-x) * v, 1, q);
        }
    }
}

/// A sum whose terms vanish but one is that term.
proof fn lemma_fsum_single(f: spec_fn(int) -> int, m: int, n: int)
    requires
        0 <= m < n,
        forall|i: int| 0 <= i < n && i != m ==> #[trigger] f(i) == 0,
    ensures
        fsum(f, n) == f(m),
    decreases n,
{
    if n - 1 == m {
        lemma_fsum_zero(f, n - 1);
    } else {
        lemma_fsum_single(f, m, n - 1);
    }
}

/// The basis values at zero of the points sum to 1 modulo `q`.
proof fn lemma_partition_of_unity(xs: Seq<u128>, q: int)
    requires
        q > 0,
        interpolation_points_ok(xs, q),
        xs.len() >= 1,
    ensures
        fsum(|i: int| ni0(ints(xs), i, xs.len() as int) * rprod(xs, q, i, xs.len() as int), xs.len() as int) % q == 1int % q,
{
    let n = xs.len() as int;
    let xi = ints(xs);
    let uf = |i: int| ni0(xi, i, n) * rprod(xs, q, i, n);
    if exists|m: int| 0 <= m < n && xs[m] == 0 {
        let m = choose|m: int| 0 <= m < n && xs[m] == 0;
        assert forall|i: int| 0 <= i < n && i != m implies #[trigger] uf(i) == 0 by {
            assert(xi[m] == 0);
            lemma_ni0_zero(xi, i, m, n);
        }
        lemma_fsum_single(uf, m, n);
        lemma_zero_point_basis(xs, q, m, n);
    } else {
        let nd = node(xi, n);
        let v = quot(nd, 0);
        lemma_node(xi, n, 0);
        lemma_quot(nd, 0, 0);
        assert forall|i: int| 0 <= i < n implies #[trigger] peval(v, xs[i] as int) == ni0(xi, i, n) by {
            let x = xs[i] as int;
            assert(xi[i] == x);
            lemma_node(xi, n, x);
            lemma_quot(nd, 0, x);
            lemma_prodlin_at_point(xi, i, n);
            lemma_prodlin_zero(xi, i, n);
            assert(x != 0);
            let pv = peval(v, x);
            let ni = ni0(xi, i, n);
            assert(x * pv == x * ni) by (nonlinear_arith)
                requires
                    0 == (x - 0) * pv + prodlin(xi, 0, n),
                    prodlin(xi, 0, n) == (-x) * ni,
            ;
            vstd::arithmetic::mul::lemma_mul_equality_converse(x, pv, ni);
        }
        lemma_dsum(xs, q, v);
        lemma_fsum_ext(|i: int| peval(v, xs[i] as int) * rprod(xs, q, i, n), uf, n);
    }
}

/// The polynomial's values at the points, weighted by the basis values at
/// zero, sum to its constant term modulo `q`.
proof fn lemma_weighted_values(xs: Seq<u128>, q: int, c: Seq<int>)
    requires
        q > 0,
        interpolation_points_ok(xs, q),
        xs.len() >= 1,
        c.len() <= xs.len(),
    ensures
        fsum(|i: int| peval(c, xs[i] as int) * (ni0(ints(xs), i, xs.len() as int) * rprod(xs, q, i, xs.len() as int)), xs.len() as int) % q == peval(c, 0) % q,
{
    let n = xs.len() as int;
    let xi = ints(xs);
    let wf = |i: int| peval(c, xs[i] as int) * (ni0(xi, i, n) * rprod(xs, q, i, n));
    let uf = |i: int| ni0(xi, i, n) * rprod(xs, q, i, n);
    lemma_partition_of_unity(xs, q);
    if c.len() == 0 {
        assert forall|i: int| 0 <= i < n implies #[trigger] wf(i) == 0 by {
            assert(peval(c, xs[i] as int) == 0);
        }
        lemma_fsum_zero(wf, n);
        assert(peval(c, 0) == 0);
    } else {
        let q0 = quot(c, 0);
        lemma_quot(c, 0, 0);
        let c0 = peval(c, 0);
        let pp = prodlin(xi, 0, n);
        let af = |i: int| peval(q0, xs[i] as int) * rprod(xs, q, i, n);
        let hf = |i: int| (-pp) * af(i) + c0 * uf(i);
        assert forall|i: int| 0 <= i < n implies #[trigger] wf(i) == hf(i) by {
            let x = xs[i] as int;
            assert(xi[i] == x);
            lemma_quot(c, 0, x);
            lemma_prodlin_zero(xi, i, n);
            let pq = peval(q0, x);
            let ni = ni0(xi, i, n);
            let r = rprod(xs, q, i, n);
            assert(peval(c, x) * (ni * r) == (-pp) * (pq * r) + c0 * (ni * r)) by (nonlinear_arith)
                requires
                    peval(c, x) == (x - 0) * pq + c0,
                    pp == (-x) * ni,
            ;
        }
        lemma_fsum_ext(wf, hf, n);
        lemma_fsum_add(|i: int| (-pp) * af(i), |i: int| c0 * uf(i), n);
        lemma_fsum_ext(|i: int| (|i: int| (-pp) * af(i))(i) + (|i: int| c0 * uf(i))(i), hf, n);
        lemma_fsum_scale(-pp, af, n);
        lemma_fsum_scale(c0, uf, n);
        lemma_dsum(xs, q, q0);
        assert(dsum(xs, q, q0) == fsum(af, n));
        assert(q0.len() < n);
        lemma_cong_mul(-pp, -pp, fsum(af, n), 0, q);
        lemma_cong_mul(c0, c0, fsum(uf, n), 1, q);
        lemma_cong_add((-pp) * fsum(af, n), 0, c0 * fsum(uf, n), c0, q);
    }
}

proof fn lemma_partial_sum_fsum(xs: Seq<u128>, values: Seq<u128>, q: int, k: int)
    ensures
        crate::breeze_reconstruct_dealer::lagrange_partial_sum(xs, values, q, k) == fsum(
            |i: int| values[i] * crate::breeze_reconstruct_dealer::basis_product(xs, q, i, xs.len() as int),
            k,
        ),
    decreases k,
{
    if k > 0 {
        lemma_partial_sum_fsum(xs, values, q, k - 1);
    }
}

/// Interpolating at zero the values (modulo `q`) that a polynomial of
/// degree below the number of points takes at them gives back the
/// polynomial's constant term modulo `q`: any large enough set of shares
/// reconstructs the shared secret.
pub proof fn lemma_interpolation_recovers_constant_term(points: Seq<u128>, values: Seq<u128>, c: Seq<int>, q: int)
    requires
        q > 0,
        interpolation_points_ok(points, q),
        values.len() >= points.len(),
        c.len() <= points.len(),
        forall|i: int| 0 <= i < points.len() ==> values[i] as int == #[trigger] peval(c, points[i] as int) % q,
    ensures
        crate::breeze_reconstruct_dealer::spec_lagrange_at_zero(points, values, q) == peval(c, 0) % q,
{
    let n = points.len() as int;
    lemma_partial_sum_fsum(points, values, q, n);
    let lf = |i: int| values[i] * crate::breeze_reconstruct_dealer::basis_product(points, q, i, n);
    if n == 0 {
        assert(c.len() == 0);
        assert(peval(c, 0) == 0);
        assert(fsum(lf, 0) == 0);
    } else {
        let wf = |i: int| peval(c, points[i] as int) * (ni0(ints(points), i, n) * rprod(points, q, i, n));
        assert forall|i: int| 0 <= i < n implies #[trigger] lf(i) % q == wf(i) % q by {
            lemma_basis_split(points, q, i, n);
            let x = points[i] as int;
            assert(values[i] as int == peval(c, x) % q);
            lemma_mod_twice(peval(c, x), q);
            lemma_cong_mul(
                values[i] as int,
                peval(c, x),
                crate::breeze_reconstruct_dealer::basis_product(points, q, i, n),
                ni0(ints(points), i, n) * rprod(points, q, i, n),
                q,
            );
        }
        lemma_fsum_cong(lf, wf, n, q);
        lemma_weighted_values(points, q, c);
    }
}


/// Two reconstructions from different sets of shares of one polynomial,
/// each set with more points than the polynomial has coefficients, give the
/// same value: what a party outputs does not depend on which shares reached it.
pub proof fn lemma_reconstructions_agree(
    points1: Seq<u128>,
    values1: Seq<u128>,
    points2: Seq<u128>,
    values2: Seq<u128>,
    c: Seq<int>,
    q: int,
)
    requires
        q > 0,
        interpolation_points_ok(points1, q),
        interpolation_points_ok(points2, q),
        values1.len() >= points1.len(),
        values2.len() >= points2.len(),
        c.len() <= points1.len(),
        c.len() <= points2.len(),
        forall|i: int| 0 <= i < points1.len() ==> values1[i] as int == #[trigger] peval(c, points1[i] as int) % q,
        forall|i: int| 0 <= i < points2.len() ==> values2[i] as int == #[trigger] peval(c, points2[i] as int) % q,
    ensures
        crate::breeze_reconstruct_dealer::spec_lagrange_at_zero(points1, values1, q)
            == crate::breeze_reconstruct_dealer::spec_lagrange_at_zero(points2, values2, q),
{
    lemma_interpolation_recovers_constant_term(points1, values1, c, q);
    lemma_interpolation_recovers_constant_term(points2, values2, c, q);
}

} // verus!
