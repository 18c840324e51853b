//! Polynomials over `Z_q`, coefficients lowest degree first.

use rand::Rng;
use vstd::prelude::*;
use crate::calculation::zq;
use crate::types_and_const::ZqMod;
use crate::zq_int::{ZqInt, zq_seq_wf};
use crate::zq_matrix::ZqVector;

verus! {

/// Calls `rand::thread_rng().gen_range(0..bound)`, which panics on an empty
/// range.  Claimed: the result is below `bound`; which value comes back is
/// up to the random generator.
#[verifier::external_body]
pub(crate) fn random_below(bound: u128) -> (r: u128)
    requires
        bound > 0,
    ensures
        r < bound,
{
    rand::thread_rng().gen_range(0..bound)
}

/// A polynomial with coefficients in `Z_q`.
pub struct Polynomial {
    coefficients: ZqVector,
    modulus: ZqMod,
}

/// Coefficient `i` of the coefficient list `c`, zero beyond its end.
pub open spec fn coeff_at(c: Seq<ZqInt>, i: int, q: u128) -> ZqInt {
    if 0 <= i < c.len() {
        c[i]
    } else {
        zq(0, q)
    }
}

/// Sum over `i < ilim` of `a[i] * b[k - i]` (terms with `k - i` outside `b`
/// left out): the part of coefficient `k` of a product contributed by the
/// first `ilim` coefficients of `a`.
pub open spec fn conv_partial(a: Seq<ZqInt>, b: Seq<ZqInt>, ilim: int, k: int) -> int
    decreases ilim,
{
    if ilim <= 0 {
        0
    } else {
        conv_partial(a, b, ilim - 1, k) + if 0 <= k - (ilim - 1) < b.len() {
            a[ilim - 1].value * b[k - (ilim - 1)].value
        } else {
            0
        }
    }
}

impl Polynomial {
    /// The coefficients, lowest degree first.
    pub closed spec fn coeffs(&self) -> Seq<ZqInt> {
        self.coefficients.entries()
    }

    /// The modulus of the coefficients.
    pub closed spec fn spec_modulus(&self) -> ZqMod {
        self.modulus
    }

    /// At least one coefficient, all reduced modulo an odd modulus.
    pub open spec fn wf(&self) -> bool {
        &&& self.coeffs().len() >= 1
        &&& self.spec_modulus() % 2 == 1
        &&& zq_seq_wf(self.coeffs(), self.spec_modulus())
    }

    /// A polynomial of the given degree with coefficients drawn at random
    /// from `[0, modulus)`.
    pub fn new(degree: usize, modulus: ZqMod) -> (p: Self)
        requires
            modulus % 2 == 1,
            degree < usize::MAX,
        ensures
            p.wf(),
            p.spec_modulus() == modulus,
            p.coeffs().len() == degree + 1,
    {
        let mut coeffs: Vec<ZqInt> = Vec::new();
        let mut k: usize = 0;
        while k <= degree
            invariant
                k <= degree + 1,
                degree < usize::MAX,
                modulus % 2 == 1,
                coeffs@.len() == k,
                zq_seq_wf(coeffs@, modulus),
            decreases degree + 1 - k,
        {
            let c = random_below(modulus);
            coeffs.push(ZqInt::new(c, modulus));
            k = k + 1;
        }
        Polynomial { coefficients: ZqVector::from_vec(coeffs), modulus }
    }

    /// The degree: one less than the number of coefficients.
    pub fn degree(&self) -> (d: usize)
        requires
            self.wf(),
        ensures
            d == self.coeffs().len() - 1,
            self.coeffs().len() <= usize::MAX,
    {
        self.coefficients.len() - 1
    }

    /// Coefficient `index`, zero beyond the degree.
    pub fn get_coeff(&self, index: usize) -> (c: ZqInt)
        requires
            self.wf(),
        ensures
            c == coeff_at(self.coeffs(), index as int, self.spec_modulus()),
            c.wf(),
            c.modulus == self.spec_modulus(),
    {
        if index >= self.coefficients.len() {
            ZqInt::new(0, self.modulus)
        } else {
            self.coefficients.get(index)
        }
    }

    /// The sum of two polynomials over the same modulus; it has as many
    /// coefficients as the longer of the two.
    pub fn add(self, other: Self) -> (p: Self)
        requires
            self.wf(),
            other.wf(),
            self.spec_modulus() == other.spec_modulus(),
        ensures
            p.wf(),
            p.spec_modulus() == self.spec_modulus(),
            p.coeffs().len() == if self.coeffs().len() >= other.coeffs().len() {
                self.coeffs().len()
            } else {
                other.coeffs().len()
            },
            forall|i: int|
                0 <= i < p.coeffs().len() ==> (#[trigger] p.coeffs()[i]).value == (coeff_at(
                    self.coeffs(),
                    i,
                    self.spec_modulus(),
                ).value + coeff_at(other.coeffs(), i, self.spec_modulus()).value) % (
                self.spec_modulus() as int),
    {
        let d1 = self.degree();
        let d2 = other.degree();
        let max_degree = if d1 >= d2 {
            d1
        } else {
            d2
        };
        let q = self.modulus;
        let mut coeffs: Vec<ZqInt> = Vec::new();
        let mut i: usize = 0;
        while i <= max_degree
            invariant
                i <= max_degree + 1,
                max_degree == if d1 >= d2 {
                    d1
                } else {
                    d2
                },
                d1 == self.coeffs().len() - 1,
                d2 == other.coeffs().len() - 1,
                self.coeffs().len() <= usize::MAX,
                other.coeffs().len() <= usize::MAX,
                self.wf(),
                other.wf(),
                q == self.spec_modulus(),
                q == other.spec_modulus(),
                coeffs@.len() == i,
                zq_seq_wf(coeffs@, q),
                forall|k: int|
                    0 <= k < i ==> (#[trigger] coeffs@[k]).value == (coeff_at(
                        self.coeffs(),
                        k,
                        q,
                    ).value + coeff_at(other.coeffs(), k, q).value) % (q as int),
            decreases max_degree + 1 - i,
        {
            let sum = self.get_coeff(i).add(other.get_coeff(i));
            coeffs.push(sum);
            i = i + 1;
        }
        Polynomial { coefficients: ZqVector::from_vec(coeffs), modulus: q }
    }

    /// The product of two polynomials over the same modulus: coefficient `k`
    /// is the sum of `a_i * b_j` over `i + j = k`.
    pub fn mul(self, other: Self) -> (p: Self)
        requires
            self.wf(),
            other.wf(),
            self.spec_modulus() == other.spec_modulus(),
            self.coeffs().len() + other.coeffs().len() <= usize::MAX,
        ensures
            p.wf(),
            p.spec_modulus() == self.spec_modulus(),
            p.coeffs().len() == self.coeffs().len() + other.coeffs().len() - 1,
            forall|k: int|
                0 <= k < p.coeffs().len() ==> (#[trigger] p.coeffs()[k]).value == conv_partial(
                    self.coeffs(),
                    other.coeffs(),
                    self.coeffs().len() as int,
                    k,
                ) % (self.spec_modulus() as int),
    {
        let d1 = self.degree();
        let d2 = other.degree();
        let q = self.modulus;
        let ghost a = self.coeffs();
        let ghost b = other.coeffs();
        let new_degree = d1 + d2;
        let zero = ZqInt::new(0, q);
        proof {
            vstd::arithmetic::div_mod::lemma_small_mod(0, q as nat);
        }
        let mut coeffs: Vec<ZqInt> = Vec::new();
        let mut k: usize = 0;
        while k <= new_degree
            invariant
                k <= new_degree + 1,
                new_degree == d1 + d2,
                d1 + d2 < usize::MAX,
                zero == zq(0, q),
                coeffs@ == Seq::new(k as nat, |t: int| zero),
            decreases new_degree + 1 - k,
        {
            coeffs.push(zero);
            k = k + 1;
            assert(coeffs@ =~= Seq::new(k as nat, |t: int| zero));
        }
        let mut i: usize = 0;
        while i <= d1
            invariant
                i <= d1 + 1,
                d1 == a.len() - 1,
                d2 == b.len() - 1,
                a.len() <= usize::MAX,
                b.len() <= usize::MAX,
                new_degree == d1 + d2,
                a == self.coeffs(),
                b == other.coeffs(),
                self.wf(),
                other.wf(),
                q == self.spec_modulus(),
                q == other.spec_modulus(),
                coeffs@.len() == new_degree + 1,
                forall|t: int|
                    0 <= t <= new_degree ==> (#[trigger] coeffs@[t]).wf() && coeffs@[t].modulus
                        == q && coeffs@[t].value == conv_partial(a, b, i as int, t) % (q as int),
            decreases d1 + 1 - i,
        {
            let ai = self.get_coeff(i);
            let mut j: usize = 0;
            while j <= d2
                invariant
                    j <= d2 + 1,
                    i <= d1,
                    d1 == a.len() - 1,
                    d2 == b.len() - 1,
                    a.len() <= usize::MAX,
                    b.len() <= usize::MAX,
                    new_degree == d1 + d2,
                    a == self.coeffs(),
                    b == other.coeffs(),
                    self.wf(),
                    other.wf(),
                    ai == a[i as int],
                    q == self.spec_modulus(),
                    q == other.spec_modulus(),
                    coeffs@.len() == new_degree + 1,
                    forall|t: int|
                        0 <= t <= new_degree ==> (#[trigger] coeffs@[t]).wf() && coeffs@[t].modulus
                            == q && coeffs@[t].value == (conv_partial(a, b, i as int, t) + if i
                            <= t < i + j {
                            a[i as int].value * b[t - i].value
                        } else {
                            0
                        }) % (q as int),
                decreases d2 + 1 - j,
            {
                let prod = ai.mul(other.get_coeff(j));
                let idx = i + j;
                let ghost total = conv_partial(a, b, i as int, idx as int);
                let x = coeffs[idx].add(prod);
                coeffs[idx] = x;
                proof {
                    assert(b[j as int] == coeff_at(b, j as int, q));
                    lemma_conv_step(total % (q as int), total, a[i as int].value * b[j as int].value, q as int);
                }
                j = j + 1;
            }
            i = i + 1;
        }
        Polynomial { coefficients: ZqVector::from_vec(coeffs), modulus: q }
    }
}

proof fn lemma_conv_step(acc: int, total: int, prod: int, q: int)
    requires
        q > 0,
        acc == total % q,
    ensures
        (acc + prod % q) % q == (total + prod) % q,
{
    vstd::arithmetic::div_mod::lemma_add_mod_noop(total, prod, q);
    vstd::arithmetic::div_mod::lemma_mod_twice(total, q);
}

} // verus!
