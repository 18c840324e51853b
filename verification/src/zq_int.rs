//! Integers modulo an odd modulus `q`.
//!
//! A value is held as its residue in `[0, q)` together with `q`.  Values
//! are made by `num_modular`'s Montgomery integers, which only accept odd
//! moduli; sums and products are taken with `num_modular`'s modular
//! operations on `u128`.

use num_modular::{ModularCoreOps, ModularInteger, MontgomeryInt};
use vstd::prelude::*;

verus! {

/// Calls `MontgomeryInt::new(value, &modulus).residue()` from `num_modular`.
/// Claimed: the result is `value mod modulus`.  `MontgomeryInt::new` asserts
/// an odd modulus, so even moduli are excluded.
#[verifier::external_body]
fn monty_reduce(value: u128, modulus: u128) -> (r: u128)
    requires
        modulus % 2 == 1,
    ensures
        r == value % modulus,
{
    MontgomeryInt::new(value, &modulus).residue()
}

/// Calls `ModularCoreOps::addm` of `num_modular` on `u128`.  Claimed (its
/// documentation): the result is `(a + b) mod m`; it panics on a zero
/// modulus, which is excluded.
#[verifier::external_body]
fn mod_add(a: u128, b: u128, m: u128) -> (r: u128)
    requires
        m > 0,
    ensures
        r == (a + b) % (m as int),
{
    a.addm(b, &m)
}

/// Calls `ModularCoreOps::mulm` of `num_modular` on `u128`.  Claimed (its
/// documentation): the result is `(a * b) mod m`, computed without overflow
/// for every pair of `u128` operands; it panics on a zero modulus, which is
/// excluded.
#[verifier::external_body]
fn mod_mul(a: u128, b: u128, m: u128) -> (r: u128)
    requires
        m > 0,
    ensures
        r == (a * b) % (m as int),
{
    a.mulm(b, &m)
}

/// An element of the ring of integers modulo `modulus`.
#[derive(Clone, Copy, PartialEq, Eq, Debug, Structural)]
pub struct ZqInt {
    pub value: u128,
    pub modulus: u128,
}

/// Every element of `s` is a well-formed residue modulo `q`.
pub open spec fn zq_seq_wf(s: Seq<ZqInt>, q: u128) -> bool {
    forall|i: int| 0 <= i < s.len() ==> (#[trigger] s[i]).wf() && s[i].modulus == q
}

/// The residues of a sequence of ring elements, as integers.
pub open spec fn zq_residues(s: Seq<ZqInt>) -> Seq<int> {
    s.map_values(|z: ZqInt| z.value as int)
}

impl ZqInt {
    /// The residue is reduced and the modulus is odd.
    pub open spec fn wf(self) -> bool {
        &&& self.modulus % 2 == 1
        &&& self.value < self.modulus
    }

    /// `value mod modulus` as a ring element.  The modulus must be odd (the
    /// Montgomery representation does not exist for even moduli).
    pub fn new(value: u128, modulus: u128) -> (z: ZqInt)
        requires
            modulus % 2 == 1,
        ensures
            z.wf(),
            z.modulus == modulus,
            z.value == value % modulus,
    {
        ZqInt { value: monty_reduce(value, modulus), modulus }
    }

    /// The residue in `[0, modulus)`.
    pub fn residue(&self) -> (r: u128)
        ensures
            r == self.value,
    {
        self.value
    }

    /// The modulus.
    pub fn modulus(&self) -> (m: u128)
        ensures
            m == self.modulus,
    {
        self.modulus
    }

    /// Sum in the ring.
    pub fn add(self, other: ZqInt) -> (z: ZqInt)
        requires
            self.wf(),
            other.modulus == self.modulus,
        ensures
            z.wf(),
            z.modulus == self.modulus,
            z.value == (self.value + other.value) % (self.modulus as int),
    {
        ZqInt { value: mod_add(self.value, other.value, self.modulus), modulus: self.modulus }
    }

    /// Product in the ring.
    pub fn mul(self, other: ZqInt) -> (z: ZqInt)
        requires
            self.wf(),
            other.modulus == self.modulus,
        ensures
            z.wf(),
            z.modulus == self.modulus,
            z.value == (self.value * other.value) % (self.modulus as int),
    {
        ZqInt { value: mod_mul(self.value, other.value, self.modulus), modulus: self.modulus }
    }

    /// In-place sum.
    pub fn add_assign(&mut self, other: ZqInt)
        requires
            old(self).wf(),
            other.modulus == old(self).modulus,
        ensures
            final(self).wf(),
            final(self).modulus == old(self).modulus,
            final(self).value == (old(self).value + other.value) % (old(self).modulus as int),
    {
        *self = self.add(other);
    }

    /// In-place product.
    pub fn mul_assign(&mut self, other: ZqInt)
        requires
            old(self).wf(),
            other.modulus == old(self).modulus,
        ensures
            final(self).wf(),
            final(self).modulus == old(self).modulus,
            final(self).value == (old(self).value * other.value) % (old(self).modulus as int),
    {
        *self = self.mul(other);
    }
}

} // verus!
