//! SHA-256 and the byte encodings of integers that are fed to it.

use sha2::{Digest as ShaDigest, Sha256};
use vstd::prelude::*;

verus! {

/// The SHA-256 digest of a byte string (computed by the `sha2` crate).
pub uninterp spec fn spec_sha256(data: Seq<u8>) -> Seq<u8>;

/// Calls `Sha256::new()`, `update(data)` and `finalize()` of `sha2`.
/// Claimed: the 32 bytes returned are the digest of exactly `data`; the
/// digest is named, not described.
#[verifier::external_body]
pub(crate) fn sha256(data: &Vec<u8>) -> (r: [u8; 32])
    ensures
        r@ == spec_sha256(data@),
{
    let mut hasher = Sha256::new();
    hasher.update(data.as_slice());
    hasher.finalize().into()
}

/// The digests of `prefix` followed by each counter `c` in `0..count`, the
/// counter written as four little-endian bytes.
pub fn sha256_counter_blocks(prefix: &Vec<u8>, count: u32) -> (r: Vec<[u8; 32]>)
    ensures
        r@.len() == count,
        forall|c: int| 0 <= c < count ==> #[trigger] r@[c]@ == spec_sha256(prefix@ + le_bytes(c as nat, 4)),
{
    let mut blocks: Vec<[u8; 32]> = Vec::new();
    let mut data = prefix.clone();
    let plen = prefix.len();
    let mut c: u32 = 0;
    while c < count
        invariant
            c <= count,
            plen == prefix@.len(),
            data@ == prefix@,
            blocks@.len() == c,
            forall|z: int| 0 <= z < c ==> #[trigger] blocks@[z]@ == spec_sha256(prefix@ + le_bytes(z as nat, 4)),
        decreases count - c,
    {
        push_le(c as u128, 4, &mut data);
        let h = sha256(&data);
        data.truncate(plen);
        assert(data@ =~= prefix@);
        blocks.push(h);
        c = c + 1;
    }
    blocks
}

/// Value of a big-endian byte string.
pub open spec fn be_value(s: Seq<u8>) -> nat
    decreases s.len(),
{
    if s.len() == 0 {
        0
    } else {
        be_value(s.drop_last()) * 256 + s.last() as nat
    }
}

/// The `n` big-endian bytes of `x` (its value modulo `256^n`).
pub open spec fn be_bytes(x: nat, n: nat) -> Seq<u8>
    decreases n,
{
    if n == 0 {
        Seq::empty()
    } else {
        be_bytes(x / 256, (n - 1) as nat).push((x % 256) as u8)
    }
}

/// Little-endian byte string of `x` with `n` bytes.
pub open spec fn le_bytes(x: nat, n: nat) -> Seq<u8>
    decreases n,
{
    if n == 0 {
        Seq::empty()
    } else {
        seq![(x % 256) as u8] + le_bytes(x / 256, (n - 1) as nat)
    }
}

/// Decimal digits (ASCII) of `n`, as `to_string` writes them.
pub open spec fn decimal(n: nat) -> Seq<u8>
    decreases n,
{
    if n < 10 {
        seq![(48 + n) as u8]
    } else {
        decimal(n / 10).push((48 + n % 10) as u8)
    }
}

/// Appends the decimal digits of `n` to `out`.
pub fn push_decimal(n: u128, out: &mut Vec<u8>)
    ensures
        final(out)@ == old(out)@ + decimal(n as nat),
    decreases n,
{
    if n >= 10 {
        push_decimal(n / 10, out);
    }
    let d = (n % 10) as u8;
    out.push(48 + d);
    proof {
        if n >= 10 {
            assert(final(out)@ =~= old(out)@ + decimal(n as nat));
        } else {
            assert(final(out)@ =~= old(out)@ + decimal(n as nat));
        }
    }
}

/// Appends the 16 big-endian bytes of `x` to `out`.
pub fn push_be_u128(x: u128, out: &mut Vec<u8>)
    ensures
        final(out)@ == old(out)@ + be_bytes(x as nat, 16),
{
    let ghost start = out@;
    let mut k: usize = 0;
    proof {
        lemma_be_bytes_zero((x as nat) / pow256(16));
    }
    assert(out@ =~= start + be_bytes((x as nat) / pow256(16), 0));
    while k < 16
        invariant
            k <= 16,
            out@ == start + be_bytes((x as nat) / pow256((16 - k) as nat), k as nat),
        decreases 16 - k,
    {
        let shift: u32 = (8 * (15 - k)) as u32;
        let byte = ((x >> shift) & 0xff) as u8;
        proof {
            lemma_shift_byte(x, (15 - k) as nat);
            lemma_be_bytes_step((x as nat), k as nat);
        }
        out.push(byte);
        k = k + 1;
    }
    proof {
        assert(pow256(0) == 1);
        assert((x as nat) / 1 == x as nat);
    }
}

proof fn lemma_be_bytes_zero(x: nat)
    ensures
        be_bytes(x, 0) == Seq::<u8>::empty(),
{
    assert(be_bytes(x, 0) =~= Seq::<u8>::empty());
}

/// `256^n`.
pub open spec fn pow256(n: nat) -> nat
    decreases n,
{
    if n == 0 {
        1
    } else {
        256 * pow256((n - 1) as nat)
    }
}

proof fn lemma_pow256_pos(n: nat)
    ensures
        pow256(n) >= 1,
    decreases n,
{
    if n > 0 {
        lemma_pow256_pos((n - 1) as nat);
    }
}

proof fn lemma_shift_byte(x: u128, j: nat)
    requires
        j < 16,
    ensures
        ((x >> ((8 * j) as u32)) & 0xff) as nat == ((x as nat) / pow256(j)) % 256,
{
    lemma_pow256_shift(x, j);
    let y = x >> ((8 * j) as u32);
    assert((y & 0xff) == y % 256) by (bit_vector);
}

proof fn lemma_pow256_shift(x: u128, j: nat)
    requires
        j < 16,
    ensures
        (x >> ((8 * j) as u32)) as nat == (x as nat) / pow256(j),
    decreases j,
{
    if j == 0 {
        assert(x >> 0u32 == x) by (bit_vector);
        assert(pow256(0) == 1);
        assert((x as nat) / 1 == x as nat);
    } else {
        lemma_pow256_shift(x, (j - 1) as nat);
        let s1 = (8 * (j - 1)) as u32;
        let s = (8 * j) as u32;
        assert(s == s1 + 8);
        let y = x >> s1;
        assert(s1 < 128 && s == s1 + 8 ==> x >> s == (x >> s1) >> 8u32) by (bit_vector);
        assert(x >> s == y >> 8u32);
        assert(y >> 8u32 == y / 256) by (bit_vector);
        assert((x >> s) as nat == (y as nat) / 256);
        lemma_pow256_pos((j - 1) as nat);
        assert((x as nat) / pow256((j - 1) as nat) / 256 == (x as nat) / (pow256((j - 1) as nat)
            * 256)) by {
            vstd::arithmetic::div_mod::lemma_div_denominator(
                x as int,
                pow256((j - 1) as nat) as int,
                256,
            );
        }
        assert(pow256(j) == pow256((j - 1) as nat) * 256);
        assert((y as nat) == (x as nat) / pow256((j - 1) as nat));
        assert((x >> s) as nat == (x as nat) / pow256(j));
    }
}

proof fn lemma_be_bytes_step(x: nat, k: nat)
    requires
        k < 16,
    ensures
        be_bytes(x / pow256((16 - k) as nat), k) + seq![((x / pow256((15 - k) as nat)) % 256) as u8]
            == be_bytes(x / pow256((15 - k) as nat), k + 1),
{
    let j = (15 - k) as nat;
    lemma_pow256_pos(j);
    assert(pow256((16 - k) as nat) == 256 * pow256(j));
    assert((x / pow256(j)) / 256 == x / (pow256(j) * 256)) by {
        vstd::arithmetic::div_mod::lemma_div_denominator(x as int, pow256(j) as int, 256);
    }
    assert(pow256(j) * 256 == 256 * pow256(j));
    assert(be_bytes(x / pow256(j), k + 1) == be_bytes((x / pow256(j)) / 256, k).push(
        ((x / pow256(j)) % 256) as u8,
    ));
    assert(be_bytes(x / pow256((16 - k) as nat), k) + seq![((x / pow256(j)) % 256) as u8]
        =~= be_bytes(x / pow256((16 - k) as nat), k).push(((x / pow256(j)) % 256) as u8));
}

/// The value of the first 16 bytes of `bytes`, read big-endian.
pub fn u128_from_be_prefix(bytes: &[u8; 32]) -> (r: u128)
    ensures
        r == be_value(bytes@.subrange(0, 16)),
{
    let mut r: u128 = 0;
    let mut k: usize = 0;
    while k < 16
        invariant
            k <= 16,
            r == be_value(bytes@.subrange(0, k as int)),
            r < pow256(k as nat),
        decreases 16 - k,
    {
        proof {
            lemma_pow256_bound(k as nat);
            assert(bytes@.subrange(0, (k + 1) as int).drop_last() =~= bytes@.subrange(0, k as int));
            assert(r * 256 + bytes[k as int] < pow256((k + 1) as nat)) by (nonlinear_arith)
                requires
                    r < pow256(k as nat),
                    bytes[k as int] < 256,
                    pow256((k + 1) as nat) == 256 * pow256(k as nat),
            ;
        }
        r = r * 256 + bytes[k] as u128;
        k = k + 1;
    }
    r
}

proof fn lemma_pow256_mono(a: nat, b: nat)
    requires
        a <= b,
    ensures
        pow256(a) <= pow256(b),
    decreases b,
{
    if a < b {
        lemma_pow256_mono(a, (b - 1) as nat);
        lemma_pow256_pos((b - 1) as nat);
    }
}

proof fn lemma_pow256_bound(k: nat)
    requires
        k < 16,
    ensures
        256 * pow256(k) <= pow256(16),
        pow256(16) == 0x1_0000_0000_0000_0000_0000_0000_0000_0000,
    decreases k,
{
    reveal_with_fuel(pow256, 17);
    lemma_pow256_mono(k, 15);
    assert(pow256(16) == 256 * pow256(15));
}

proof fn lemma_le_bytes_push(x: nat, k: nat)
    ensures
        le_bytes(x, k + 1) == le_bytes(x, k).push(((x / pow256(k)) % 256) as u8),
    decreases k,
{
    if k == 0 {
        assert(pow256(0) == 1);
        assert(le_bytes(x / 256, 0) =~= Seq::<u8>::empty());
        assert(le_bytes(x, 0) =~= Seq::<u8>::empty());
        assert(le_bytes(x, 1) =~= seq![(x % 256) as u8]);
    } else {
        lemma_le_bytes_push(x / 256, (k - 1) as nat);
        lemma_pow256_pos((k - 1) as nat);
        assert((x / 256) / pow256((k - 1) as nat) == x / (256 * pow256((k - 1) as nat))) by {
            vstd::arithmetic::div_mod::lemma_div_denominator(x as int, 256, pow256((k - 1) as nat) as int);
        }
        assert(le_bytes(x, k + 1) =~= le_bytes(x, k).push(((x / pow256(k)) % 256) as u8));
    }
}

/// Appends the `n` little-endian bytes of `x` to `out` (`n <= 16`).
pub fn push_le(x: u128, n: usize, out: &mut Vec<u8>)
    requires
        n <= 16,
    ensures
        final(out)@ == old(out)@ + le_bytes(x as nat, n as nat),
{
    let ghost start = out@;
    let mut k: usize = 0;
    assert(out@ =~= start + le_bytes(x as nat, 0));
    while k < n
        invariant
            k <= n,
            n <= 16,
            out@ == start + le_bytes(x as nat, k as nat),
        decreases n - k,
    {
        let shift: u32 = (8 * k) as u32;
        let byte = ((x >> shift) & 0xff) as u8;
        proof {
            lemma_shift_byte(x, k as nat);
            lemma_le_bytes_push(x as nat, k as nat);
            assert(start + le_bytes(x as nat, (k + 1) as nat) =~= (start + le_bytes(
                x as nat,
                k as nat,
            )).push(byte));
        }
        out.push(byte);
        k = k + 1;
    }
}

} // verus!
