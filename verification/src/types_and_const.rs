//! Round, wave, epoch and index arithmetic shared by the consensus and the
//! beacon coordinator.
//!
//! A round belongs to a wave and a wave to an epoch: every epoch holds
//! `max_epoch` waves and every wave `max_wave` rounds.  The two limits are
//! process-wide settings; they are handed to these functions as arguments.

use vstd::prelude::*;

verus! {

pub type Round = u64;
pub type Wave = u64;
pub type Epoch = u64;
pub type Id = usize;
pub type Stake = u32;
pub type WorkerId = u32;
pub type RandomNum = u128;
pub type ZqMod = u128;

/// The default channel capacity.
pub const CHANNEL_CAPACITY: usize = 1000;

/// Number of rounds in one epoch.
pub open spec fn rounds_per_epoch(max_epoch: u64, max_wave: u64) -> int {
    max_epoch * max_wave
}

/// The wave (counted from 1 inside its epoch) that a round belongs to.
/// Round 0 is mapped to the last wave of an epoch.
pub open spec fn spec_wave_of_round(round: int, max_epoch: u64, max_wave: u64) -> int {
    if round == 0 {
        max_epoch as int
    } else {
        ((round - 1) % rounds_per_epoch(max_epoch, max_wave)) / (max_wave as int) + 1
    }
}

/// The epoch (counted from 1) that a round, counted from 1, belongs to.
pub open spec fn spec_epoch_of_round(round: int, max_epoch: u64, max_wave: u64) -> int {
    (round - 1) / rounds_per_epoch(max_epoch, max_wave) + 1
}

/// The first round of wave `wave` of epoch `epoch`.
pub open spec fn spec_first_round(epoch: int, wave: int, max_epoch: u64, max_wave: u64) -> int {
    (epoch - 1) * rounds_per_epoch(max_epoch, max_wave) + (wave - 1) * (max_wave as int) + 1
}

proof fn lemma_mul_pos(a: u64, b: u64)
    requires
        a > 0,
        b > 0,
    ensures
        a * b > 0,
        a * b >= a,
        a * b >= b,
{
    assert(a * b >= a) by (nonlinear_arith)
        requires
            a > 0,
            b > 0,
    ;
    assert(a * b >= b) by (nonlinear_arith)
        requires
            a > 0,
            b > 0,
    ;
}

/// The wave of a round.
pub fn get_wave_by_round(round: Round, max_epoch: u64, max_wave: u64) -> (wave: Wave)
    requires
        max_epoch > 0,
        max_wave > 0,
        max_epoch * max_wave <= u64::MAX,
    ensures
        wave == spec_wave_of_round(round as int, max_epoch, max_wave),
        1 <= wave <= max_epoch,
{
    proof {
        lemma_mul_pos(max_epoch, max_wave);
    }
    let per_epoch = max_epoch * max_wave;
    let remainder = round % per_epoch;
    if remainder == 0 {
        proof {
            if round > 0 {
                lemma_last_round_of_epoch(round as int, max_epoch, max_wave);
            }
        }
        max_epoch
    } else {
        proof {
            lemma_wave_shift(round as int, max_epoch, max_wave);
        }
        (remainder - 1) / max_wave + 1
    }
}

proof fn lemma_last_round_of_epoch(round: int, max_epoch: u64, max_wave: u64)
    requires
        max_epoch > 0,
        max_wave > 0,
        round > 0,
        round % rounds_per_epoch(max_epoch, max_wave) == 0,
    ensures
        ((round - 1) % rounds_per_epoch(max_epoch, max_wave)) / (max_wave as int) + 1 == max_epoch,
{
    let p = rounds_per_epoch(max_epoch, max_wave);
    let me = max_epoch as int;
    let mw = max_wave as int;
    assert(p > 0) by (nonlinear_arith)
        requires
            p == me * mw,
            me > 0,
            mw > 0,
    ;
    assert((round - 1) % p == p - 1) by (nonlinear_arith)
        requires
            p > 0,
            round > 0,
            round % p == 0,
    ;
    assert((p - 1) / mw == me - 1) by (nonlinear_arith)
        requires
            p == me * mw,
            me > 0,
            mw > 0,
    ;
}

proof fn lemma_wave_shift(round: int, max_epoch: u64, max_wave: u64)
    requires
        max_epoch > 0,
        max_wave > 0,
        round >= 0,
        round % rounds_per_epoch(max_epoch, max_wave) != 0,
    ensures
        round > 0,
        (round - 1) % rounds_per_epoch(max_epoch, max_wave) == round % rounds_per_epoch(
            max_epoch,
            max_wave,
        ) - 1,
        1 <= (round % rounds_per_epoch(max_epoch, max_wave) - 1) / (max_wave as int) + 1
            <= max_epoch,
{
    let p = rounds_per_epoch(max_epoch, max_wave);
    let me = max_epoch as int;
    let mw = max_wave as int;
    assert(p > 0) by (nonlinear_arith)
        requires
            p == me * mw,
            me > 0,
            mw > 0,
    ;
    assert(round != 0) by {
        if round == 0 {
            assert(0int % p == 0);
        }
    }
    assert((round - 1) % p == round % p - 1) by (nonlinear_arith)
        requires
            p > 0,
            round > 0,
            round % p != 0,
    ;
    let rem = round % p;
    assert(0 < rem < p);
    assert((rem - 1) / mw < me) by (nonlinear_arith)
        requires
            p == me * mw,
            0 <= rem - 1 < p,
            mw > 0,
    ;
    assert((rem - 1) / mw >= 0) by (nonlinear_arith)
        requires
            rem - 1 >= 0,
            mw > 0,
    ;
}

/// The epoch of a round (rounds are counted from 1).
pub fn get_epoch_by_round(round: Round, max_epoch: u64, max_wave: u64) -> (epoch: Epoch)
    requires
        round >= 1,
        max_epoch > 0,
        max_wave > 0,
        max_epoch * max_wave <= u64::MAX,
    ensures
        epoch == spec_epoch_of_round(round as int, max_epoch, max_wave),
        epoch >= 1,
{
    proof {
        lemma_mul_pos(max_epoch, max_wave);
    }
    let per_epoch = max_epoch * max_wave;
    assert((round - 1) / (per_epoch as int) < round) by (nonlinear_arith)
        requires
            per_epoch >= 1,
            round >= 1,
    ;
    (round - 1) / per_epoch + 1
}

/// The epoch of a wave (waves are counted from 1).
pub fn get_epoch_by_wave(wave: Wave, max_epoch: u64) -> (epoch: Epoch)
    requires
        wave >= 1,
        max_epoch > 0,
    ensures
        epoch == (wave - 1) / (max_epoch as int) + 1,
        epoch >= 1,
{
    assert((wave - 1) / (max_epoch as int) < wave) by (nonlinear_arith)
        requires
            max_epoch >= 1,
            wave >= 1,
    ;
    (wave - 1) / max_epoch + 1
}

/// The first round of the given wave of the given epoch, for `1 <= wave <=
/// max_wave` and `epoch >= 1` (other inputs are ruled out).
pub fn get_round_by_epoch_wave(epoch: Epoch, wave: Wave, max_epoch: u64, max_wave: u64) -> (round:
    Round)
    requires
        epoch >= 1,
        1 <= wave <= max_wave,
        max_epoch * max_wave <= u64::MAX,
        spec_first_round(epoch as int, wave as int, max_epoch, max_wave) <= u64::MAX,
    ensures
        round == spec_first_round(epoch as int, wave as int, max_epoch, max_wave),
{
    let per_epoch = max_epoch * max_wave;
    assert(0 <= (epoch - 1) * per_epoch <= spec_first_round(
        epoch as int,
        wave as int,
        max_epoch,
        max_wave,
    )) by (nonlinear_arith)
        requires
            epoch >= 1,
            wave >= 1,
            max_wave >= 0,
            per_epoch == max_epoch * max_wave,
            spec_first_round(epoch as int, wave as int, max_epoch, max_wave) == (epoch - 1)
                * per_epoch + (wave - 1) * max_wave + 1,
    ;
    assert(0 <= (wave - 1) * max_wave) by (nonlinear_arith)
        requires
            wave >= 1,
    ;
    let epoch_base = (epoch - 1) * per_epoch;
    let wave_offset = (wave - 1) * max_wave + 1;
    epoch_base + wave_offset
}

/// Splitting a round into (epoch, position inside the epoch); every epoch
/// holds `2 * max_epoch` rounds and positions are counted from 1.
pub fn round_to_epoch_index(round: Round, max_epoch: u64) -> (res: (Epoch, usize))
    requires
        round > 0,
        max_epoch > 0,
        2 * max_epoch <= u64::MAX,
        2 * max_epoch <= usize::MAX,
    ensures
        res.0 == (round - 1) / (2 * max_epoch as int) + 1,
        res.1 == (round - 1) % (2 * max_epoch as int) + 1,
        1 <= res.1 <= 2 * max_epoch,
{
    let rounds_per_epoch = 2 * max_epoch;
    assert((round - 1) / (rounds_per_epoch as int) < round) by (nonlinear_arith)
        requires
            rounds_per_epoch >= 1,
            round >= 1,
    ;
    let epoch = (round - 1) / rounds_per_epoch + 1;
    let index = (round - 1) % rounds_per_epoch + 1;
    (epoch, index as usize)
}

/// Splitting an odd (leader) round into (epoch, leader slot inside the
/// epoch); every epoch holds `max_epoch` leader slots counted from 1.
pub fn leader_round_to_epoch_index(round: Round, max_epoch: u64) -> (res: (Epoch, usize))
    requires
        round % 2 == 1,
        max_epoch > 0,
        2 * max_epoch <= u64::MAX,
        max_epoch <= usize::MAX,
    ensures
        res.0 == (round - 1) / (2 * max_epoch as int) + 1,
        res.1 == ((round - 1) % (2 * max_epoch as int)) / 2 + 1,
        1 <= res.1 <= max_epoch,
{
    let rounds_per_epoch = 2 * max_epoch;
    assert((round - 1) / (rounds_per_epoch as int) < round) by (nonlinear_arith)
        requires
            rounds_per_epoch >= 1,
            round >= 1,
    ;
    let epoch = (round - 1) / rounds_per_epoch + 1;
    let index = ((round - 1) % rounds_per_epoch) / 2 + 1;
    (epoch, index as usize)
}

/// The leader round of slot `index` of epoch `epoch`.
pub fn epoch_index_to_leader_round(epoch: Epoch, index: usize, max_epoch: u64) -> (round: Round)
    requires
        epoch > 0,
        1 <= index <= max_epoch,
        max_epoch > 0,
        2 * max_epoch <= u64::MAX,
        (epoch - 1) * (2 * max_epoch) + 2 * index - 1 <= u64::MAX,
    ensures
        round == (epoch - 1) * (2 * max_epoch as int) + 2 * index - 1,
{
    let rounds_per_epoch = 2 * max_epoch;
    assert(0 <= (epoch - 1) * rounds_per_epoch <= (epoch - 1) * (2 * max_epoch) + 2 * index - 1)
        by (nonlinear_arith)
        requires
            epoch >= 1,
            index >= 1,
            rounds_per_epoch == 2 * max_epoch,
    ;
    let base = (epoch - 1) * rounds_per_epoch;
    base + (2 * index as u64 - 1)
}

/// The round at position `index` (counted from 1) of epoch `epoch`: the
/// inverse of [`round_to_epoch_index`].
pub fn epoch_index_to_round(epoch: Epoch, index: usize, max_epoch: u64) -> (round: Round)
    requires
        epoch > 0,
        index <= 2 * max_epoch,
        2 * max_epoch <= u64::MAX,
        (epoch - 1) * (2 * max_epoch) + index <= u64::MAX,
    ensures
        round == (epoch - 1) * (2 * max_epoch as int) + index,
{
    let rounds_per_epoch = 2 * max_epoch;
    assert(0 <= (epoch - 1) * rounds_per_epoch <= (epoch - 1) * (2 * max_epoch) + index)
        by (nonlinear_arith)
        requires
            epoch >= 1,
            index >= 0,
            rounds_per_epoch == 2 * max_epoch,
    ;
    let base = (epoch - 1) * rounds_per_epoch;
    base + index as u64
}

/// Law: splitting a round into (epoch, position) and joining them again
/// gives the round back, and joining then splitting gives the pair back.
pub proof fn lemma_round_index_roundtrip(round: int, epoch: int, index: int, max_epoch: int)
    requires
        max_epoch >= 1,
        round >= 1,
        epoch >= 1,
        1 <= index <= 2 * max_epoch,
    ensures
        ((round - 1) / (2 * max_epoch) + 1 - 1) * (2 * max_epoch) + ((round - 1) % (2
            * max_epoch) + 1) == round,
        ({
            let r = (epoch - 1) * (2 * max_epoch) + index;
            &&& (r - 1) / (2 * max_epoch) + 1 == epoch
            &&& (r - 1) % (2 * max_epoch) + 1 == index
        }),
{
    let p = 2 * max_epoch;
    assert(((round - 1) / p) * p + (round - 1) % p == round - 1) by (nonlinear_arith)
        requires
            p > 0,
    ;
    let r = (epoch - 1) * p + index;
    assert((r - 1) / p == epoch - 1 && (r - 1) % p == index - 1) by (nonlinear_arith)
        requires
            r - 1 == (epoch - 1) * p + (index - 1),
            0 <= index - 1 < p,
            epoch >= 1,
    ;
}

/// Law: a leader slot turned into its round and back gives the same slot,
/// and that round is odd.
pub proof fn lemma_leader_round_roundtrip(epoch: int, index: int, max_epoch: int)
    requires
        epoch >= 1,
        1 <= index <= max_epoch,
    ensures
        ({
            let round = (epoch - 1) * (2 * max_epoch) + 2 * index - 1;
            &&& round % 2 == 1
            &&& (round - 1) / (2 * max_epoch) + 1 == epoch
            &&& ((round - 1) % (2 * max_epoch)) / 2 + 1 == index
        }),
{
    let p = 2 * max_epoch;
    let round = (epoch - 1) * p + 2 * index - 1;
    assert(round - 1 == (epoch - 1) * p + (2 * index - 2));
    assert(0 <= 2 * index - 2 < p);
    assert((round - 1) / p == epoch - 1 && (round - 1) % p == 2 * index - 2) by (nonlinear_arith)
        requires
            round - 1 == (epoch - 1) * p + (2 * index - 2),
            0 <= 2 * index - 2 < p,
            epoch >= 1,
    ;
    let k = (epoch - 1) * max_epoch + index - 1;
    assert(round == 2 * k + 1) by (nonlinear_arith)
        requires
            round == (epoch - 1) * (2 * max_epoch) + 2 * index - 1,
            k == (epoch - 1) * max_epoch + index - 1,
    ;
}

/// Law: an odd round split into (epoch, slot) and joined again gives the
/// same round.
pub proof fn lemma_leader_index_roundtrip(round: int, max_epoch: int)
    requires
        round >= 1,
        round % 2 == 1,
        max_epoch >= 1,
    ensures
        ({
            let epoch = (round - 1) / (2 * max_epoch) + 1;
            let index = ((round - 1) % (2 * max_epoch)) / 2 + 1;
            &&& 1 <= index <= max_epoch
            &&& (epoch - 1) * (2 * max_epoch) + 2 * index - 1 == round
        }),
{
    let p = 2 * max_epoch;
    let q = (round - 1) / p;
    let r = (round - 1) % p;
    assert(round - 1 == q * p + r && 0 <= r < p) by (nonlinear_arith)
        requires
            p > 0,
            q == (round - 1) / p,
            r == (round - 1) % p,
    ;
    let k = q * max_epoch;
    assert(round - 1 == 2 * k + r) by (nonlinear_arith)
        requires
            round - 1 == q * p + r,
            p == 2 * max_epoch,
            k == q * max_epoch,
    ;
    assert(r % 2 == 0);
    assert(2 * (r / 2) == r) by (nonlinear_arith)
        requires
            r % 2 == 0,
    ;
}

/// Law: the first round of (epoch, wave) lies in that epoch and that wave,
/// for every wave that is both a valid wave (`wave <= max_epoch`) and
/// accepted by `get_round_by_epoch_wave` (`wave <= max_wave`).
pub proof fn lemma_first_round_of_epoch_wave(epoch: int, wave: int, max_epoch: u64, max_wave: u64)
    requires
        epoch >= 1,
        1 <= wave <= max_epoch,
        max_wave > 0,
    ensures
        spec_epoch_of_round(spec_first_round(epoch, wave, max_epoch, max_wave), max_epoch, max_wave)
            == epoch,
        spec_wave_of_round(spec_first_round(epoch, wave, max_epoch, max_wave), max_epoch, max_wave)
            == wave,
{
    let me = max_epoch as int;
    let mw = max_wave as int;
    let p = rounds_per_epoch(max_epoch, max_wave);
    let off = (wave - 1) * mw;
    assert(p == me * mw);
    assert(0 <= off < p) by (nonlinear_arith)
        requires
            off == (wave - 1) * mw,
            p == me * mw,
            1 <= wave <= me,
            mw > 0,
    ;
    let round = spec_first_round(epoch, wave, max_epoch, max_wave);
    assert(round - 1 == (epoch - 1) * p + off);
    assert((round - 1) / p == epoch - 1 && (round - 1) % p == off) by (nonlinear_arith)
        requires
            round - 1 == (epoch - 1) * p + off,
            0 <= off < p,
            epoch >= 1,
    ;
    assert(off / mw == wave - 1) by (nonlinear_arith)
        requires
            off == (wave - 1) * mw,
            mw > 0,
            wave >= 1,
    ;
    assert(round >= 1) by (nonlinear_arith)
        requires
            round - 1 == (epoch - 1) * p + off,
            epoch >= 1,
            p > 0,
            off >= 0,
    ;
}

} // verus!
