//! A small linear congruential pseudo-random generator.
use vstd::prelude::*;
use crate::rounding::{scaled_index, scaled_index_exec, two_53};

verus! {

/// Multiplier of the generator's linear congruence.
pub const LCG_MULTIPLIER: u64 = 6364136223846793005;

/// Increment of the generator's linear congruence.
pub const LCG_INCREMENT: u64 = 1442695040888963407;

/// The state that follows `state`: `state * LCG_MULTIPLIER + LCG_INCREMENT` modulo 2^64.
pub open spec fn lcg_next(state: u64) -> u64 {
    ((state as int * LCG_MULTIPLIER as int + LCG_INCREMENT as int) % 0x1_0000_0000_0000_0000int) as u64
}

/// The state reached from `state` after `steps` draws.
pub open spec fn lcg_skip(state: u64, steps: nat) -> u64
    decreases steps,
{
    if steps == 0 {
        state
    } else {
        lcg_next(lcg_skip(state, (steps - 1) as nat))
    }
}

/// The 53-bit draw `k` (0 <= k < 2^53) made from `state`: the top 53 bits
/// of the next state, standing for the unit fraction `k / 2^53`.
pub open spec fn unit_draw(state: u64) -> nat {
    lcg_next(state) as nat / 0x800
}

/// The index drawn from `state` in a range of width `n`.
pub open spec fn index_draw(state: u64, n: nat) -> nat {
    scaled_index(unit_draw(state), n)
}

/// An index drawn in a non-empty range lies in the range; in an empty range
/// it is 0.
pub proof fn lemma_index_draw_in_range(state: u64, n: nat)
    ensures
        n > 0 ==> index_draw(state, n) < n,
        n == 0 ==> index_draw(state, n) == 0,
{
    if n > 0 {
        crate::rounding::lemma_scaled_index_below_width(unit_draw(state), n);
    } else {
        crate::rounding::lemma_scaled_index_in_range(unit_draw(state), n);
    }
}

/// A probability of 0 never succeeds, and one of 2^53 or more always does.
pub proof fn probability_extremes(state: u64, p: Probability)
    ensures
        p.scaled() == 0 ==> !(unit_draw(state) < p.scaled()),
        p.scaled() >= two_53() ==> unit_draw(state) < p.scaled(),
{
}

/// A probability `p` held as the count of 53-bit draws `k` with
/// `k / 2^53 < p`; the probability is `scaled / 2^53`, and any count of at
/// least 2^53 stands for certainty.
#[derive(Clone, Copy, Debug)]
pub struct Probability {
    scaled: u64,
}

impl Probability {
    /// The number of 53-bit draws, out of 2^53, that count as success.
    pub closed spec fn scaled(&self) -> nat {
        self.scaled as nat
    }

    /// The probability `scaled / 2^53`.
    pub fn new(scaled: u64) -> (p: Self)
        ensures
            p.scaled() == scaled,
    {
        Probability { scaled }
    }

    /// The numerator over 2^53.
    pub fn scaled_value(&self) -> (scaled: u64)
        ensures
            scaled == self.scaled(),
    {
        self.scaled
    }
}

/// A deterministic pseudo-random generator (64-bit linear congruential).
#[derive(Clone)]
pub struct SimpleRng {
    state: u64,
}

impl SimpleRng {
    /// The current internal state.
    pub closed spec fn state(&self) -> u64 {
        self.state
    }

    /// A generator seeded with `seed`; the seed 0 is replaced by 1.
    pub fn new(seed: u64) -> (rng: Self)
        ensures
            rng.state() == (if seed == 0 { 1 } else { seed }),
    {
        Self { state: if seed == 0 { 1 } else { seed } }
    }

    /// Advances the state and returns the new state.
    pub fn next_u64(&mut self) -> (value: u64)
        ensures
            value == lcg_next(old(self).state()),
            final(self).state() == value,
    {
        let next = self.state.wrapping_mul(LCG_MULTIPLIER).wrapping_add(LCG_INCREMENT);
        self.state = next;
        next
    }

    /// Draws a 53-bit value `k` (0 <= k < 2^53), the numerator of a uniform
    /// unit fraction `k / 2^53`: the top 53 bits of the next state.
    pub fn next_fraction_bits(&mut self) -> (k: u64)
        ensures
            k == unit_draw(old(self).state()),
            k < two_53(),
            final(self).state() == lcg_next(old(self).state()),
    {
        let x = self.next_u64();
        assert(x >> 11 == x / 0x800) by (bit_vector);
        x >> 11
    }

    /// True with probability `p`: the next 53-bit draw lies below `p`'s count.
    pub fn gen_bool(&mut self, p: Probability) -> (b: bool)
        ensures
            b == (unit_draw(old(self).state()) < p.scaled()),
            final(self).state() == lcg_next(old(self).state()),
    {
        let k = self.next_fraction_bits();
        k < p.scaled
    }

    /// An index in `range`, drawn by scaling the next unit fraction by the
    /// range's width (see `index_draw`).
    pub fn gen_range_usize(&mut self, range: std::ops::Range<usize>) -> (i: usize)
        requires
            range.start <= range.end,
        ensures
            i == range.start + index_draw(old(self).state(), (range.end - range.start) as nat),
            range.start < range.end ==> range.start <= i < range.end,
            range.start == range.end ==> i == range.start,
            final(self).state() == lcg_next(old(self).state()),
    {
        proof {
            lemma_index_draw_in_range(self.state(), (range.end - range.start) as nat);
        }
        let k = self.next_fraction_bits();
        let offset = scaled_index_exec(k, (range.end - range.start) as u64);
        (range.start as u128 + offset) as usize
    }
}

} // verus!
