//! The single seeded source of randomness of a run: a 64-bit linear
//! congruential generator. Each draw takes two steps and joins the upper
//! halves of the two states, so that the weak low bits never reach a caller.

use vstd::prelude::*;

verus! {

/// The multiplier of the generator.
pub const LCG_MULTIPLIER: u64 = 6364136223846793005;

/// The increment of the generator.
pub const LCG_INCREMENT: u64 = 1442695040888963407;

/// Two to the power 32: what separates the upper half of a state from the lower.
pub const HALF_WORD: u64 = 0x1_0000_0000;

/// One step of the generator.
pub open spec fn lcg_step(state: u64) -> u64 {
    ((LCG_MULTIPLIER * state + LCG_INCREMENT) % 0x1_0000_0000_0000_0000) as u64
}

/// The state that a draw leaves behind.
pub open spec fn state_after_draw(state: u64) -> u64 {
    lcg_step(lcg_step(state))
}

/// The value that a draw from `state` yields.
pub open spec fn draw_value(state: u64) -> u64 {
    ((lcg_step(state) / HALF_WORD) * HALF_WORD + lcg_step(lcg_step(state)) / HALF_WORD) as u64
}

/// A seeded pseudo-random number generator. Its view is its state, so two
/// generators with the same view yield the same draws for ever.
pub struct Rng {
    state: u64,
}

impl View for Rng {
    type V = u64;

    closed spec fn view(&self) -> u64 {
        self.state
    }
}

fn step(state: u64) -> (next: u64)
    ensures
        next == lcg_step(state),
{
    assert(LCG_MULTIPLIER * state <= 6364136223846793005 * u64::MAX) by (nonlinear_arith)
        requires
            LCG_MULTIPLIER == 6364136223846793005,
            0 <= state <= u64::MAX,
    ;
    let wide: u128 = LCG_MULTIPLIER as u128 * state as u128 + LCG_INCREMENT as u128;
    (wide % 0x1_0000_0000_0000_0000u128) as u64
}

impl Rng {
    /// A generator that starts from `seed`.
    pub fn seeded(seed: u64) -> (r: Rng)
        ensures
            r@ == seed,
    {
        Rng { state: seed }
    }

    /// The current state; a generator seeded with it continues this one.
    pub fn state(&self) -> (s: u64)
        ensures
            s == self@,
    {
        self.state
    }

    /// Draws the next 64-bit value.
    pub fn next_u64(&mut self) -> (v: u64)
        ensures
            v == draw_value(old(self)@),
            final(self)@ == state_after_draw(old(self)@),
    {
        let first = step(self.state);
        let second = step(first);
        self.state = second;
        (first / HALF_WORD) * HALF_WORD + second / HALF_WORD
    }
}

} // verus!
