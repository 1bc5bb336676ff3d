//! A small seeded pseudo-random source, owned by each container, so that
//! runs with the same seed build the same level structure.
use vstd::prelude::*;
use vstd::wrapping::u64_specs::{wrapping_add, wrapping_mul};

verus! {

pub const MULTIPLIER: u64 = 6364136223846793005;

pub const INCREMENT: u64 = 1442695040888963407;

/// The state that follows `s`: one step of a 64-bit linear congruential
/// generator.
pub open spec fn next_state(s: u64) -> u64 {
    wrapping_add(wrapping_mul(s, MULTIPLIER), INCREMENT)
}

pub struct Rng {
    state: u64,
}

impl Rng {
    pub closed spec fn state(&self) -> u64 {
        self.state
    }

    pub fn new(seed: u64) -> (r: Rng)
        ensures
            r.state() == seed,
    {
        Rng { state: seed }
    }

    /// Advances the state and draws a number below `bound` from its high
    /// bits.
    pub fn below(&mut self, bound: u32) -> (r: u32)
        requires
            bound > 0,
        ensures
            final(self).state() == next_state(old(self).state()),
            r == ((final(self).state() >> 32u64) as u32) % bound,
    {
        self.state = self.state.wrapping_mul(MULTIPLIER).wrapping_add(INCREMENT);
        ((self.state >> 32u64) as u32) % bound
    }
}

} // verus!
