//! The injectable random source for the generation engine.
//!
//! The walk itself is deterministic in the seed: `WalkRng` is a linear
//! congruential generator whose every draw is pinned down by its contract,
//! which is what makes generation reproducible under a fixed seed.  A fresh
//! seed can be drawn from the process's ambient randomness.

use vstd::prelude::*;

verus! {

/// Multiplier of the linear congruential step.
pub const WALK_RNG_MUL: u64 = 6364136223846793005;

/// Increment of the linear congruential step.
pub const WALK_RNG_INC: u64 = 1442695040888963407;

/// A seedable, deterministic random source for the walk.
#[derive(Clone, Copy, Debug, PartialEq, Eq, Structural)]
pub struct WalkRng {
    pub state: u64,
}

impl WalkRng {
    /// The generator state after one draw.
    pub open spec fn spec_next(s: u64) -> u64 {
        vstd::wrapping::u64_specs::wrapping_add(
            vstd::wrapping::u64_specs::wrapping_mul(s, WALK_RNG_MUL),
            WALK_RNG_INC,
        )
    }

    /// The index in `0 .. n` that a draw from state `s` selects.
    pub open spec fn spec_pick(s: u64, n: int) -> int
        recommends
            n > 0,
    {
        ((Self::spec_next(s) >> 33) as int) % n
    }

    /// A walk source starting from the given seed.
    pub fn new(seed: u64) -> (r: WalkRng)
        ensures
            r.state == seed,
    {
        WalkRng { state: seed }
    }

    /// Draws one value below `n`, advancing the state by one step.
    pub fn next_below(&mut self, n: usize) -> (r: usize)
        requires
            n > 0,
        ensures
            final(self).state == WalkRng::spec_next(old(self).state),
            r == WalkRng::spec_pick(old(self).state, n as int),
            r < n,
    {
        let next: u64 = self.state.wrapping_mul(WALK_RNG_MUL).wrapping_add(WALK_RNG_INC);
        self.state = next;
        let v: u64 = next >> 33;
        (v % (n as u64)) as usize
    }
}

/// Relies on `rand::random`: draws 64 bits from the thread-local generator.
/// Nothing is promised of the value; every caller must work for any seed.
#[verifier::external_body]
fn entropy_seed() -> u64 {
    rand::random::<u64>()
}

/// A walk source seeded from the process's ambient randomness.  Every
/// guarantee of the generation engine holds for whatever seed comes out,
/// so nothing is stated about the state drawn here.
pub fn fresh_walk_rng() -> WalkRng {
    WalkRng::new(entropy_seed())
}

} // verus!
