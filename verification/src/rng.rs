//! Deterministic pseudo-random number generator.
//!
//! Hand-rolled SplitMix64 so the stream can never silently change under a
//! dependency upgrade. The generator state is part of the world state.

use vstd::prelude::*;

verus! {

/// The SplitMix64 increment.
pub const GOLDEN_GAMMA: u64 = 0x9E37_79B9_7F4A_7C15;

/// SplitMix64 output mixing of an advanced state.
pub open spec fn splitmix_mix(z0: u64) -> u64 {
    let z1 = (z0 ^ (z0 >> 30u64)).wrapping_mul(0xBF58_476D_1CE4_E5B9u64);
    let z2 = (z1 ^ (z1 >> 27u64)).wrapping_mul(0x94D0_49BB_1331_11EBu64);
    z2 ^ (z2 >> 31u64)
}

/// The state after one draw.
pub open spec fn splitmix_next_state(state: u64) -> u64 {
    state.wrapping_add(GOLDEN_GAMMA)
}

#[derive(Debug, Clone, Copy, PartialEq, Eq, Structural)]
pub struct SimRng {
    state: u64,
}

impl SimRng {
    pub closed spec fn state(&self) -> u64 {
        self.state
    }

    /// The generator after one draw.
    pub closed spec fn advanced(self) -> SimRng {
        SimRng { state: splitmix_next_state(self.state) }
    }

    /// A percentage roll drawn from this generator: the mixed advanced
    /// state modulo 100.
    pub open spec fn percent_roll(self) -> u8 {
        (splitmix_mix(self.advanced().state()) % 100) as u8
    }

    pub fn new(seed: u64) -> (r: Self)
        ensures
            r.state() == seed,
    {
        SimRng { state: seed }
    }

    pub fn next_u64(&mut self) -> (r: u64)
        ensures
            final(self).state() == splitmix_next_state(old(self).state()),
            *final(self) == old(self).advanced(),
            r == splitmix_mix(final(self).state()),
    {
        self.state = self.state.wrapping_add(GOLDEN_GAMMA);
        let mut z = self.state;
        z = (z ^ (z >> 30)).wrapping_mul(0xBF58_476D_1CE4_E5B9);
        z = (z ^ (z >> 27)).wrapping_mul(0x94D0_49BB_1331_11EB);
        z ^ (z >> 31)
    }

    /// Uniform roll in `0..100`.
    pub fn roll_percent(&mut self) -> (r: u8)
        ensures
            final(self).state() == splitmix_next_state(old(self).state()),
            *final(self) == old(self).advanced(),
            r == old(self).percent_roll(),
            r == splitmix_mix(final(self).state()) % 100,
            r < 100,
    {
        let x = self.next_u64() % 100;
        x as u8
    }

    /// Uniform roll in `0..n`. Returns 0 for `n == 0` without drawing.
    pub fn roll_range(&mut self, n: u64) -> (r: u64)
        ensures
            n == 0 ==> r == 0 && final(self).state() == old(self).state(),
            n > 0 ==> *final(self) == old(self).advanced() && final(self).state() == splitmix_next_state(old(self).state()) && r
                == splitmix_mix(final(self).state()) % n && r < n,
    {
        if n == 0 {
            0
        } else {
            self.next_u64() % n
        }
    }
}

} // verus!
