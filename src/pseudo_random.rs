//! Seeded pseudo-random sources for reproducible synthetic data.
use vstd::prelude::*;

verus! {

/// One step of the xorshift generator: shifts by 11 left, 21 right, 13 left.
pub open spec fn xorshift(s: u64) -> u64 {
    let a = s ^ ((s << 11u64) as u64);
    let b = a ^ (a >> 21u64);
    b ^ ((b << 13u64) as u64)
}

/// The state after `k` xorshift steps from `s`.
pub open spec fn xorshift_n(s: u64, k: nat) -> u64
    decreases k,
{
    if k == 0 {
        s
    } else {
        xorshift(xorshift_n(s, (k - 1) as nat))
    }
}

/// Multiplier of the linear congruential generator.
pub const LCG_MULTIPLIER: u64 = 5576963409015389;

/// Increment of the linear congruential generator.
pub const LCG_INCREMENT: u64 = 1;

/// One step of the linear congruential generator, modulo 2^64.
pub open spec fn lcg_step(s: u64) -> int {
    (LCG_MULTIPLIER as int * s as int + LCG_INCREMENT as int) % 0x1_0000_0000_0000_0000int
}

/// A pseudo-random generator based on the xorshift algorithm.
pub struct XorShiftRng {
    seed: u64,
}

impl XorShiftRng {
    /// The generator's current state.
    pub closed spec fn state(&self) -> u64 {
        self.seed
    }

    /// A generator whose state is `seed`.
    pub fn new(seed: u64) -> (r: Self)
        ensures
            r.state() == seed,
    {
        XorShiftRng { seed }
    }

    /// Advances the state by one xorshift step and returns the new state.
    pub fn next_u32(&mut self) -> (r: u64)
        ensures
            r == xorshift(old(self).state()),
            final(self).state() == r,
    {
        self.seed = self.seed ^ (self.seed << 11u64);
        self.seed = self.seed ^ (self.seed >> 21u64);
        self.seed = self.seed ^ (self.seed << 13u64);
        self.seed
    }
}

/// A pseudo-random generator based on a linear congruential recurrence.
pub struct LcgRng {
    state: u64,
}

impl LcgRng {
    /// The generator's current state.
    pub closed spec fn state(&self) -> u64 {
        self.state
    }

    /// A generator whose state is `seed`.
    pub fn new(seed: u64) -> (r: LcgRng)
        ensures
            r.state() == seed,
    {
        LcgRng { state: seed }
    }

    /// Advances the state to `a * state + c` modulo 2^64 and returns it.
    pub fn next(&mut self) -> (r: u64)
        ensures
            r as int == lcg_step(old(self).state()),
            final(self).state() == r,
    {
        self.state = LCG_MULTIPLIER.wrapping_mul(self.state).wrapping_add(LCG_INCREMENT);
        self.state
    }
}

} // verus!
