//! A small deterministic, seedable pseudo-random source: a 32-bit linear
//! congruential generator.  It drives weight initialization and dataset
//! shuffling, and its whole behaviour is pinned by the spec-level step
//! function, so every use of it is reproducible from the seed.

use vstd::prelude::*;

verus! {

/// Modulus of the generator (2^32).
pub const LCG_MOD: u64 = 4_294_967_296;

/// Multiplier of the generator.
pub const LCG_MUL: u64 = 1_664_525;

/// Increment of the generator.
pub const LCG_INC: u64 = 1_013_904_223;

/// One step of the linear congruential generator.
pub open spec fn lcg(s: int) -> int {
    (s * (LCG_MUL as int) + LCG_INC as int) % (LCG_MOD as int)
}

/// The generator's state; always below [`LCG_MOD`].
#[derive(Clone, Copy, Debug, PartialEq, Eq, Structural)]
pub struct Rng {
    pub state: u64,
}

impl Rng {
    pub open spec fn wf(self) -> bool {
        self.state < LCG_MOD
    }

    pub fn new(seed: u64) -> (r: Rng)
        ensures
            r.wf(),
            r.state == seed % LCG_MOD,
    {
        Rng { state: seed % LCG_MOD }
    }

    /// Advances the generator one step and returns a value below `m`.
    pub fn next_below(&mut self, m: u64) -> (r: u64)
        requires
            old(self).wf(),
            m > 0,
        ensures
            final(self).wf(),
            final(self).state == lcg(old(self).state as int),
            r == final(self).state % m,
            r < m,
    {
        let s2: u64 = (self.state * LCG_MUL + LCG_INC) % LCG_MOD;
        self.state = s2;
        s2 % m
    }
}

} // verus!
