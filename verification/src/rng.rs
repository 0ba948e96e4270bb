//! The xorshift64 generator that drives the benchmark dataset.
use vstd::prelude::*;

verus! {

/// One xorshift64 step: shifts by 13 left, 7 right and 17 left, each
/// folded into the state with exclusive or.
pub open spec fn xorshift(s: u64) -> u64 {
    let a = s ^ ((s << 13u64) as u64);
    let b = a ^ (a >> 7u64);
    b ^ ((b << 17u64) as u64)
}

/// The value `next_range(min, max)` draws from state `s`.
pub open spec fn range_value(s: u64, min: u64, max: u64) -> u64 {
    if max <= min {
        min
    } else {
        (min + xorshift(s) % ((max - min) as u64)) as u64
    }
}

/// The state after `next_range(min, max)` from state `s`: unchanged for an
/// empty range, one step on otherwise.
pub open spec fn range_state(s: u64, min: u64, max: u64) -> u64 {
    if max <= min {
        s
    } else {
        xorshift(s)
    }
}

/// A deterministic pseudo-random generator (xorshift64).
pub struct SimpleRng {
    state: u64,
}

impl SimpleRng {
    /// The generator's current state.
    pub closed spec fn state(&self) -> u64 {
        self.state
    }

    /// A generator that starts at `seed`.
    pub fn new(seed: u64) -> (r: Self)
        ensures
            r.state() == seed,
    {
        Self { state: seed }
    }

    /// Advances the state one xorshift step and returns the new state.
    pub fn next(&mut self) -> (r: u64)
        ensures
            r == xorshift(old(self).state()),
            final(self).state() == r,
    {
        self.state = self.state ^ (self.state << 13u64);
        self.state = self.state ^ (self.state >> 7u64);
        self.state = self.state ^ (self.state << 17u64);
        self.state
    }

    /// `min` for an empty range (`max <= min`), without drawing; otherwise
    /// `min` plus the next draw modulo `max - min`, which lies in `[min, max)`.
    pub fn next_range(&mut self, min: u64, max: u64) -> (r: u64)
        ensures
            r == range_value(old(self).state(), min, max),
            final(self).state() == range_state(old(self).state(), min, max),
            max <= min ==> r == min,
            min < max ==> min <= r < max,
    {
        if max <= min {
            return min;
        }
        let x = self.next();
        min + (x % (max - min))
    }
}

} // verus!
