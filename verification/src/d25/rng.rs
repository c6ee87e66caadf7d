//! The pseudorandom generator that picks the edges to contract.

use vstd::prelude::*;

verus! {

/// One step of the generator: three shift-and-xor rounds on the machine word.
pub open spec fn xorshift(x: usize) -> usize {
    let a = x ^ (x << 13);
    let b = a ^ (a >> 17);
    b ^ (b << 5)
}

/// A small shift-register pseudorandom generator. What it yields depends on
/// its seed alone.
pub struct Rng {
    pub state: usize,
}

impl Rng {
    /// A generator that starts from `seed`.
    pub fn seed(seed: usize) -> (rng: Rng)
        ensures
            rng.state == seed,
    {
        Rng { state: seed }
    }

    /// Advances the generator and returns its new state.
    pub fn next(&mut self) -> (r: usize)
        ensures
            r == xorshift(old(self).state),
            final(self).state == r,
    {
        let mut tmp: usize = self.state;
        tmp ^= tmp << 13;
        tmp ^= tmp >> 17;
        tmp ^= tmp << 5;
        self.state = tmp;
        tmp
    }
}

} // verus!
