//! The xorshift pseudo-random generator with shifts 7 and 9.
use vstd::prelude::*;

verus! {

/// The state that follows `x`.
pub open spec fn xorshift_step(x: u64) -> u64 {
    let y = x ^ (x << 7u64);
    y ^ (y >> 9u64)
}

/// A 64-bit xorshift generator.
pub struct XorShift64(u64);

impl View for XorShift64 {
    type V = u64;

    closed spec fn view(&self) -> u64 {
        self.0
    }
}

impl XorShift64 {
    /// The generator with its fixed seed.
    pub fn new() -> (r: Self)
        ensures
            r@ == 88172645463325252u64,
    {
        XorShift64(88172645463325252u64)
    }

    /// Advance the state and return it.
    pub fn next_u64(&mut self) -> (r: u64)
        ensures
            r == xorshift_step(old(self)@),
            final(self)@ == r,
    {
        self.0 = self.0 ^ (self.0 << 7u64);
        self.0 = self.0 ^ (self.0 >> 9u64);
        self.0
    }

    /// Advance the state and return it as a `usize`.
    pub fn next_usize(&mut self) -> (r: usize)
        ensures
            r == xorshift_step(old(self)@) as usize,
            final(self)@ == xorshift_step(old(self)@),
    {
        self.next_u64() as usize
    }
}

} // verus!
