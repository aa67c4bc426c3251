//! A small deterministic pseudo-random generator (64-bit xorshift).
use vstd::prelude::*;

verus! {

/// One round of the 13/7/17 xorshift permutation.
pub open spec fn xorshift_step(s: u64) -> u64 {
    let a = s ^ (s << 13);
    let b = a ^ (a >> 7);
    b ^ (b << 17)
}

/// The state after `n` rounds.
pub open spec fn xorshift_steps(s: u64, n: nat) -> u64
    decreases n,
{
    if n == 0 {
        s
    } else {
        xorshift_step(xorshift_steps(s, (n - 1) as nat))
    }
}

/// The seed a generator starts from when none is given.
pub const DEFAULT_SEED: u64 = 0xf0fb588ca2196dac;

#[derive(Debug)]
pub struct Xorshift {
    seed: u64,
}

impl Xorshift {
    /// The current internal state.
    pub closed spec fn state(&self) -> u64 {
        self.seed
    }

    pub fn new() -> (r: Xorshift)
        ensures
            r.state() == DEFAULT_SEED,
    {
        Xorshift { seed: DEFAULT_SEED }
    }

    pub fn with_seed(seed: u64) -> (r: Xorshift)
        ensures
            r.state() == seed,
    {
        Xorshift { seed }
    }

    /// Advances the state by one round and returns the new state.
    pub fn next(&mut self) -> (r: u64)
        ensures
            r == xorshift_step(old(self).state()),
            final(self).state() == r,
    {
        let a: u64 = self.seed ^ (self.seed << 13);
        let b: u64 = a ^ (a >> 7);
        let c: u64 = b ^ (b << 17);
        self.seed = c;
        c
    }

    /// The next output reduced modulo `m`.
    pub fn rand(&mut self, m: u64) -> (r: u64)
        requires
            m > 0,
        ensures
            r == xorshift_step(old(self).state()) % m,
            final(self).state() == xorshift_step(old(self).state()),
    {
        let v: u64 = self.next();
        v % m
    }
}

} // verus!
