//! The two deterministic pseudo-random generators of the kernels: the
//! xoshiro-style generator of the Brillouin-zone Monte Carlo and the 64-bit
//! linear congruential generator of the SO(3) sampler.

use vstd::prelude::*;

verus! {

/// Multiplier and second seed word of the xoshiro-style generator.
pub const GOLDEN: u64 = 0x9E3779B97F4A7C15;

/// Multiplier of the linear congruential generator.
pub const LCG_MUL: u64 = 6364136223846793005;

/// Increment of the linear congruential generator.
pub const LCG_INC: u64 = 1442695040888963407;

/// `x * y` modulo 2^64.
pub open spec fn mul64(x: u64, y: u64) -> u64 {
    ((x as nat * y as nat) % 0x1_0000_0000_0000_0000) as u64
}

/// `x + y` modulo 2^64.
pub open spec fn add64(x: u64, y: u64) -> u64 {
    ((x as nat + y as nat) % 0x1_0000_0000_0000_0000) as u64
}

/// Rotation of the 64 bits of `x` to the left by `k` places, `0 < k < 64`.
pub open spec fn rotl64(x: u64, k: u32) -> u64 {
    (x << k) | (x >> ((64 - k) as u32))
}

/// Output word drawn from the first state word.
pub open spec fn xo_output(s0: u64) -> u64 {
    mul64(rotl64(mul64(s0, GOLDEN), 5), 5)
}

/// One transition of the two-word state.
pub open spec fn xo_step(s: (u64, u64)) -> (u64, u64) {
    let s1 = s.1 ^ s.0;
    (rotl64(s.0, 24) ^ s1 ^ (s1 << 16u32), rotl64(s1, 37))
}

/// The state after `n` transitions.
pub open spec fn xo_iterate(s: (u64, u64), n: nat) -> (u64, u64)
    decreases n,
{
    if n == 0 {
        s
    } else {
        xo_step(xo_iterate(s, (n - 1) as nat))
    }
}

/// Rotation of `x` to the left by `k` places, `0 < k < 64`.
fn rotate_left_u64(x: u64, k: u32) -> (r: u64)
    requires
        0 < k < 64,
    ensures
        r == rotl64(x, k),
{
    (x << k) | (x >> (64 - k))
}

fn mul_wrap(x: u64, y: u64) -> (r: u64)
    ensures
        r == mul64(x, y),
{
    x.wrapping_mul(y)
}

/// Xoshiro-style generator with a two-word state.
pub struct Rng {
    s: [u64; 2],
}

impl View for Rng {
    type V = (u64, u64);

    closed spec fn view(&self) -> (u64, u64) {
        (self.s@[0], self.s@[1])
    }
}

impl Rng {
    /// Seeds the state with `(seed, GOLDEN)` and discards the first ten
    /// outputs.
    pub fn new(seed: u64) -> (rng: Self)
        ensures
            rng@ == xo_iterate((seed, GOLDEN), 10),
    {
        let mut rng = Self { s: [seed, GOLDEN] };
        let mut i: u32 = 0;
        while i < 10
            invariant
                i <= 10,
                rng@ == xo_iterate((seed, GOLDEN), i as nat),
            decreases 10 - i,
        {
            rng.next();
            i = i + 1;
        }
        rng
    }

    /// Returns the output for the current state and advances the state by
    /// one transition.
    pub fn next(&mut self) -> (r: u64)
        ensures
            r == xo_output(old(self)@.0),
            final(self)@ == xo_step(old(self)@),
    {
        let s0 = self.s[0];
        let mut s1 = self.s[1];
        let result = mul_wrap(rotate_left_u64(mul_wrap(s0, GOLDEN), 5), 5);
        s1 = s1 ^ s0;
        let n0 = rotate_left_u64(s0, 24) ^ s1 ^ (s1 << 16u32);
        let n1 = rotate_left_u64(s1, 37);
        self.s = [n0, n1];
        result
    }
}

/// 64-bit linear congruential generator.
pub struct Lcg {
    pub state: u64,
}

impl Lcg {
    pub fn new(seed: u64) -> (g: Self)
        ensures
            g.state == seed,
    {
        Lcg { state: seed }
    }

    /// Advances `state` to `state * LCG_MUL + LCG_INC` modulo 2^64 and
    /// returns the new state.
    pub fn next_u64(&mut self) -> (r: u64)
        ensures
            final(self).state == add64(mul64(old(self).state, LCG_MUL), LCG_INC),
            r == final(self).state,
    {
        self.state = self.state.wrapping_mul(LCG_MUL).wrapping_add(LCG_INC);
        self.state
    }
}

} // verus!
