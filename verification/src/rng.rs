//! A seeded xorshift128 pseudo-random stream.
//!
//! Every demand value the library uses is drawn from this generator, so a
//! run is a pure function of the seed: the `k`-th output is pinned by the
//! spec functions `stream` and `draw`.
use vstd::prelude::*;

verus! {

/// A 128-bit seed, as four 32-bit words (most significant first).
#[derive(Clone, Copy, Debug, PartialEq, Eq, Structural)]
pub struct Seed {
    pub w0: u32,
    pub w1: u32,
    pub w2: u32,
    pub w3: u32,
}

/// Marsaglia's xorshift128 generator state.
#[derive(Clone, Copy, Debug, PartialEq, Eq, Structural)]
pub struct XorShift {
    pub x: u32,
    pub y: u32,
    pub z: u32,
    pub w: u32,
}

/// The word produced by one xorshift128 step from state `s`.
pub open spec fn next_word(s: XorShift) -> u32 {
    let t = s.x ^ (s.x << 11);
    (s.w ^ (s.w >> 19)) ^ (t ^ (t >> 8))
}

/// The state after one xorshift128 step.
pub open spec fn step(s: XorShift) -> XorShift {
    XorShift { x: s.y, y: s.z, z: s.w, w: next_word(s) }
}

/// The state after `k` steps.
pub open spec fn stream(s: XorShift, k: nat) -> XorShift
    decreases k,
{
    if k == 0 {
        s
    } else {
        step(stream(s, (k - 1) as nat))
    }
}

/// The `k`-th output (0-based) of the generator seeded with `s`.
pub open spec fn draw(s: XorShift, k: nat) -> u32 {
    stream(s, k + 1).w
}

impl XorShift {
    /// Seeds the generator: the seed words become the state words in order.
    pub fn from_seed(seed: Seed) -> (r: XorShift)
        ensures
            r == (XorShift { x: seed.w0, y: seed.w1, z: seed.w2, w: seed.w3 }),
    {
        XorShift { x: seed.w0, y: seed.w1, z: seed.w2, w: seed.w3 }
    }

    /// Advances the state one step and returns the produced word.
    pub fn next_u32(&mut self) -> (r: u32)
        ensures
            *final(self) == step(*old(self)),
            r == next_word(*old(self)),
    {
        let t = self.x ^ (self.x << 11u32);
        let w = (self.w ^ (self.w >> 19u32)) ^ (t ^ (t >> 8u32));
        self.x = self.y;
        self.y = self.z;
        self.z = self.w;
        self.w = w;
        w
    }
}

/// Stepping the state `k + 1` times is one step past stepping it `k` times,
/// so consuming outputs one at a time walks the `draw` stream in order.
pub proof fn lemma_stream_snoc(s: XorShift, k: nat)
    ensures
        stream(s, k + 1) == step(stream(s, k)),
{
}

} // verus!
