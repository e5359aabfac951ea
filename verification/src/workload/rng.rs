//! The workload's own seeded choices (which client, which operation,
//! which key), drawn from a SplitMix64 stream separate from every
//! channel's fault stream, so a recorded chaos seed replays exactly.

use crate::channel::rng::{draw, draw_below, lemma_below_in_bounds};
use vstd::prelude::*;

verus! {

#[derive(Debug, Clone)]
pub struct SplitMix64 {
    inner: crate::channel::rng::SplitMix64,
}

impl View for SplitMix64 {
    type V = u64;

    closed spec fn view(&self) -> u64 {
        self.inner@
    }
}

impl SplitMix64 {
    pub fn new(seed: u64) -> (r: SplitMix64)
        ensures
            r@ == seed,
    {
        SplitMix64 { inner: crate::channel::rng::SplitMix64::new(seed) }
    }

    pub fn next_u64(&mut self) -> (x: u64)
        ensures
            (final(self)@, x) == draw(old(self)@),
    {
        self.inner.next_u64()
    }

    /// Uniform in `0..n`.
    pub fn below(&mut self, n: usize) -> (x: usize)
        requires
            n > 0,
        ensures
            (final(self)@, x as u64) == draw_below(old(self)@, n as u64),
            x < n,
    {
        let x = self.inner.below(n as u64);
        proof {
            lemma_below_in_bounds(old(self)@, n as u64);
        }
        x as usize
    }

    /// True with probability `percent / 100` (always, from 100 on).
    pub fn percent(&mut self, percent: u64) -> (b: bool)
        ensures
            final(self)@ == draw(old(self)@).0,
            b == (draw(old(self)@).1 % 100 < percent),
    {
        self.next_u64() % 100 < percent
    }
}

} // verus!
