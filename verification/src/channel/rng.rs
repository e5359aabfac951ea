//! SplitMix64 (Steele, Lea & Flood, 2014): a seeded generator whose
//! stream is fixed forever, so a recorded seed replays exactly.

use vstd::prelude::*;
use vstd::wrapping::u64_specs;

verus! {

pub const GAMMA: u64 = 0x9E37_79B9_7F4A_7C15;

pub const MIX1: u64 = 0xBF58_476D_1CE4_E5B9;

pub const MIX2: u64 = 0x94D0_49BB_1331_11EB;

/// Thresholds of `chance` are in units of 2^-53: this one means
/// certainty.
pub const PROB_ONE: u64 = 0x20_0000_0000_0000;

/// The state after one step.
pub open spec fn splitmix_next_state(s: u64) -> u64 {
    u64_specs::wrapping_add(s, GAMMA)
}

/// The output mixed from a (stepped) state.
pub open spec fn splitmix_mix(z: u64) -> u64 {
    let z1 = u64_specs::wrapping_mul(z ^ (z >> 30u64), MIX1);
    let z2 = u64_specs::wrapping_mul(z1 ^ (z1 >> 27u64), MIX2);
    z2 ^ (z2 >> 31u64)
}

/// One draw from state `s`: the new state and the output.
pub open spec fn draw(s: u64) -> (u64, u64) {
    (splitmix_next_state(s), splitmix_mix(splitmix_next_state(s)))
}

/// `x` scaled into `0..n` (Lemire's multiply-shift).
pub open spec fn scale_below(x: u64, n: u64) -> u64 {
    ((x as nat * n as nat) / 0x1_0000_0000_0000_0000nat) as u64
}

/// One bounded draw: the new state and a value in `0..n`.
pub open spec fn draw_below(s: u64, n: u64) -> (u64, u64) {
    (draw(s).0, scale_below(draw(s).1, n))
}

/// One biased coin: true when the top 53 bits of the draw fall below
/// `threshold` (a probability in units of 2^-53).
pub open spec fn draw_chance(s: u64, threshold: u64) -> (u64, bool) {
    (draw(s).0, (draw(s).1 >> 11u64) < threshold)
}

#[derive(Debug, Clone)]
pub struct SplitMix64 {
    state: u64,
}

impl View for SplitMix64 {
    type V = u64;

    closed spec fn view(&self) -> u64 {
        self.state
    }
}

impl SplitMix64 {
    pub fn new(seed: u64) -> (r: SplitMix64)
        ensures
            r@ == seed,
    {
        SplitMix64 { state: seed }
    }

    pub fn next_u64(&mut self) -> (x: u64)
        ensures
            (final(self)@, x) == draw(old(self)@),
    {
        self.state = self.state.wrapping_add(GAMMA);
        let mut z = self.state;
        z = (z ^ (z >> 30)).wrapping_mul(MIX1);
        z = (z ^ (z >> 27)).wrapping_mul(MIX2);
        z ^ (z >> 31)
    }

    /// True with probability `threshold / 2^53`: `0` never, `PROB_ONE`
    /// (or more) always.
    pub fn chance(&mut self, threshold: u64) -> (b: bool)
        ensures
            (final(self)@, b) == draw_chance(old(self)@, threshold),
    {
        (self.next_u64() >> 11) < threshold
    }

    /// Uniform in `0..n`.
    pub fn below(&mut self, n: u64) -> (x: u64)
        requires
            n > 0,
        ensures
            (final(self)@, x) == draw_below(old(self)@, n),
            x < n,
    {
        let r = self.next_u64();
        assert((r as u128) * (n as u128) <= 0xFFFF_FFFF_FFFF_FFFF * 0xFFFF_FFFF_FFFF_FFFF) by (nonlinear_arith)
            requires
                r <= 0xFFFF_FFFF_FFFF_FFFFu64,
                n <= 0xFFFF_FFFF_FFFF_FFFFu64,
        ;
        let wide = (r as u128) * (n as u128);
        let x = (wide / 0x1_0000_0000_0000_0000u128) as u64;
        proof {
            lemma_scale_below(r, n);
        }
        x
    }
}

proof fn lemma_scale_below(x: u64, n: u64)
    requires
        n > 0,
    ensures
        (x as nat * n as nat) / 0x1_0000_0000_0000_0000nat < n,
{
    assert((x as nat * n as nat) < 0x1_0000_0000_0000_0000nat * n as nat) by (nonlinear_arith)
        requires
            x < 0x1_0000_0000_0000_0000nat,
            n > 0,
    ;
    assert((x as nat * n as nat) / 0x1_0000_0000_0000_0000nat < n) by (nonlinear_arith)
        requires
            (x as nat * n as nat) < 0x1_0000_0000_0000_0000nat * n as nat,
    ;
}

/// A draw's top 53 bits are below `PROB_ONE`: a threshold of `PROB_ONE`
/// always succeeds, and a threshold of zero never does.
pub proof fn lemma_chance_extremes(s: u64)
    ensures
        draw_chance(s, PROB_ONE).1,
        !draw_chance(s, 0).1,
{
    let x = draw(s).1;
    assert(x >> 11u64 < 0x20_0000_0000_0000u64) by (bit_vector);
}

/// Bounded draws stay in bounds.
pub proof fn lemma_below_in_bounds(s: u64, n: u64)
    requires
        n > 0,
    ensures
        draw_below(s, n).1 < n,
{
    lemma_scale_below(draw(s).1, n);
}

} // verus!
