//! Adaptive retransmission timeout in virtual ticks: Jacobson/Karels
//! smoothing in fixed point (scale 8), Karn's rule left to the caller
//! (never sample a retransmitted segment), exponential backoff on
//! consecutive timeouts.

use vstd::prelude::*;

verus! {

/// Fixed-point scale of the smoothed RTT.
pub const SCALE: u64 = 8;

/// The largest backoff multiplier.
pub const MAX_BACKOFF: u32 = 64;

/// The largest RTT sample the fixed-point arithmetic holds: samples are
/// scaled by `SCALE`.
pub const MAX_RTT_SAMPLE: u64 = 0x1FFF_FFFF_FFFF_FFFF;

/// The largest `max_rto` whose backed-off value still fits in a `u64`.
pub const MAX_RTO_LIMIT: u64 = 0x03FF_FFFF_FFFF_FFFF;

/// The estimator's state as plain values.
pub struct RtoModel {
    /// Smoothed RTT, scaled by `SCALE`; `None` before the first sample.
    pub srtt: Option<u64>,
    /// RTT variance, scaled by `SCALE / 2`.
    pub rttvar: u64,
    pub min_rto: u64,
    pub max_rto: u64,
    pub backoff: u32,
}

#[derive(Debug, Clone, Copy)]
pub struct RtoEstimator {
    srtt: Option<u64>,
    rttvar: u64,
    min_rto: u64,
    max_rto: u64,
    backoff: u32,
}

impl View for RtoEstimator {
    type V = RtoModel;

    closed spec fn view(&self) -> RtoModel {
        RtoModel {
            srtt: self.srtt,
            rttvar: self.rttvar,
            min_rto: self.min_rto,
            max_rto: self.max_rto,
            backoff: self.backoff,
        }
    }
}

/// The smoothed estimate `SRTT + 4 * RTTVAR` (the variance term at least
/// one tick), or `min_rto` before any sample, clamped to
/// `[min_rto, max_rto]`.
pub open spec fn spec_base_rto(m: RtoModel) -> u64 {
    let estimate: int = match m.srtt {
        Some(srtt) => srtt / 8 + 4 * (if m.rttvar / 4 >= 1 { m.rttvar / 4 } else { 1 }),
        None => m.min_rto as int,
    };
    if estimate < m.min_rto {
        m.min_rto
    } else if estimate > m.max_rto {
        m.max_rto
    } else {
        estimate as u64
    }
}

/// The timeout to arm now: the base estimate times the backoff, capped by
/// `max_rto`.
pub open spec fn spec_current(m: RtoModel) -> u64 {
    let backed = spec_base_rto(m) * m.backoff;
    if backed > m.max_rto {
        m.max_rto
    } else {
        backed as u64
    }
}

/// The state after recording an RTT sample: backoff reset, SRTT and
/// RTTVAR moved toward the sample with gains 1/8 and 1/4.
pub open spec fn spec_on_sample(m: RtoModel, rtt: u64) -> RtoModel {
    match m.srtt {
        None => RtoModel {
            srtt: Some((rtt * 8) as u64),
            rttvar: (rtt * 8 / 2) as u64,
            backoff: 1,
            ..m
        },
        Some(srtt) => {
            let unscaled = srtt / 8;
            let diff = if rtt >= unscaled { rtt - unscaled } else { unscaled - rtt };
            RtoModel {
                srtt: Some((srtt - srtt / 8 + rtt * 8 / 8) as u64),
                rttvar: (m.rttvar - m.rttvar / 4 + diff * 4 / 4) as u64,
                backoff: 1,
                ..m
            }
        },
    }
}

/// The state after a timeout: backoff doubled, at most `MAX_BACKOFF`.
pub open spec fn spec_on_timeout(m: RtoModel) -> RtoModel {
    RtoModel {
        backoff: if 2 * m.backoff > MAX_BACKOFF { MAX_BACKOFF } else { (2 * m.backoff) as u32 },
        ..m
    }
}

/// The estimator's invariant: a sane range, a backoff in `1..=64`, and
/// estimates no larger than samples can make them.
pub open spec fn rto_wf(m: RtoModel) -> bool {
    &&& m.min_rto <= m.max_rto <= MAX_RTO_LIMIT
    &&& 1 <= m.backoff <= MAX_BACKOFF
    &&& m.rttvar <= 4 * MAX_RTT_SAMPLE
    &&& match m.srtt {
        Some(s) => s <= 8 * MAX_RTT_SAMPLE,
        None => true,
    }
}

impl RtoEstimator {
    /// A fresh estimator with no samples and no backoff.
    pub fn new(min_rto: u64, max_rto: u64) -> (e: RtoEstimator)
        requires
            min_rto <= max_rto <= MAX_RTO_LIMIT,
        ensures
            e@ == (RtoModel { srtt: None, rttvar: 0, min_rto, max_rto, backoff: 1 }),
            rto_wf(e@),
    {
        RtoEstimator { srtt: None, rttvar: 0, min_rto, max_rto, backoff: 1 }
    }

    /// The un-backed-off estimate.
    pub fn base_rto(&self) -> (r: u64)
        requires
            rto_wf(self@),
        ensures
            r == spec_base_rto(self@),
    {
        let estimate: u64 = match self.srtt {
            Some(srtt) => {
                let var = self.rttvar / 4;
                let var = if var >= 1 { var } else { 1 };
                srtt / SCALE + 4 * var
            },
            None => self.min_rto,
        };
        if estimate < self.min_rto {
            self.min_rto
        } else if estimate > self.max_rto {
            self.max_rto
        } else {
            estimate
        }
    }

    /// The timeout to arm right now, backoff included.
    pub fn current(&self) -> (r: u64)
        requires
            rto_wf(self@),
        ensures
            r == spec_current(self@),
            self@.min_rto <= r <= self@.max_rto,
    {
        let base = self.base_rto();
        assert(base * self.backoff <= MAX_RTO_LIMIT * 64) by (nonlinear_arith)
            requires
                base <= MAX_RTO_LIMIT,
                self.backoff <= 64,
        ;
        assert(base <= base * self.backoff) by (nonlinear_arith)
            requires
                self.backoff >= 1,
        ;
        let backed = base * (self.backoff as u64);
        if backed > self.max_rto {
            self.max_rto
        } else {
            backed
        }
    }

    /// Records an RTT sample taken from a segment that was never
    /// retransmitted, and resets the backoff.
    pub fn on_sample(&mut self, measured_rtt: u64)
        requires
            rto_wf(old(self)@),
            measured_rtt <= MAX_RTT_SAMPLE,
        ensures
            final(self)@ == spec_on_sample(old(self)@, measured_rtt),
            rto_wf(final(self)@),
    {
        self.backoff = 1;
        match self.srtt {
            None => {
                self.srtt = Some(measured_rtt * SCALE);
                self.rttvar = measured_rtt * SCALE / 2;
            },
            Some(srtt) => {
                let srtt_unscaled = srtt / SCALE;
                let diff = if measured_rtt >= srtt_unscaled {
                    measured_rtt - srtt_unscaled
                } else {
                    srtt_unscaled - measured_rtt
                };
                self.rttvar = self.rttvar - self.rttvar / 4 + diff * (SCALE / 2) / 4;
                self.srtt = Some(srtt - srtt / 8 + measured_rtt * SCALE / 8);
            },
        }
    }

    /// A timeout fired: double the backoff, at most `MAX_BACKOFF`.
    pub fn on_timeout(&mut self)
        requires
            rto_wf(old(self)@),
        ensures
            final(self)@ == spec_on_timeout(old(self)@),
            rto_wf(final(self)@),
    {
        let doubled = self.backoff * 2;
        self.backoff = if doubled > MAX_BACKOFF { MAX_BACKOFF } else { doubled };
    }
}

/// The armed timeout always lies within `[min_rto, max_rto]`, whatever
/// samples and timeouts came before.
pub proof fn lemma_current_in_range(m: RtoModel)
    requires
        rto_wf(m),
    ensures
        m.min_rto <= spec_current(m) <= m.max_rto,
{
    let base = spec_base_rto(m);
    assert(base <= base * m.backoff) by (nonlinear_arith)
        requires
            m.backoff >= 1,
    ;
}

/// A sample resets the backoff: right after it, the armed timeout is the
/// base estimate (capped by `max_rto`).
pub proof fn lemma_sample_resets_backoff(m: RtoModel, rtt: u64)
    requires
        rto_wf(m),
        rtt <= MAX_RTT_SAMPLE,
    ensures
        spec_on_sample(m, rtt).backoff == 1,
        spec_current(spec_on_sample(m, rtt)) == spec_base_rto(spec_on_sample(m, rtt)),
{
    let base = spec_base_rto(spec_on_sample(m, rtt));
    assert(base * 1 == base);
}

/// Before any sample, with no backoff, the timeout is exactly `min_rto`.
pub proof fn lemma_no_sample_is_min_rto(min_rto: u64, max_rto: u64)
    requires
        min_rto <= max_rto <= MAX_RTO_LIMIT,
    ensures
        spec_current(RtoModel { srtt: None, rttvar: 0, min_rto, max_rto, backoff: 1 }) == min_rto,
{
}

/// A timeout doubles the armed timeout while it stays under `max_rto`
/// and the backoff under its cap.
pub proof fn lemma_timeout_doubles(m: RtoModel)
    requires
        rto_wf(m),
        2 * m.backoff <= MAX_BACKOFF,
        spec_base_rto(m) * (2 * m.backoff) <= m.max_rto,
    ensures
        spec_current(spec_on_timeout(m)) == 2 * spec_current(m),
{
    let base = spec_base_rto(m);
    assert(base * m.backoff <= base * (2 * m.backoff)) by (nonlinear_arith)
        requires
            m.backoff >= 1,
    ;
    assert(base * (2 * m.backoff) == 2 * (base * m.backoff)) by (nonlinear_arith);
}

} // verus!
