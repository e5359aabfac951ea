//! What the channel does to a datagram: a random `FaultProfile` and the
//! deterministic `Script` of per-datagram overrides.
//!
//! Probabilities are fixed-point: a probability `p` is the threshold
//! `ceil(p * 2^53)`, and `PROB_ONE` (2^53) is certainty. A draw succeeds
//! when its top 53 bits fall below the threshold, which is exactly when
//! the draw's 53-bit fraction falls below `p`.

use crate::channel::rng::PROB_ONE;
use vstd::prelude::*;

verus! {

/// Independent per-datagram faults, applied in order: loss, duplication,
/// reordering delay, corruption, truncation. A dropped datagram skips
/// the rest; everything else can compound.
#[derive(Debug, Clone, Copy, PartialEq, Eq, Structural)]
pub struct FaultProfile {
    /// Probability (threshold, see the module docs) a datagram is dropped.
    pub loss: u64,
    /// Probability a delivered datagram is also duplicated (the duplicate
    /// gets its own delay, corruption and truncation draws).
    pub duplication: u64,
    /// Extra delay is uniform in `0..=reorder_max_delay`; 0 disables
    /// reordering.
    pub reorder_max_delay: u64,
    /// Probability one random bit of a delivered datagram is flipped.
    pub corruption: u64,
    /// Probability a delivered datagram is cut to a random shorter length.
    pub truncation: u64,
    /// Fixed transit delay of every datagram that is not dropped.
    pub base_delay: u64,
}

impl FaultProfile {
    /// No faults: a perfect channel with a one-tick transit.
    pub open spec fn spec_clean() -> FaultProfile {
        FaultProfile {
            loss: 0,
            duplication: 0,
            reorder_max_delay: 0,
            corruption: 0,
            truncation: 0,
            base_delay: 1,
        }
    }

    /// No faults: a perfect channel with a one-tick transit.
    #[allow(non_snake_case)]
    pub fn CLEAN() -> (p: FaultProfile)
        ensures
            p == Self::spec_clean(),
    {
        FaultProfile {
            loss: 0,
            duplication: 0,
            reorder_max_delay: 0,
            corruption: 0,
            truncation: 0,
            base_delay: 1,
        }
    }

    /// Every probability must lie in `[0, 1]`, i.e. at most `PROB_ONE`;
    /// the first one out of range is named.
    pub fn validate(&self) -> (r: Result<(), &'static str>)
        ensures
            r is Ok <==> profile_valid(*self),
            r matches Err(m) ==> m@ == if self.loss > PROB_ONE {
                "loss must be in [0.0, 1.0]"@
            } else if self.duplication > PROB_ONE {
                "duplication must be in [0.0, 1.0]"@
            } else if self.corruption > PROB_ONE {
                "corruption must be in [0.0, 1.0]"@
            } else {
                "truncation must be in [0.0, 1.0]"@
            },
    {
        if self.loss > PROB_ONE {
            return Err("loss must be in [0.0, 1.0]");
        }
        if self.duplication > PROB_ONE {
            return Err("duplication must be in [0.0, 1.0]");
        }
        if self.corruption > PROB_ONE {
            return Err("corruption must be in [0.0, 1.0]");
        }
        if self.truncation > PROB_ONE {
            return Err("truncation must be in [0.0, 1.0]");
        }
        Ok(())
    }
}

/// Every probability of the profile lies in `[0, 1]`.
pub open spec fn profile_valid(p: FaultProfile) -> bool {
    &&& p.loss <= PROB_ONE
    &&& p.duplication <= PROB_ONE
    &&& p.corruption <= PROB_ONE
    &&& p.truncation <= PROB_ONE
}

/// One explicit fault applied to the n-th datagram sent (0-indexed).
#[derive(Debug, Clone, Copy, PartialEq, Eq, Structural)]
pub enum ScriptedFault {
    Drop,
    Duplicate,
    Delay(u64),
    Corrupt { byte_offset: usize },
    Truncate { to_len: usize },
}

/// `(datagram index, fault)` rules; rules for one index apply in the
/// order listed.
#[derive(Debug, Clone)]
pub struct Script {
    rules: Vec<(u64, ScriptedFault)>,
}

impl View for Script {
    type V = Seq<(u64, ScriptedFault)>;

    closed spec fn view(&self) -> Seq<(u64, ScriptedFault)> {
        self.rules@
    }
}

impl Default for Script {
    fn default() -> (s: Script)
        ensures
            s@ == Seq::<(u64, ScriptedFault)>::empty(),
    {
        Script { rules: Vec::new() }
    }
}

/// The faults scripted for datagram `index`, in the order listed.
pub open spec fn rules_for(rules: Seq<(u64, ScriptedFault)>, index: u64) -> Seq<ScriptedFault>
    decreases rules.len(),
{
    if rules.len() == 0 {
        Seq::empty()
    } else {
        let r = rules.last();
        rules_for(rules.drop_last(), index) + if r.0 == index {
            seq![r.1]
        } else {
            Seq::empty()
        }
    }
}

impl Script {
    pub fn new() -> (s: Script)
        ensures
            s@ == Seq::<(u64, ScriptedFault)>::empty(),
    {
        Self::default()
    }

    /// This script with one more rule, for datagram `datagram_index`.
    pub fn at(self, datagram_index: u64, fault: ScriptedFault) -> (s: Script)
        ensures
            s@ == self@.push((datagram_index, fault)),
    {
        let mut s = self;
        s.rules.push((datagram_index, fault));
        s
    }

    /// The faults scripted for datagram `index`, in the order listed.
    pub fn for_index(&self, index: u64) -> (faults: Vec<ScriptedFault>)
        ensures
            faults@ == rules_for(self@, index),
    {
        let mut faults: Vec<ScriptedFault> = Vec::new();
        let mut i: usize = 0;
        while i < self.rules.len()
            invariant
                i <= self@.len(),
                faults@ == rules_for(self@.take(i as int), index),
            decreases self@.len() - i,
        {
            let (k, f) = self.rules[i];
            if k == index {
                faults.push(f);
            }
            proof {
                assert(self@.take(i + 1).drop_last() =~= self@.take(i as int));
            }
            i = i + 1;
        }
        assert(self@.take(i as int) =~= self@);
        faults
    }
}

/// Counters of what actually happened.
#[derive(Debug, Clone, Copy, PartialEq, Eq, Structural)]
pub struct FaultStats {
    pub sent: u64,
    pub delivered: u64,
    pub dropped: u64,
    pub duplicated: u64,
    pub reordered: u64,
    pub corrupted: u64,
    pub truncated: u64,
}

impl Default for FaultStats {
    fn default() -> (s: FaultStats)
        ensures
            s == (FaultStats {
                sent: 0,
                delivered: 0,
                dropped: 0,
                duplicated: 0,
                reordered: 0,
                corrupted: 0,
                truncated: 0,
            }),
    {
        FaultStats {
            sent: 0,
            delivered: 0,
            dropped: 0,
            duplicated: 0,
            reordered: 0,
            corrupted: 0,
            truncated: 0,
        }
    }
}

} // verus!
