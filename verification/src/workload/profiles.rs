//! The named hostile-channel profiles the workload is driven through.
//! Probabilities are fixed-point thresholds (see `channel::fault`): each
//! constant is `ceil(p * 2^53)` for the probability `p` named beside it.

use crate::channel::fault::{profile_valid, FaultProfile};
use vstd::prelude::*;

verus! {

/// 0.01
pub const P_0_01: u64 = 90_071_992_547_410;

/// 0.02
pub const P_0_02: u64 = 180_143_985_094_820;

/// 0.05
pub const P_0_05: u64 = 450_359_962_737_050;

/// 0.10
pub const P_0_10: u64 = 900_719_925_474_100;

/// 0.25
pub const P_0_25: u64 = 2_251_799_813_685_248;

/// 0.6
pub const P_0_60: u64 = 5_404_319_552_844_595;

pub fn clean() -> (p: FaultProfile)
    ensures
        p == FaultProfile::spec_clean(),
{
    FaultProfile::CLEAN()
}

pub open spec fn lossy_profile() -> FaultProfile {
    FaultProfile {
        loss: P_0_10,
        duplication: P_0_02,
        reorder_max_delay: 1,
        corruption: P_0_01,
        truncation: P_0_01,
        base_delay: 1,
    }
}

pub fn lossy() -> (p: FaultProfile)
    ensures
        p == lossy_profile(),
        profile_valid(p),
{
    FaultProfile {
        loss: P_0_10,
        duplication: P_0_02,
        reorder_max_delay: 1,
        corruption: P_0_01,
        truncation: P_0_01,
        base_delay: 1,
    }
}

pub open spec fn high_latency_reordering_profile() -> FaultProfile {
    FaultProfile {
        loss: P_0_02,
        duplication: P_0_05,
        reorder_max_delay: 25,
        corruption: 0,
        truncation: 0,
        base_delay: 5,
    }
}

pub fn high_latency_reordering() -> (p: FaultProfile)
    ensures
        p == high_latency_reordering_profile(),
        profile_valid(p),
{
    FaultProfile {
        loss: P_0_02,
        duplication: P_0_05,
        reorder_max_delay: 25,
        corruption: 0,
        truncation: 0,
        base_delay: 5,
    }
}

pub open spec fn bursty_corruption_profile() -> FaultProfile {
    FaultProfile {
        loss: P_0_02,
        duplication: 0,
        reorder_max_delay: 0,
        corruption: P_0_25,
        truncation: P_0_05,
        base_delay: 1,
    }
}

pub fn bursty_corruption() -> (p: FaultProfile)
    ensures
        p == bursty_corruption_profile(),
        profile_valid(p),
{
    FaultProfile {
        loss: P_0_02,
        duplication: 0,
        reorder_max_delay: 0,
        corruption: P_0_25,
        truncation: P_0_05,
        base_delay: 1,
    }
}

pub open spec fn near_partition_profile() -> FaultProfile {
    FaultProfile {
        loss: P_0_60,
        duplication: 0,
        reorder_max_delay: 2,
        corruption: P_0_05,
        truncation: 0,
        base_delay: 1,
    }
}

pub fn near_partition() -> (p: FaultProfile)
    ensures
        p == near_partition_profile(),
        profile_valid(p),
{
    FaultProfile {
        loss: P_0_60,
        duplication: 0,
        reorder_max_delay: 2,
        corruption: P_0_05,
        truncation: 0,
        base_delay: 1,
    }
}

/// Every named profile with its name, in a fixed order.
pub fn all() -> (v: Vec<(&'static str, FaultProfile)>)
    ensures
        v@.len() == 5,
        v@[0].0@ == "clean"@,
        v@[0].1 == FaultProfile::spec_clean(),
        v@[1].0@ == "lossy"@,
        v@[1].1 == lossy_profile(),
        v@[2].0@ == "high_latency_reordering"@,
        v@[2].1 == high_latency_reordering_profile(),
        v@[3].0@ == "bursty_corruption"@,
        v@[3].1 == bursty_corruption_profile(),
        v@[4].0@ == "near_partition"@,
        v@[4].1 == near_partition_profile(),
        forall|i: int| 0 <= i < v@.len() ==> profile_valid(#[trigger] v@[i].1),
{
    let mut v: Vec<(&'static str, FaultProfile)> = Vec::new();
    v.push(("clean", clean()));
    v.push(("lossy", lossy()));
    v.push(("high_latency_reordering", high_latency_reordering()));
    v.push(("bursty_corruption", bursty_corruption()));
    v.push(("near_partition", near_partition()));
    v
}

} // verus!
