//! Virtual time: a tick counter that only the simulation advances.

use vstd::prelude::*;

verus! {

/// A point in virtual time.
#[derive(Debug, Clone, Copy, PartialEq, Eq, PartialOrd, Ord, Hash, Default, Structural)]
pub struct Tick(pub u64);

/// `a + b`, saturating at `u64::MAX`.
pub open spec fn saturating_add_spec(a: u64, b: u64) -> u64 {
    if a + b > u64::MAX { u64::MAX } else { (a + b) as u64 }
}

/// `a - b`, saturating at zero.
pub open spec fn saturating_sub_spec(a: u64, b: u64) -> u64 {
    if a >= b { (a - b) as u64 } else { 0 }
}

impl Tick {
    /// The start of virtual time.
    #[allow(non_snake_case)]
    pub fn ZERO() -> (t: Tick)
        ensures
            t.0 == 0,
    {
        Tick(0)
    }

    /// The tick `by` ticks later, saturating at the end of time.
    pub fn advance(self, by: u64) -> (t: Tick)
        ensures
            t.0 == saturating_add_spec(self.0, by),
    {
        Tick(self.0.saturating_add(by))
    }

    /// The number of ticks from `rhs` to `self`, zero if `rhs` is later.
    pub fn since(self, rhs: Tick) -> (d: u64)
        ensures
            d == saturating_sub_spec(self.0, rhs.0),
    {
        self.0.saturating_sub(rhs.0)
    }
}

impl vstd::std_specs::ops::SubSpecImpl for Tick {
    open spec fn obeys_sub_spec() -> bool {
        true
    }

    open spec fn sub_req(self, rhs: Tick) -> bool {
        true
    }

    open spec fn sub_spec(self, rhs: Tick) -> u64 {
        saturating_sub_spec(self.0, rhs.0)
    }
}

impl core::ops::Sub for Tick {
    type Output = u64;

    fn sub(self, rhs: Tick) -> (d: u64) {
        self.since(rhs)
    }
}

} // verus!
