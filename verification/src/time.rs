//! Logical tick time: the core's only notion of time.

use vstd::prelude::*;

use crate::error::{Result, WMMSCoreError};

verus! {

/// A point in logical time.
#[derive(Clone, Copy, Debug, PartialEq, Eq, Structural, Hash)]
pub struct Tick(pub u64);

/// A span of logical time.
#[derive(Clone, Copy, Debug, PartialEq, Eq, Structural, Hash)]
pub struct TickDelta(pub u64);

/// Conversion rate between logical ticks and wall-clock nanoseconds; the
/// core itself never consumes wall-clock time.
#[derive(Clone, Copy, Debug)]
pub struct TickRate {
    pub ticks_per_second: u32,
}

impl Tick {
    /// Advances the tick; overflow is an error, never a silent wrap.
    pub fn checked_add(self, delta: TickDelta) -> (r: Result<Tick>)
        ensures
            match r {
                Ok(t) => self.0 + delta.0 <= u64::MAX && t.0 == self.0 + delta.0,
                Err(e) => self.0 + delta.0 > u64::MAX && (e matches WMMSCoreError::TickOverflow),
            },
    {
        match self.0.checked_add(delta.0) {
            Some(v) => Ok(Tick(v)),
            None => Err(WMMSCoreError::TickOverflow),
        }
    }
}

impl TickRate {
    /// Ticks spanned by a duration given in nanoseconds, rounded to the
    /// nearest tick.
    pub fn duration_to_ticks(&self, nanos: u128) -> (r: TickDelta)
        requires
            self.ticks_per_second > 0,
            nanos * self.ticks_per_second + 500_000_000 <= u128::MAX,
            (nanos * self.ticks_per_second + 500_000_000) / 1_000_000_000 <= u64::MAX,
        ensures
            r.0 == (nanos * self.ticks_per_second + 500_000_000) / 1_000_000_000,
    {
        let tps = self.ticks_per_second as u128;
        let ticks = (nanos * tps + 500_000_000u128) / 1_000_000_000u128;
        TickDelta(ticks as u64)
    }

    /// Nanoseconds spanned by a tick count.
    pub fn ticks_to_duration_nanos(&self, dt: TickDelta) -> (r: u128)
        requires
            self.ticks_per_second > 0,
        ensures
            r == (dt.0 * 1_000_000_000) as int / (self.ticks_per_second as int),
    {
        proof {
            assert((dt.0 as int) * 1_000_000_000 <= u128::MAX) by (nonlinear_arith)
                requires
                    dt.0 <= u64::MAX,
            ;
        }
        let tps = self.ticks_per_second as u128;
        (dt.0 as u128) * 1_000_000_000u128 / tps
    }
}

} // verus!
