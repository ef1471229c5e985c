//! Fixed-interval repeating timers, measured in integer milliseconds.
//!
//! Each simulation clock (resource spawn, demand generation, departure
//! release) is a `TickTimer`. Once per frame the driver adds the elapsed
//! time; when the accumulated time crosses the interval the timer fires one
//! discrete event and keeps the remainder, so a steady cadence is held even
//! when frame times drift.

use vstd::prelude::*;

verus! {

/// A repeating timer: fires once each time `elapsed` accumulates past
/// `interval_ms`, then carries the overshoot into the next period.
pub struct TickTimer {
    pub interval_ms: u64,
    pub elapsed_ms: u64,
}

impl TickTimer {
    /// The timer is well formed when its period is positive and the
    /// accumulated time has not yet reached the period.
    pub open spec fn wf(self) -> bool {
        0 < self.interval_ms && self.elapsed_ms < self.interval_ms
    }

    pub open spec fn spec_interval(self) -> u64 {
        self.interval_ms
    }

    pub open spec fn spec_elapsed(self) -> u64 {
        self.elapsed_ms
    }

    pub fn new(interval_ms: u64) -> (t: TickTimer)
        requires
            0 < interval_ms,
        ensures
            t.wf(),
            t.spec_interval() == interval_ms,
            t.spec_elapsed() == 0,
    {
        TickTimer { interval_ms, elapsed_ms: 0 }
    }

    pub fn interval_ms(&self) -> (r: u64)
        ensures
            r == self.spec_interval(),
    {
        self.interval_ms
    }

    pub fn elapsed_ms(&self) -> (r: u64)
        ensures
            r == self.spec_elapsed(),
    {
        self.elapsed_ms
    }

    /// Advance the timer by `delta_ms`; the result is how many whole periods
    /// were completed, each standing for one fired event.
    pub fn tick(&mut self, delta_ms: u64) -> (fired: u64)
        requires
            old(self).wf(),
            old(self).spec_elapsed() + delta_ms <= u64::MAX,
        ensures
            final(self).wf(),
            final(self).spec_interval() == old(self).spec_interval(),
            fired == (old(self).spec_elapsed() + delta_ms) / old(self).spec_interval() as int,
            final(self).spec_elapsed() == (old(self).spec_elapsed() + delta_ms) % old(
                self,
            ).spec_interval() as int,
    {
        let total = self.elapsed_ms + delta_ms;
        let fired = total / self.interval_ms;
        self.elapsed_ms = total % self.interval_ms;
        fired
    }
}

} // verus!
