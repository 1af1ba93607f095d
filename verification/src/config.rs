//! Engine configuration.

use vstd::prelude::*;

verus! {

/// Tunables of the aggregation core.  Times are milliseconds.
#[derive(Clone, Copy, Debug, PartialEq, Eq, Structural)]
pub struct Config {
    /// Length of one aggregation window.
    pub bar_length_ms: u64,
    /// How long a trade stays in its window's multiset after insertion
    /// before the feedback edge retracts it.
    pub retention_ms: u64,
    /// Wall-clock slack after a window's end before its bar is final.
    pub grace_period_ms: u64,
    /// How often buffered inserts are flushed into the dataflow.
    pub flush_frequency_ms: u64,
    /// Capacity of the bounded ingress buffer.
    pub input_queue_capacity: usize,
    /// Cooperating workers the caller intends to run.
    pub worker_count: usize,
}

impl Config {
    /// A usable configuration: windows are non-empty (a zero window would
    /// make a zero feedback summary, which the engine refuses) and the
    /// retention horizon `retention + bar_length` fits the clock.
    pub open spec fn wf(self) -> bool {
        &&& self.bar_length_ms >= 1
        &&& self.retention_ms + self.bar_length_ms <= u64::MAX
    }

    /// The feedback summary: how long an inserted trade lives.
    pub open spec fn horizon_ms(self) -> int {
        self.retention_ms + self.bar_length_ms
    }
}

} // verus!
