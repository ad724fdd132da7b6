//! Runtime statistics.

use vstd::prelude::*;

verus! {

/// Runtime statistics exposed by the timing wheel.
///
/// They are meant for observability and diagnostics, not for synchronisation.
#[derive(Debug, Clone, Copy, PartialEq, Eq, Structural)]
pub struct Metrics {
    /// Number of tasks currently tracked by the wheel.
    pub active: usize,
    /// Cumulative `insert` + `reset` calls.
    pub inserted: usize,
    /// Commands dropped because the channel was at capacity or closed.
    pub dropped: usize,
    /// Callbacks that fired successfully.
    pub expirations: usize,
    /// Callbacks that panicked or otherwise terminated abnormally.
    pub abnormal: usize,
    /// Expired callbacks waiting to execute.
    pub pending: usize,
}

impl Default for Metrics {
    fn default() -> (metrics: Self)
        ensures
            metrics == (Metrics {
                active: 0,
                inserted: 0,
                dropped: 0,
                expirations: 0,
                abnormal: 0,
                pending: 0,
            }),
    {
        Metrics { active: 0, inserted: 0, dropped: 0, expirations: 0, abnormal: 0, pending: 0 }
    }
}

} // verus!
