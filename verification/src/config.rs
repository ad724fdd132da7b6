//! Configuration and geometry of the wheel.

use std::time::Duration;

use vstd::prelude::*;

use crate::time::{duration_millis, duration_of_secs};

verus! {

/// Timing wheel configuration.
#[derive(Debug)]
pub struct WheelConfig {
    /// Base tick interval (duration of one Level-0 slot).
    /// Default: 1 second.
    pub tick_interval: Duration,
    /// Maximum callbacks executed per tick drain to avoid blocking the
    /// event loop for too long.  Must be >= 1.
    /// Default: 500.
    pub batch_size: usize,
    /// Command channel capacity.  Sends beyond this return `false`.
    /// Default: 64 * 1024.
    pub channel_capacity: usize,
}

impl Clone for WheelConfig {
    fn clone(&self) -> (config: Self)
        ensures
            config == *self,
    {
        WheelConfig {
            tick_interval: self.tick_interval,
            batch_size: self.batch_size,
            channel_capacity: self.channel_capacity,
        }
    }
}

impl Default for WheelConfig {
    fn default() -> (config: Self)
        ensures
            config.tick_interval == duration_of_secs(1),
            duration_millis(config.tick_interval) == 1000,
            config.batch_size == 500,
            config.channel_capacity == 64 * 1024,
    {
        WheelConfig {
            tick_interval: Duration::from_secs(1),
            batch_size: 500,
            channel_capacity: 64 * 1024,
        }
    }
}

/// Buckets of each level.
pub const LV0_SLOTS: usize = 64;

pub const LV1_SLOTS: usize = 64;

pub const LV2_SLOTS: usize = 64;

/// Base ticks between two advances of each level.
pub const LV0_TICK: u64 = 1;

pub const LV1_TICK: u64 = 64;

pub const LV2_TICK: u64 = 4096;

} // verus!
