//! Hierarchical timing wheel.
//!
//! Three levels of 64 buckets hold the waiting tasks.  A level-0 bucket stands for one tick,
//! a level-1 bucket for 64 ticks and a level-2 bucket for 4096 ticks; tasks cascade down
//! from level 2 over level 1 to level 0 and expire.
//!
//! - [`Wheel`] is the wheel itself, [`model::WheelModel`] its mathematical model.
//! - [`TimingWheel`] is the handle through which tasks are inserted, reset and removed.  Its
//!   commands go through a channel.
//! - [`Worker`] owns the wheel.  It does no I/O: it takes one [`Event`] after the other and
//!   answers each with an [`Action`]; [`machine::Machine`] is its mathematical model.
//! - [`Shared`] is what handles and worker share: statistics and cancellation markers.
//! - [`laws`] and [`system`] prove what holds of them as a whole; [`promises`], [`layout`] and
//!   [`duties`] say in plain numbers, buckets and sequences what each operation is for.

pub mod arena;
pub mod cancel;
pub mod channel;
pub mod command;
pub mod config;
pub mod duties;
pub mod handle;
pub mod ids;
pub mod laws;
pub mod layout;
pub mod level;
pub mod machine;
pub mod metrics;
pub mod model;
pub mod promises;
pub mod shared;
pub mod system;
pub mod time;
pub mod wheel;
pub mod worker;

pub use cancel::{cancel_decrement, cancel_increment};
pub use channel::{CmdReceiver, Heard};
pub use command::Cmd;
pub use config::WheelConfig;
pub use handle::{Setup, TimingWheel};
pub use level::Level;
pub use machine::{Action, Event};
pub use metrics::Metrics;
pub use shared::Shared;
pub use wheel::Wheel;
pub use worker::Worker;
