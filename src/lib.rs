//! Timers and clocks for a trading runtime: one-shot alerts and periodic
//! timers that fire in a fixed order, by instant and then by name, on a
//! simulated clock that its owner advances or on wall time.

pub mod clock;
pub mod event;
pub mod laws;
pub mod live;
pub mod names;
pub mod queue;
pub mod registry;
pub mod schedule;
pub mod time;
pub mod timer;
