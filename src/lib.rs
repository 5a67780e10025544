//! Line-stream throttling: rate specifications and a fixed-window admission
//! state machine that decides which lines pass and how many were skipped.

pub mod rate;
pub mod throttle;
