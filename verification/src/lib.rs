//! SortForge 3D: sorting algorithms expressed as replayable event streams,
//! the array state and metrics those events drive, and the playback logic
//! that steps through them.
//!
//! ```text
//!   algorithms ──emit──▶ SortEvents ──▶ simulation (timeline + playback)
//! ```
//!
//! * [`algorithms`] turn an array into a stream of events; they never render.
//! * [`simulation`] replays events to drive the array state, metrics, and
//!   playback (play / pause / step / reset).
//! * [`utils`] holds the color palette, and [`ui`] the control-panel state.

pub mod algorithms;
pub mod simulation;
pub mod ui;
pub mod utils;
