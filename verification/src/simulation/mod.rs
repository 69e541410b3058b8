//! The simulation layer: event model, replayable state, metrics, and playback.

pub mod array_state;
pub mod metrics;
pub mod playback;
pub mod sort_event;
pub mod timeline;

pub use array_state::ArrayState;
pub use metrics::Metrics;
pub use playback::{PlaybackController, MAX_STEPS_PER_UPDATE};
pub use sort_event::{ElementState, SortEvent};
pub use timeline::Timeline;
