//! Small helpers shared across the engine.

pub mod color;
pub mod palette;
