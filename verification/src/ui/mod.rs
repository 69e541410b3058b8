//! State of the control panel that does not belong to the simulation.

pub mod controls;

pub use controls::UiState;
