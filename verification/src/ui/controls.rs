//! Persistent control-panel state and the array sizes it offers.

use vstd::prelude::*;

verus! {

/// Smallest array size offered by the size slider.
pub const MIN_ARRAY_SIZE: usize = 4;

/// Largest array size offered by the size slider.
pub const MAX_ARRAY_SIZE: usize = 200;

/// Persistent UI widget state that does not belong to the simulation.
pub struct UiState {
    /// Pending array size for the slider / "new array" button.
    pub size: usize,
}

impl UiState {
    pub fn new(size: usize) -> (r: Self)
        ensures
            r.size == size,
    {
        UiState { size }
    }
}

} // verus!
