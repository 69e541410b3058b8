//! Colors authored in the familiar sRGB 0-255 space, and the mapping from
//! element states to palette colors. Conversion to linear floating-point RGB
//! for the GPU happens at the rendering edge.

use vstd::prelude::*;

use super::palette;
use crate::simulation::sort_event::ElementState;

verus! {

/// An sRGB color authored as 8-bit channels.
#[derive(Clone, Copy, Debug, PartialEq, Eq, Structural)]
pub struct Srgb {
    pub r: u8,
    pub g: u8,
    pub b: u8,
}

/// Build an 8-bit-per-channel sRGB color.
pub fn rgb(r: u8, g: u8, b: u8) -> (c: Srgb)
    ensures
        c == (Srgb { r, g, b }),
{
    Srgb { r, g, b }
}

/// The palette color of each element state.
pub open spec fn state_palette(state: ElementState) -> Srgb {
    match state {
        ElementState::Normal => Srgb { r: 56, g: 152, b: 224 },
        ElementState::Comparing => Srgb { r: 240, g: 200, b: 64 },
        ElementState::Swapping => Srgb { r: 232, g: 96, b: 48 },
        ElementState::Pivot => Srgb { r: 186, g: 96, b: 232 },
        ElementState::Sorted => Srgb { r: 72, g: 200, b: 120 },
    }
}

/// Map an element state to its palette color. This is the single place that
/// ties simulation state to on-screen color.
pub fn state_srgb(state: ElementState) -> (c: Srgb)
    ensures
        c == state_palette(state),
{
    match state {
        ElementState::Normal => palette::normal(),
        ElementState::Comparing => palette::comparing(),
        ElementState::Swapping => palette::swapping(),
        ElementState::Pivot => palette::pivot(),
        ElementState::Sorted => palette::sorted(),
    }
}

/// Distinct states get distinct colors, so the picture never hides which
/// state an element is in.
pub proof fn lemma_state_colors_distinct(a: ElementState, b: ElementState)
    ensures
        a != b ==> state_palette(a) != state_palette(b),
{
}

} // verus!
