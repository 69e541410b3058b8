//! The "algorithm observatory" palette used throughout the visualization.

use vstd::prelude::*;

use super::color::{rgb, Srgb};

verus! {

/// Resting elements: calm cyan/blue.
pub fn normal() -> (c: Srgb)
    ensures
        c == (Srgb { r: 56, g: 152, b: 224 }),
{
    rgb(56, 152, 224)
}

/// Elements being compared this step: yellow.
pub fn comparing() -> (c: Srgb)
    ensures
        c == (Srgb { r: 240, g: 200, b: 64 }),
{
    rgb(240, 200, 64)
}

/// Elements being swapped or overwritten: warm orange/red.
pub fn swapping() -> (c: Srgb)
    ensures
        c == (Srgb { r: 232, g: 96, b: 48 }),
{
    rgb(232, 96, 48)
}

/// The active pivot (quick sort) or running minimum (selection): magenta.
pub fn pivot() -> (c: Srgb)
    ensures
        c == (Srgb { r: 186, g: 96, b: 232 }),
{
    rgb(186, 96, 232)
}

/// Finalized elements that are in their sorted position: green.
pub fn sorted() -> (c: Srgb)
    ensures
        c == (Srgb { r: 72, g: 200, b: 120 }),
{
    rgb(72, 200, 120)
}

/// Scene clear color: near-black dark navy.
pub fn background() -> (c: Srgb)
    ensures
        c == (Srgb { r: 10, g: 12, b: 20 }),
{
    rgb(10, 12, 20)
}

} // verus!
