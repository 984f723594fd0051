//! The colours a flat, bordered text button is drawn with.

use vstd::prelude::*;

verus! {

/// How a text button looks at rest, hovered and active.
#[derive(Debug, Clone, Copy, PartialEq, Eq, Structural)]
pub struct ButtonStyle {
    pub text: u32,
    pub text_active: u32,
    pub fill: u32,
    pub fill_hover: u32,
    pub fill_active: u32,
    pub edge: u32,
    pub edge_active: u32,
    /// Logical corner radius; 0 for square.
    pub radius: i32,
}

} // verus!
