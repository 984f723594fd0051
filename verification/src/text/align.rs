//! Horizontal alignment of a line of text within its box.

use vstd::prelude::*;

verus! {

/// Where a line sits within the width it is given.
#[derive(Debug, Clone, Copy, PartialEq, Eq, Structural)]
pub enum Align {
    Left,
    Centre,
    Right,
}

} // verus!
