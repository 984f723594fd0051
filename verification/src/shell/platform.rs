//! Platform seams that need no binding.

use vstd::prelude::*;

verus! {

/// The system's accent colour as `[r, g, b]`, or `None` when it is unknown;
/// this build resolves none, and the application falls back to its theme's
/// accent rather than a made-up colour.
pub fn system_accent() -> (result: Option<[u8; 3]>)
    ensures
        result is None,
{
    None
}

} // verus!
