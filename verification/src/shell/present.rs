//! The presenter seam: how a finished pixel buffer reaches the window.

use vstd::prelude::*;
use crate::raster::painter::WindowBuffer;

verus! {

/// Why a frame could not be presented.
#[derive(Debug)]
pub enum PresentError {
    /// The platform surface refused; the message is the backend's.
    Backend(String),
    /// A zero-sized window; nothing to present to.
    InvalidSize,
}

impl PresentError {
    /// A sentence describing the error.
    pub fn message(&self) -> (result: String)
        ensures
            result@ == match self {
                PresentError::Backend(detail) => "presenter backend failed: "@ + detail@,
                PresentError::InvalidSize => "invalid surface size"@,
            },
    {
        match self {
            PresentError::Backend(detail) => {
                let mut text = "presenter backend failed: ".to_owned();
                text.append(detail.as_str());
                text
            },
            PresentError::InvalidSize => "invalid surface size".to_owned(),
        }
    }
}

/// Which kind of presenter is in use.
#[derive(Debug, Clone, Copy, PartialEq, Eq, Structural)]
pub enum PresenterBackend {
    Software,
    Gpu,
}

/// What copies a finished buffer onto the window; the host's backends
/// implement it.
pub trait Presenter {
    /// The surface now has this physical size.
    fn resize(&mut self, width: u32, height: u32) -> Result<(), PresentError>;
    /// Copy the whole buffer to the window.
    fn present(&mut self, buffer: &WindowBuffer) -> Result<(), PresentError>;
    /// Which backend this is.
    fn backend(&self) -> PresenterBackend;
}

} // verus!
