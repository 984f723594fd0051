//! Pixel buffers, the painter, coverage bitmaps and PNG.

pub mod bitmap;
pub mod color;
pub mod blend;
pub mod painter;
pub mod shapes;
pub mod kernel;
pub mod png;
