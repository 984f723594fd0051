//! pixelkit: a software-rendered interface toolkit — pixel buffers and a
//! clip-stack painter, a PNG reader and writer, a TrueType/OpenType table
//! reader, immediate-mode widget state and the shell's pure bookkeeping.

pub mod digits;
pub mod raster;
pub mod text;
pub mod shell;
pub mod ui;
