//! The host's pure parts: what input looks like once translated, the
//! presenter seam, the in-process clipboard, redraw pacing and frame timing
//! statistics.

pub mod keys;
pub mod input;
pub mod present;
pub mod clipboard;
pub mod platform;
pub mod pacing;
pub mod frame_log;
