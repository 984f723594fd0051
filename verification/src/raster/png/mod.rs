//! PNG in and out: a stored-block writer for headless screenshots and a
//! decoder for the 8-bit images an icon theme ships.

pub mod checksum;
pub mod bytes;
pub mod encode;
pub mod filter;
pub mod inflate;
pub mod decode;
pub mod roundtrip;
pub mod interlace;
