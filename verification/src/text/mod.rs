//! TrueType table reading: the SFNT directory, metrics, the character map,
//! horizontal metrics, glyph locations, the OpenType layout tables' lookup
//! lists and GDEF classes, and font faces with their fallback chains.

pub mod sfnt;
pub mod layout;
pub mod substitute;
pub mod position;
pub mod glyph;
pub mod utf8;
pub mod font;
pub mod align;
pub mod budget;
pub mod wrap;
