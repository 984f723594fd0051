//! Immediate-mode widget state: keyboard focus, grid layout arithmetic,
//! scrolling, table selection and column widths, text entry, palettes and
//! the small style records widgets are drawn with.

pub mod focus;
pub mod layout;
pub mod widget;
pub mod text_field;
pub mod palette;
pub mod dropdown;
pub mod chrome;
pub mod tooltip;
pub mod list;
pub mod form;
