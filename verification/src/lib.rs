//! Verified core of an HTML rendering accelerator: attribute and text
//! formatting, tag interning, and the render session that assembles output.

pub mod text;

pub mod format;
pub mod intern;
pub mod tag;
pub mod layout;
pub mod render;
