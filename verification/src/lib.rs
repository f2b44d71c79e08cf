//! Formatting of WPL (WarpLabs Parsing Language) rule files.
pub mod error;
pub mod formatter;
pub mod indentation;
pub mod laws;
pub mod lines;
pub mod scan;
pub mod text;
pub mod tree;
pub mod walk_laws;

pub use error::WplFormatError;
pub use formatter::{format_or_original, format_with_indent, WplFormatter};
