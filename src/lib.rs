//! Tools to report on and fix whitespace conventions in UTF-8 text.
//!
//! [`ender`] counts and rewrites line endings (CR, LF, CR LF); [`spacer`] counts and
//! rewrites the leading whitespace of lines (spaces, tabs, or a mix of both).
//! Both read UTF-8 bytes through [`utf8`] and write UTF-8 bytes.

pub mod ender;
pub mod spacer;
pub mod utf8;

