//! Turns grep/ag-style result lines (`path:line:col: text`) into a file path
//! and line number, and computes the display window handed to an external
//! pretty-printer such as `bat`.
//!
//! The parsing is the heart of the crate: the colon-delimited input may hold
//! colons of its own, both in a drive-letter path prefix and in the matched
//! text, and the parser has to attribute every fragment correctly before the
//! path can be reassembled.

pub mod parse;
pub mod window;
