//! A word/line/byte/character counting library in the style of `wc`.
//!
//! The counting engine consumes a byte stream in chunks and tracks line,
//! word and byte counts in a single pass, with an optional character count
//! obtained by decoding each chunk as UTF-8. The rendering layer turns
//! per-file outcomes into aligned text rows with an optional total row.

pub mod args;
pub mod counter;
pub mod render;
pub mod strfmt;
pub mod utf8count;
