//! A line index over a text: byte offsets, character offsets and line numbers.

pub mod encoding;
pub mod index;
pub mod indexed;
pub mod laws;
pub mod lines;
pub mod range;
pub mod scan;
pub mod spans;

pub use index::Index;
pub use indexed::IndexedString;
pub use range::Range;
