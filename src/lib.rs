//! A total order on version identifiers: versions are sequences of numeric
//! and textual segments, compared segment by segment, with trailing zero or
//! empty segments ignored.

pub mod segment;
pub mod version;
pub mod laws;
pub mod sort;
