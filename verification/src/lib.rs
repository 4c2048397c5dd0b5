//! Line digit extraction: find the first and last decimal digit on each line
//! of a text, either as a literal character or (in the word-aware variant)
//! spelled out as one of the English words `one` through `nine`, combine
//! them into a two-digit number, and sum those numbers over all non-empty
//! lines.

pub mod extract;
pub mod laws;
pub mod model;
pub mod pipeline;
