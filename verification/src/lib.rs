//! Per-station temperature statistics over a `<station>;<temperature>`
//! delimited text buffer: splitting the buffer into record-aligned ranges,
//! aggregating each range, merging the partial results, and rendering a
//! sorted report.
//!
//! Temperatures are fixed-point values in tenths of a degree; no floating
//! point is used anywhere.

pub mod aggregate;
pub mod chunk;
pub mod lex;
pub mod merge;
pub mod parse;
pub mod pipeline;
pub mod report;
pub mod search;
pub mod stat;
pub mod table;
