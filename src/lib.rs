//! Byte totals of a directory tree, grouped by file extension.
//!
//! `label` derives the extension label of a path, `tally` accumulates
//! byte counts per label, `scan` drives a depth-first traversal whose
//! directory listings are supplied by the caller, and `percent` computes
//! the rounded share of each label in the total.

pub mod label;
pub mod tally;
pub mod scan;
pub mod percent;
