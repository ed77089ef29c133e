//! Splitting a commit along user-specified line ranges.
//!
//! The library has three layers: parsing and validating `path:start-end`
//! range specifications, partitioning a file's content into the selected
//! lines and their complement, and planning the pair of commits that
//! together replace the commit being split.

pub mod lines;
pub mod partition;
pub mod range;
pub mod split;
