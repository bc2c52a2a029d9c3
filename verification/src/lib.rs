//! Line statistics for source trees.
//!
//! The library classifies every line of a source file as code, blank or
//! comment, decides which files of a directory tree are scanned, and merges
//! the per-file tallies into one tally per language. Reading directories and
//! files, and running the scans in parallel, is left to the caller: the
//! library takes what was read as plain values and says what follows from it.

pub mod config;
pub mod parser;
pub mod process;
pub mod text;
pub mod walker;
