//! Cumulative storage used by each path across the whole history of a git
//! repository.
//!
//! The library holds the logic of the tool: the parsing of the two streams
//! that git produces (`rev-list --objects` and `cat-file --batch-check`),
//! the last-write-wins tables built from them, the per-path or
//! per-directory aggregation, and the ordered, rendered report. Running git
//! and feeding it is left to the caller.
use vstd::prelude::*;

pub mod aggregate;
pub mod index;
pub mod objects;
pub mod pipeline;
pub mod report;
pub mod sizes;
pub mod table;
pub mod text;

verus! {

/// Command-line options of the tool.
pub struct Opt {
    /// Sum sizes per parent directory instead of per file.
    pub directories: bool,
    /// Path filters handed to the history walk; empty means every path.
    pub paths: Vec<String>,
}

} // verus!
