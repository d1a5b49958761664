//! Incremental analyzer for a continuous-integration matrix project.
//!
//! The crate mirrors every run of a CI job hierarchy into a relational
//! cache, classifies failure evidence with a catalog of regular-expression
//! tags, clusters textually similar findings by normalized edit distance,
//! and compiles a small predicate language into run-selection queries.
//! All cache text is kept as raw bytes so that findings can be stored as
//! byte ranges into the originating blob.

use vstd::prelude::*;

pub mod api;
pub mod config;
pub mod db;
pub mod page;
pub mod parse;
pub mod similarity;
pub mod tag_expr;

verus! {

} // verus!
