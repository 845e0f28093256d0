//! A workflow resolution-and-execution engine.
//!
//! Automation logic is expressed as workflows: declarative trees of named
//! commands and nested sub-workflows. A workflow name is resolved against a
//! set of stored definitions into an executable tree; cycles are rejected and
//! repeated sub-workflow references are memoized. The resolved tree is
//! prepared into an ordered arena of leaf execution records, executed with
//! either strict-sequential (`Conditional`) or concurrent (`Parallel`)
//! semantics, and the results are reassembled in declared preorder regardless
//! of completion order.

pub mod ids;
pub mod json;
pub mod exec;
pub mod tasks;
pub mod tree_view;
pub mod workflow;
pub mod workflow_runner;
pub mod ws_event;
