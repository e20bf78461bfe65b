//! Structural checks and descriptive statistics for a ledger whose
//! transactions form a directed acyclic graph hanging off a single root.

pub mod depth;
pub mod graph;
pub mod id;
pub mod ledger;
pub mod stats;
pub mod text;
pub mod transaction;
pub mod validate;
