//! A verified node-relationship engine: a per-workspace directed acyclic
//! graph of nodes linked by child-to-parent edges, with six atomic structural
//! operations (create, add, borrow, drop, take, delete) that preserve the
//! graph invariants: acyclicity, workspace isolation, a single root per
//! workspace, no dangling edges, and no orphaned non-root nodes.

pub mod api;
pub mod graph;
pub mod laws;
pub mod ops;
pub mod reach;
pub mod traverse;
pub mod workspace;
