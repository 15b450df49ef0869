//! Materializes the history of a git repository into an in-memory model
//! suitable for visualization: for every local branch, the sequence of
//! commits from tip to root, and for every commit a diff tree describing
//! what it changed relative to its parent.

pub mod abstraction;
pub mod repo;
pub mod store;
