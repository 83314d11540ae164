//! A task-runner library: a dependency graph of named shell tasks with
//! topological planning, wave scheduling for parallel dispatch, and a
//! content-hash cache with marker files.

pub mod cache;
pub mod config;
pub mod executor;
pub mod graph;
