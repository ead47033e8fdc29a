//! Dependency-graph queries over a directed graph of tasks: deterministic
//! topological ordering, cycle detection, forward and backward reachability,
//! and blocking/actionability analysis against a caller-supplied completion
//! state.

pub mod graph;
pub mod reachability;
pub mod topo;
