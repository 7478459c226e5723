//! Disk-usage attribution over a package-store dependency graph.

pub mod bytes;
pub mod depgraph;
pub mod graph;
pub mod graph_ops;
pub mod opt;
pub mod reach;
