//! Closeness and betweenness centrality on directed graphs.
//!
//! The graph is a `petgraph` directed graph whose nodes carry a name and whose
//! edges carry an integer label. Every edge counts as one hop, whatever its
//! label says.

pub mod graph;
pub mod paths;
pub mod closeness;
pub mod traversal;
pub mod counts;
pub mod ring;
pub mod betweenness;
