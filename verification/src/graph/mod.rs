//! Links between notes and their resolution.

pub mod link_graph;
pub mod resolution;
