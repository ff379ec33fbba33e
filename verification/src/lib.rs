//! Structural metrics over an undirected graph of string-labelled nodes.

pub mod model;
pub mod ratio;
pub mod graph;
pub mod laws;
pub mod traversal;
pub mod utils;
