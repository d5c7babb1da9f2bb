//! Renders a labeled tree as a `digraph` document: one label statement per
//! node, one edge statement per parent and child, ids handed out in
//! depth-first pre-order.

pub mod dot;
pub mod laws;
pub mod text;
pub mod tree;

pub use tree::Tree;
