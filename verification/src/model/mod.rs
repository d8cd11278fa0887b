//! The graph model: its types, its construction from the syntax tree, its
//! validation, and what its adjacency indices hold.
pub mod adjacency;
pub mod graph;
pub mod sharing;
pub mod types;
pub mod validate;
