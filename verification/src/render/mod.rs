//! The inline style and script that accompany a rendered graph.
pub mod interactivity;
pub mod style;
