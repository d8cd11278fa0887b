//! Construction and validation of observational graphs, and the markdown
//! fence handling of the mdbook preprocessor.
pub mod ast;
pub mod book;
pub mod error;
pub mod install;
pub mod markdown;
pub mod model;
pub mod render;
pub mod text;
