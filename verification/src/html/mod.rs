//! The in-memory model of an HTML document.
pub mod attributes;
pub mod tree;
pub mod render;
pub mod matching;
pub mod query;
pub mod import;
