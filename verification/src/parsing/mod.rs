//! Reading pipeline definitions.
pub mod rules;
pub mod lexer;
pub mod selectors;
pub mod commands;
pub mod grammar;
