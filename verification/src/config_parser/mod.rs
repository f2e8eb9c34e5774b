//! The syntax tree, tokens and errors of the configuration language.

pub mod ast;
pub mod error;
pub mod token;
