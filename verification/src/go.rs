//! Prompt detection in Go sources parsed with tree-sitter.

pub mod parser;
pub mod scope;
pub mod spans;
