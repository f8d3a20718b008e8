//! Prompt detection in Java sources parsed with tree-sitter.

pub mod parser;
pub mod spans;
