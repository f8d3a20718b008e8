//! Prompt detection in PHP sources parsed with tree-sitter.

pub mod parser;
pub mod spans;
