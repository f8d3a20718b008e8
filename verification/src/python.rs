//! Prompt detection in Python sources: over a tree-sitter syntax tree, and
//! over a module held as plain statements and expressions.

pub mod ast;
pub mod parser;
pub mod scope;
pub mod spans;
pub mod visitor;
