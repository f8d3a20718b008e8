//! Prompt detection for Ruby sources.

pub mod parser;
pub mod spans;
