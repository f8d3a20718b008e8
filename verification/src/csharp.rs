//! Prompt detection pieces for C# sources.

pub mod spans;
