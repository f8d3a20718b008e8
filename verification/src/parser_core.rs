//! The interface shared by the language parsers.
use crate::types::ParseResult;
use vstd::prelude::*;

verus! {

/// A prompt parser for one language: finds the prompts of a source file.
pub trait VolumenParser {
    /// Parses `source`, read from `filename`, and returns its prompts or
    /// the reason none could be found.
    fn parse(source: &str, filename: &str) -> ParseResult;
}

} // verus!
