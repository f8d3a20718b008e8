//! Ranges of Go string literals.
use crate::python::spans::{sat_add, sat_sub};
use crate::syntax::{node_wf, SyntaxTree};
use crate::text::utf8;
use crate::types::{Span, SpanShape};
use vstd::prelude::*;

verus! {

/// The span shape of a Go string over the bytes `[start, end)`: interpreted
/// (`"..."`) and raw (`` `...` ``) strings both lose one delimiter on each side.
pub open spec fn go_string_shape(start: int, end: int) -> SpanShape {
    SpanShape {
        outer: Span { start: start as u32, end: end as u32 },
        inner: Span { start: sat_add(start, 1), end: sat_sub(end, 1) },
    }
}

/// Calculate outer and inner spans for a string-like node.
/// For Go, this handles interpreted strings ("...") and raw strings (`...`).
pub fn span_shape_string_like(tree: &SyntaxTree, node: usize, source: &str) -> (r: SpanShape)
    requires
        tree.wf(utf8(source@)),
        node < tree.nodes@.len(),
    ensures
        r == go_string_shape(tree.nodes@[node as int].start as int, tree.nodes@[node as int].end as int),
{
    proof {
        assert(node_wf(tree.nodes@, node as int, utf8(source@)));
    }
    let start = tree.nodes[node].start as u32;
    let end = tree.nodes[node].end as u32;
    let outer = Span { start, end };
    if tree.kind_is(node, "raw_string_literal") {
        let quote_len = 1u32;
        let inner = Span { start: start.saturating_add(quote_len), end: end.saturating_sub(quote_len) };
        return SpanShape { outer, inner };
    }
    let quote_len = 1u32;
    let inner = Span { start: start.saturating_add(quote_len), end: end.saturating_sub(quote_len) };
    SpanShape { outer, inner }
}

} // verus!
