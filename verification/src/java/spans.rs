//! Ranges of Java string literals and text blocks.
use crate::python::spans::{sat_add, sat_sub};
use crate::syntax::{node_wf, SyntaxTree};
use crate::text::{bytes_at, find_byte, find_byte_exec, occurs_at, utf8};
use crate::types::{Span, SpanShape};
use vstd::prelude::*;

verus! {

/// The bytes of `"""`.
pub open spec fn triple_quote() -> Seq<u8> {
    seq![34u8, 34u8, 34u8]
}

/// Information about text block incidental whitespace stripping
#[derive(Debug, Clone, PartialEq, Eq)]
pub struct TextBlockInfo {
    /// Whether this text block strips whitespace (all text blocks do in Java 15+)
    pub strips_whitespace: bool,
    /// The body content range
    pub body_start: u32,
    pub body_end: u32,
}

/// The span shape of a Java string over the bytes `[start, end)` of `b`: a
/// `string_literal` that opens with `"""` is a text block and loses the
/// opening `"""` and, when present, the closing one; other strings lose one
/// quote on each side.
pub open spec fn java_string_shape(b: Seq<u8>, kind: Seq<char>, start: int, end: int) -> SpanShape {
    let outer = Span { start: start as u32, end: end as u32 };
    if kind == "string_literal"@ && start + 3 <= b.len() && occurs_at(b, triple_quote(), start) {
        let inner_end = if end >= 3 && occurs_at(b, triple_quote(), end - 3) {
            end - 3
        } else {
            end
        };
        SpanShape { outer, inner: Span { start: (start + 3) as u32, end: inner_end as u32 } }
    } else {
        SpanShape { outer, inner: Span { start: sat_add(start, 1), end: sat_sub(end, 1) } }
    }
}

/// Calculate outer and inner spans for a string-like node.
/// For Java, this handles string literals and text blocks (Java 15+).
pub fn span_shape_string_like(tree: &SyntaxTree, node: usize, source: &str) -> (r: SpanShape)
    requires
        tree.wf(utf8(source@)),
        node < tree.nodes@.len(),
    ensures
        r == java_string_shape(
            utf8(source@),
            tree.nodes@[node as int].kind@,
            tree.nodes@[node as int].start as int,
            tree.nodes@[node as int].end as int,
        ),
{
    proof {
        assert(node_wf(tree.nodes@, node as int, utf8(source@)));
    }
    let bytes = source.as_bytes();
    let start = tree.nodes[node].start;
    let end = tree.nodes[node].end;
    let outer = Span { start: start as u32, end: end as u32 };
    let tq: [u8; 3] = [34u8, 34u8, 34u8];
    assert(tq@ =~= triple_quote());
    if tree.kind_is(node, "string_literal") && start <= bytes.len() && 3 <= bytes.len() - start && bytes_at(bytes, start, tq.as_slice()) {
        let inner_start = (start as u32) + 3;
        let mut inner_end = end as u32;
        if end >= 3 && bytes_at(bytes, end - 3, tq.as_slice()) {
            inner_end = (end as u32) - 3;
        }
        return SpanShape { outer, inner: Span { start: inner_start, end: inner_end } };
    }
    let quote_len = 1u32;
    let inner = Span { start: (start as u32).saturating_add(quote_len), end: (end as u32).saturating_sub(quote_len) };
    SpanShape { outer, inner }
}

/// The last offset `p <= from` in `[0, ...)` where `needle` occurs in `hay`.
pub open spec fn rfind_upto(hay: Seq<u8>, needle: Seq<u8>, from: int) -> Option<int>
    decreases from + 1,
{
    if from < 0 {
        None
    } else if occurs_at(hay, needle, from) {
        Some(from)
    } else {
        rfind_upto(hay, needle, from - 1)
    }
}

/// What `rfind_upto` finds lies at or before `from` and holds `needle`.
proof fn lemma_rfind_upto_found(hay: Seq<u8>, needle: Seq<u8>, from: int)
    ensures
        rfind_upto(hay, needle, from) matches Some(p) ==> 0 <= p <= from && occurs_at(hay, needle, p),
    decreases from + 1,
{
    if from >= 0 && !occurs_at(hay, needle, from) {
        lemma_rfind_upto_found(hay, needle, from - 1);
    }
}

/// The text-block layout of a node over the bytes `t` (its text) starting
/// at offset `start`: `None` unless the text opens with `"""`, has a line
/// break, and has a closing `"""` after the opening one. The body starts
/// after the first line break and ends after the last line break before the
/// closing `"""` (or at it, without such a line break).
pub open spec fn spec_text_block_info(t: Seq<u8>, start: int) -> Option<TextBlockInfo> {
    if !crate::text::starts_with(t, triple_quote()) {
        None
    } else {
        match find_byte(t, 10u8, 0) {
            None => None,
            Some(nl) => match rfind_upto(t, triple_quote(), t.len() - 3) {
                None => None,
                Some(cp) => if cp < 3 {
                    None
                } else {
                    let body_end = match rfind_upto(t.subrange(0, cp), seq![10u8], cp - 1) {
                        Some(p) => start + p + 1,
                        None => start + cp,
                    };
                    Some(TextBlockInfo { strips_whitespace: true, body_start: (start + nl + 1) as u32, body_end: body_end as u32 })
                },
            },
        }
    }
}

/// The last offset `p <= from` where `needle` occurs in `b[..end]`.
fn rfind_exec(b: &[u8], end: usize, needle: &[u8], from: usize) -> (r: Option<usize>)
    requires
        end <= b@.len(),
    ensures
        r matches Some(p) ==> rfind_upto(b@.subrange(0, end as int), needle@, from as int) == Some(p as int)
            && p <= from && p + needle@.len() <= end,
        r is None ==> rfind_upto(b@.subrange(0, end as int), needle@, from as int) is None,
{
    let ghost h = b@.subrange(0, end as int);
    let mut i = from;
    loop
        invariant
            i <= from,
            end <= b@.len(),
            h == b@.subrange(0, end as int),
            rfind_upto(h, needle@, from as int) == rfind_upto(h, needle@, i as int),
        decreases i,
    {
        let hit = if i <= end && needle.len() <= end - i {
            bytes_at(b, i, needle)
        } else {
            false
        };
        proof {
            if i <= end && needle@.len() <= end - i {
                assert(b@.subrange(i as int, i + needle@.len()) =~= h.subrange(i as int, i + needle@.len()));
            }
        }
        if hit {
            proof {
                lemma_rfind_upto_found(h, needle@, i as int);
            }
            return Some(i);
        }
        if i == 0 {
            assert(rfind_upto(h, needle@, -1) is None);
            return None;
        }
        i = i - 1;
    }
}

/// Detect if this is a text block and get its info
pub fn get_text_block_info(tree: &SyntaxTree, node: usize, source: &str) -> (r: Option<TextBlockInfo>)
    requires
        tree.wf(utf8(source@)),
        node < tree.nodes@.len(),
    ensures
        r == spec_text_block_info(
            utf8(source@).subrange(tree.nodes@[node as int].start as int, tree.nodes@[node as int].end as int),
            tree.nodes@[node as int].start as int,
        ),
{
    proof {
        assert(node_wf(tree.nodes@, node as int, utf8(source@)));
    }
    let bytes = source.as_bytes();
    let start = tree.nodes[node].start;
    let end = tree.nodes[node].end;
    let ghost t = bytes@.subrange(start as int, end as int);
    let text: &[u8] = crate::text::byte_range(bytes, start, end);
    let tq: [u8; 3] = [34u8, 34u8, 34u8];
    assert(tq@ =~= triple_quote());
    if !crate::text::bytes_starts_with(text, tq.as_slice()) {
        return None;
    }
    assert(text@.subrange(0, text@.len() as int) =~= text@);
    let first_newline = match find_byte_exec(text, text.len(), 10u8, 0) {
        Some(p) => p,
        None => {
            return None;
        },
    };
    let closing_pos = match rfind_exec(text, text.len(), tq.as_slice(), text.len() - 3) {
        Some(p) => p,
        None => {
            return None;
        },
    };
    if closing_pos < 3 {
        return None;
    }
    let nl: [u8; 1] = [10u8];
    assert(nl@ =~= seq![10u8]);
    let body_end = match rfind_exec(text, closing_pos, nl.as_slice(), closing_pos - 1) {
        Some(p) => start + p + 1,
        None => start + closing_pos,
    };
    Some(TextBlockInfo { strips_whitespace: true, body_start: (start + first_newline + 1) as u32, body_end: body_end as u32 })
}

} // verus!
