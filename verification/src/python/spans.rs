//! Ranges of Python string literals and of f-string interpolations.
use crate::syntax::{node_wf, SyntaxNode, SyntaxTree};
use crate::text::{range_string, range_text, text_eq, utf8, valid_range};
use crate::types::{var_models, PromptVar, Span, SpanShape, VarModel};
use vstd::prelude::*;

verus! {

/// Whether `c` is a quote character (`'` or `"`).
pub open spec fn is_quote(c: u8) -> bool {
    c == 39 || c == 34
}

/// Whether `c` is ASCII whitespace: space, tab, line feed, form feed or
/// carriage return.
pub open spec fn is_ascii_ws(c: u8) -> bool {
    c == 32 || c == 9 || c == 10 || c == 12 || c == 13
}

/// `u8::is_ascii_whitespace`.
pub fn ascii_ws(c: u8) -> (r: bool)
    ensures
        r == is_ascii_ws(c),
{
    c == 32 || c == 9 || c == 10 || c == 12 || c == 13
}

/// The first offset in `[i, end)` that holds a quote, or `i` when `i >= end`,
/// or `end` when there is none.
pub open spec fn first_quote(b: Seq<u8>, i: int, end: int) -> int
    decreases end - i,
{
    if i >= end {
        i
    } else if is_quote(b[i]) {
        i
    } else {
        first_quote(b, i + 1, end)
    }
}

/// `x + k` in `u32`, saturating at `u32::MAX`.
pub open spec fn sat_add(x: int, k: int) -> u32 {
    if x + k <= u32::MAX {
        (x + k) as u32
    } else {
        u32::MAX
    }
}

/// `x - k` in `u32`, saturating at 0.
pub open spec fn sat_sub(x: int, k: int) -> u32 {
    if x - k >= 0 {
        (x - k) as u32
    } else {
        0
    }
}

/// The span shape of a string literal over the bytes `[start, end)` whose
/// opening quote is at `q` (or `q == end` when there is none): the inner
/// range starts after the quote, whose length is 3 for a triple quote and 1
/// otherwise, and the same length is cut from the end.
pub open spec fn shape_from_quote(b: Seq<u8>, start: int, end: int, q: int) -> SpanShape {
    let qc = if q < end {
        b[q]
    } else {
        39u8
    };
    let ql = if q + 2 < end && b[q + 1] == qc && b[q + 2] == qc {
        3int
    } else {
        1int
    };
    SpanShape {
        outer: Span { start: start as u32, end: end as u32 },
        inner: Span { start: sat_add(q, ql), end: sat_sub(end, ql) },
    }
}

/// The span shape of a Python string literal over the bytes `[start, end)`:
/// the opening quote is the first quote character, after any prefix such as
/// `f`, `r` or `rb`.
pub open spec fn py_string_shape(b: Seq<u8>, start: int, end: int) -> SpanShape {
    shape_from_quote(b, start, end, first_quote(b, start, end))
}

proof fn lemma_first_quote_bounds(b: Seq<u8>, i: int, end: int)
    ensures
        i <= end ==> i <= first_quote(b, i, end) <= end,
        i > end ==> first_quote(b, i, end) == i,
    decreases end - i,
{
    if i < end && !is_quote(b[i]) {
        lemma_first_quote_bounds(b, i + 1, end);
    }
}

/// The span shape of bytes `[start, end)` read as a Python string literal.
pub fn string_shape_of_range(source: &str, start: usize, end: usize) -> (r: SpanShape)
    requires
        start <= end <= utf8(source@).len() <= u32::MAX,
    ensures
        r == py_string_shape(utf8(source@), start as int, end as int),
{
    let bytes = source.as_bytes();
    let mut i = start;
    while i < end && !(bytes[i] == 39 || bytes[i] == 34)
        invariant
            start <= i <= end,
            end <= bytes@.len(),
            bytes@ == utf8(source@),
            first_quote(bytes@, start as int, end as int) == first_quote(bytes@, i as int, end as int),
        decreases end - i,
    {
        i = i + 1;
    }
    shape_with_quote(source, start, end, i)
}

/// The span shape of bytes `[start, end)` whose opening quote is at `quote_pos`.
pub fn shape_with_quote(source: &str, start: usize, end: usize, quote_pos: usize) -> (r: SpanShape)
    requires
        start <= quote_pos <= end <= utf8(source@).len() <= u32::MAX,
    ensures
        r == shape_from_quote(utf8(source@), start as int, end as int, quote_pos as int),
{
    let bytes = source.as_bytes();
    let quote_char = if quote_pos < end {
        bytes[quote_pos]
    } else {
        39u8
    };
    let mut quote_len: u32 = 1;
    if quote_pos < end && end - quote_pos > 2 && bytes[quote_pos + 1] == quote_char && bytes[quote_pos
        + 2] == quote_char {
        quote_len = 3;
    }
    let outer = Span { start: start as u32, end: end as u32 };
    let inner = Span {
        start: (quote_pos as u32).saturating_add(quote_len),
        end: outer.end.saturating_sub(quote_len),
    };
    SpanShape { outer, inner }
}

/// Calculate outer and inner spans for Python string literals.
/// Handles string prefixes (f, r, u, fr, rf, etc.) and triple-quoted strings.
pub fn span_shape_string_like(tree: &SyntaxTree, node: usize, source: &str) -> (r: SpanShape)
    requires
        tree.wf(utf8(source@)),
        node < tree.nodes@.len(),
    ensures
        r == py_string_shape(
            utf8(source@),
            tree.nodes@[node as int].start as int,
            tree.nodes@[node as int].end as int,
        ),
{
    proof {
        assert(node_wf(tree.nodes@, node as int, utf8(source@)));
    }
    let n = &tree.nodes[node];
    string_shape_of_range(source, n.start, n.end)
}

/// The variable of an interpolation over the bytes `[s, e)`: its text is
/// the whole interpolation, braces included; the inner range excludes the
/// braces alone.
pub open spec fn interpolation_var(b: Seq<u8>, s: int, e: int) -> VarModel {
    VarModel {
        exp: range_text(b, s, e),
        span: SpanShape {
            outer: Span { start: s as u32, end: e as u32 },
            inner: Span { start: (s + 1) as u32, end: if e > 0 { (e - 1) as u32 } else { 0 } },
        },
    }
}

/// The variable of an interpolation node.
fn interpolation_var_exec(source: &str, s: usize, e: usize) -> (r: PromptVar)
    requires
        valid_range(utf8(source@), s as int, e as int),
        utf8(source@).len() < u32::MAX,
    ensures
        r@ == interpolation_var(utf8(source@), s as int, e as int),
{
    assert(s < u32::MAX);
    let exp = range_string(source, s, e);
    PromptVar {
        exp,
        span: SpanShape {
            outer: Span { start: s as u32, end: e as u32 },
            inner: Span { start: (s + 1) as u32, end: (e as u32).saturating_sub(1) },
        },
    }
}

/// The variables of the `interpolation` children of node `i`, from its
/// `j`-th child on, in order.
pub open spec fn fstring_vars(t: Seq<SyntaxNode>, i: int, b: Seq<u8>, j: int) -> Seq<VarModel>
    decreases t[i].children@.len() - j,
{
    if 0 <= j < t[i].children@.len() {
        let c = t[i].children@[j];
        let rest = fstring_vars(t, i, b, j + 1);
        if t[c as int].kind@ == "interpolation"@ {
            seq![interpolation_var(b, t[c as int].start as int, t[c as int].end as int)] + rest
        } else {
            rest
        }
    } else {
        seq![]
    }
}

/// Extract variables from f-string interpolations: one for each
/// `interpolation` child of the string node, in order.
pub fn extract_fstring_vars(tree: &SyntaxTree, node: usize, source: &str) -> (r: Vec<PromptVar>)
    requires
        tree.wf(utf8(source@)),
        node < tree.nodes@.len(),
    ensures
        var_models(r@) == fstring_vars(tree.nodes@, node as int, utf8(source@), 0),
{
    let ghost t = tree.nodes@;
    let ghost b = utf8(source@);
    let mut vars: Vec<PromptVar> = Vec::new();
    let n = tree.nodes[node].children.len();
    let mut j: usize = 0;
    while j < n
        invariant
            tree.wf(b),
            b == utf8(source@),
            t == tree.nodes@,
            node < t.len(),
            n == t[node as int].children@.len(),
            j <= n,
            var_models(vars@) + fstring_vars(t, node as int, b, j as int) == fstring_vars(t, node as int, b, 0),
        decreases n - j,
    {
        let c = tree.nodes[node].children[j];
        proof {
            assert(node_wf(t, node as int, b));
        }
        let ghost before = var_models(vars@);
        if text_eq(tree.nodes[c].kind.as_str(), "interpolation") {
            proof {
                assert(node_wf(t, c as int, b));
            }
            let v = interpolation_var_exec(source, tree.nodes[c].start, tree.nodes[c].end);
            vars.push(v);
        }
        assert(var_models(vars@) + fstring_vars(t, node as int, b, j + 1) =~= before + fstring_vars(t, node as int, b, j as int));
        j = j + 1;
    }
    assert(var_models(vars@) =~= var_models(vars@) + fstring_vars(t, node as int, b, n as int));
    vars
}

} // verus!
