//! Ranges of PHP string literals, heredocs and nowdocs, and of variables
//! interpolated into strings.
use crate::python::spans::{sat_add, sat_sub};
use crate::syntax::{children_precede, node_wf, SyntaxNode, SyntaxTree};
use crate::text::{
    chars_eq, find_byte, find_byte_exec, first_char, first_non_ws, first_non_ws_exec, is_whitespace,
    lemma_ascii_boundaries, lemma_find_byte_found, range_string, range_text, substr, trailing_ws_start,
    trailing_ws_start_exec, whitespace, utf8, valid_range,
};
use crate::types::{var_models, PromptVar, Span, SpanShape, VarModel};
use vstd::prelude::*;
use vstd::string::StrSliceExecFns;

verus! {

/// Information about heredoc whitespace stripping behavior for PHP
#[derive(Debug, Clone, Copy, PartialEq, Eq)]
pub struct HeredocInfo {
    /// Whether this heredoc strips whitespace (flexible heredoc - PHP 7.3+)
    pub strips_whitespace: bool,
    /// The body content range (starts after opening marker's newline)
    pub body_start: u32,
    pub body_end: u32,
}

/// The first index at or after `i` where `t` holds `<<<`.
pub open spec fn first_triple_lt(t: Seq<char>, i: int) -> Option<int>
    decreases t.len() - i,
{
    if i < 0 || i + 2 >= t.len() {
        None
    } else if t[i] == '<' && t[i + 1] == '<' && t[i + 2] == '<' {
        Some(i)
    } else {
        first_triple_lt(t, i + 1)
    }
}

/// The first index at or after `i` where `t` holds whitespace or `;`, or `t.len()`.
pub open spec fn first_ws_or_semicolon(t: Seq<char>, i: int) -> int
    decreases t.len() - i,
{
    if i < 0 || i >= t.len() {
        t.len() as int
    } else if whitespace(t[i]) || t[i] == ';' {
        i
    } else {
        first_ws_or_semicolon(t, i + 1)
    }
}

/// The label of a heredoc or nowdoc text `t`, as a character range of `t`:
/// after the first `<<<` and any whitespace, either the text up to the
/// matching quote when the label is quoted, or the text up to the first
/// whitespace or `;`. `None` when nothing follows the `<<<`.
pub open spec fn heredoc_label_range(t: Seq<char>) -> Option<(int, int)> {
    match first_triple_lt(t, 0) {
        None => None,
        Some(p) => {
            let ls = first_non_ws(t, p + 3);
            if ls >= t.len() {
                None
            } else if t[ls] == '\'' || t[ls] == '"' {
                Some((ls + 1, first_char(t, t[ls], ls + 1)))
            } else {
                Some((ls, first_ws_or_semicolon(t, ls)))
            }
        },
    }
}

/// `t` without trailing whitespace.
pub open spec fn trim_end_ws(t: Seq<char>) -> Seq<char> {
    t.subrange(0, trailing_ws_start(t, t.len() as int))
}

/// `t` without leading whitespace.
pub open spec fn trim_start_ws(t: Seq<char>) -> Seq<char> {
    t.subrange(first_non_ws(t, 0), t.len() as int)
}

/// The end of the line that starts at `cur`: its line break, or `b.len()`.
pub open spec fn line_end(b: Seq<u8>, cur: int) -> int {
    match find_byte(b, 10u8, cur) {
        Some(p) => p,
        None => b.len() as int,
    }
}

/// Whether a line, trimmed at the end (and at the start too when `strip`),
/// is `label` or `label;`.
pub open spec fn is_closing_line(line: Seq<char>, label: Seq<char>, strip: bool) -> bool {
    let x = if strip {
        trim_start_ws(trim_end_ws(line))
    } else {
        trim_end_ws(line)
    };
    x == label || x == label.push(';')
}

/// The start of the first line, from the one starting at `cur` on, that
/// closes a heredoc labelled `label`; lines are split at every line break,
/// so text that ends in a line break has a last, empty line.
pub open spec fn closing_line(b: Seq<u8>, cur: int, label: Seq<char>, strip: bool) -> Option<int>
    decreases b.len() + 1 - cur,
{
    if cur < 0 || cur > b.len() {
        None
    } else {
        proof {
            lemma_find_byte_found(b, 10u8, cur);
        }
        let le = line_end(b, cur);
        if is_closing_line(range_text(b, cur, le), label, strip) {
            Some(cur)
        } else if le >= b.len() {
            None
        } else {
            closing_line(b, le + 1, label, strip)
        }
    }
}

/// The heredoc layout of the text `[start, end)` of `b`: its label, and the
/// start of its body after the first line break of the text.
pub open spec fn heredoc_layout(b: Seq<u8>, start: int, end: int) -> Option<(Seq<char>, int)> {
    let t = range_text(b, start, end);
    match heredoc_label_range(t) {
        None => None,
        Some(r) => match find_byte(b.subrange(0, end), 10u8, start) {
            None => None,
            Some(nl) => Some((t.subrange(r.0, r.1), nl + 1)),
        },
    }
}

/// The span shape of a heredoc or nowdoc over `[start, end)`: the inner range
/// runs from after the opener's line break to the closing line (or to the
/// end); without a label or a line break, both ranges are the node's.
pub open spec fn heredoc_shape(b: Seq<u8>, start: int, end: int) -> SpanShape {
    let outer = Span { start: start as u32, end: end as u32 };
    match heredoc_layout(b, start, end) {
        None => SpanShape { outer, inner: outer },
        Some(l) => {
            let body_end = match closing_line(b, l.1, l.0, false) {
                Some(p) => p,
                None => end,
            };
            SpanShape { outer, inner: Span { start: l.1 as u32, end: body_end as u32 } }
        },
    }
}

/// The span shape of PHP string node `i`: heredocs and nowdocs as
/// `heredoc_shape` gives it, a `heredoc_body` as its own range, other
/// strings without one quote on each side.
pub open spec fn php_string_shape(t: Seq<SyntaxNode>, i: int, b: Seq<u8>) -> SpanShape {
    let start = t[i].start as int;
    let end = t[i].end as int;
    let outer = Span { start: start as u32, end: end as u32 };
    let kind = t[i].kind@;
    if kind == "heredoc"@ || kind == "nowdoc"@ {
        heredoc_shape(b, start, end)
    } else if kind == "heredoc_body"@ {
        SpanShape { outer, inner: outer }
    } else {
        SpanShape { outer, inner: Span { start: sat_add(start, 1), end: sat_sub(end, 1) } }
    }
}

/// The heredoc information of node `i`: for a heredoc or nowdoc with a label
/// and a line break, its body range, ending at the line whose trimmed text
/// is the label (or at the node's end), and whether that line is indented.
pub open spec fn spec_heredoc_info(t: Seq<SyntaxNode>, i: int, b: Seq<u8>) -> Option<HeredocInfo> {
    let start = t[i].start as int;
    let end = t[i].end as int;
    if t[i].kind@ != "heredoc"@ && t[i].kind@ != "nowdoc"@ {
        None
    } else {
        match heredoc_layout(b, start, end) {
            None => None,
            Some(l) => {
                let (body_end, strips) = match closing_line(b, l.1, l.0, true) {
                    Some(p) => (p, first_non_ws(trim_end_ws(range_text(b, p, line_end(b, p))), 0) > 0),
                    None => (end, false),
                };
                Some(HeredocInfo { strips_whitespace: strips, body_start: l.1 as u32, body_end: body_end as u32 })
            },
        }
    }
}

/// The label range of the heredoc text `s`.
fn heredoc_label_range_exec(s: &str) -> (r: Option<(usize, usize)>)
    ensures
        r matches Some(p) ==> heredoc_label_range(s@) == Some((p.0 as int, p.1 as int)) && p.0 <= p.1 <= s@.len(),
        r is None ==> heredoc_label_range(s@) is None,
{
    let ghost t = s@;
    let n = s.unicode_len();
    let mut i: usize = 0;
    while n > 2 && i < n - 2 && !(s.get_char(i) == '<' && s.get_char(i + 1) == '<' && s.get_char(i + 2) == '<')
        invariant
            n == t.len(),
            t == s@,
            i <= n,
            first_triple_lt(t, 0) == first_triple_lt(t, i as int),
        decreases n - i,
    {
        i = i + 1;
    }
    if !(n > 2 && i < n - 2) {
        return None;
    }
    let ls = first_non_ws_exec(s, i + 3);
    if ls >= n {
        return None;
    }
    let first = s.get_char(ls);
    if first == '\'' || first == '"' {
        let mut q = ls + 1;
        while q < n && s.get_char(q) != first
            invariant
                ls + 1 <= q <= n,
                n == t.len(),
                t == s@,
                first_char(t, first, ls + 1) == first_char(t, first, q as int),
            decreases n - q,
        {
            q = q + 1;
        }
        Some((ls + 1, q))
    } else {
        let mut q = ls;
        while q < n && !(is_whitespace(s.get_char(q)) || s.get_char(q) == ';')
            invariant
                ls <= q <= n,
                n == t.len(),
                t == s@,
                first_ws_or_semicolon(t, ls as int) == first_ws_or_semicolon(t, q as int),
            decreases n - q,
        {
            q = q + 1;
        }
        Some((ls, q))
    }
}

/// Whether `line` closes a heredoc whose label is the characters `[a, e)` of
/// `lab`, and the position of the first character of its end-trimmed text
/// that is not whitespace.
fn closing_line_check(line: &str, lab: &str, a: usize, e: usize, strip: bool) -> (r: (bool, usize))
    requires
        a <= e <= lab@.len(),
    ensures
        r.0 == is_closing_line(line@, lab@.subrange(a as int, e as int), strip),
        r.1 == first_non_ws(trim_end_ws(line@), 0),
{
    let ghost t = line@;
    let hi = trailing_ws_start_exec(line);
    let ghost te = trim_end_ws(t);
    let lo = first_non_ws_prefix(line, hi);
    let xa = if strip {
        lo
    } else {
        0
    };
    proof {
        if strip {
            assert(trim_start_ws(te) =~= t.subrange(lo as int, hi as int));
        } else {
            assert(te =~= t.subrange(0, hi as int));
        }
    }
    let plain = chars_eq(line, xa, hi, lab, a, e);
    if plain {
        return (true, lo);
    }
    let semi = hi > xa && line.get_char(hi - 1) == ';' && chars_eq(line, xa, hi - 1, lab, a, e);
    proof {
        let x = t.subrange(xa as int, hi as int);
        let l = lab@.subrange(a as int, e as int);
        if semi {
            assert(x =~= t.subrange(xa as int, hi - 1).push(';'));
        } else if x == l.push(';') {
            assert(x[x.len() - 1] == ';');
            assert(t.subrange(xa as int, hi - 1) =~= x.drop_last());
            assert(l.push(';').drop_last() =~= l);
        }
    }
    (semi, lo)
}

/// The first position in the characters `[0, hi)` of `s` that holds no
/// whitespace, or `hi`, where `hi` is where trailing whitespace starts.
fn first_non_ws_prefix(s: &str, hi: usize) -> (r: usize)
    requires
        hi == trailing_ws_start(s@, s@.len() as int),
        hi <= s@.len(),
    ensures
        r == first_non_ws(trim_end_ws(s@), 0),
        r <= hi,
{
    let ghost te = trim_end_ws(s@);
    let mut k: usize = 0;
    while k < hi && is_whitespace(s.get_char(k))
        invariant
            k <= hi,
            hi <= s@.len(),
            te == s@.subrange(0, hi as int),
            first_non_ws(te, 0) == first_non_ws(te, k as int),
        decreases hi - k,
    {
        k = k + 1;
    }
    k
}

/// The start of the first line from `cur0` on that closes a heredoc whose
/// label is the characters `[a, e)` of `lab`, with the indentation position
/// of that line.
fn closing_line_exec(source: &str, cur0: usize, lab: &str, a: usize, e: usize, strip: bool) -> (r: (
    Option<usize>,
    usize,
))
    requires
        cur0 <= utf8(source@).len(),
        vstd::utf8::is_char_boundary(utf8(source@), cur0 as int),
        a <= e <= lab@.len(),
    ensures
        r.0 matches Some(p) ==> closing_line(utf8(source@), cur0 as int, lab@.subrange(a as int, e as int), strip) == Some(
            p as int,
        ) && r.1 == first_non_ws(
            trim_end_ws(range_text(utf8(source@), p as int, line_end(utf8(source@), p as int))),
            0,
        ) && p <= utf8(source@).len(),
        r.0 is None ==> closing_line(utf8(source@), cur0 as int, lab@.subrange(a as int, e as int), strip) is None,
{
    let ghost b = utf8(source@);
    let ghost label = lab@.subrange(a as int, e as int);
    proof {
        vstd::utf8::encode_utf8_valid_utf8(source@);
        vstd::utf8::is_char_boundary_start_end_of_seq(b);
    }
    let bytes = source.as_bytes();
    assert(bytes@.subrange(0, bytes@.len() as int) =~= bytes@);
    let mut cur = cur0;
    loop
        invariant
            b == utf8(source@),
            b == bytes@,
            bytes@.subrange(0, bytes@.len() as int) == bytes@,
            vstd::utf8::valid_utf8(b),
            vstd::utf8::is_char_boundary(b, b.len() as int),
            cur0 <= cur <= b.len(),
            vstd::utf8::is_char_boundary(b, cur as int),
            a <= e <= lab@.len(),
            label == lab@.subrange(a as int, e as int),
            closing_line(b, cur0 as int, label, strip) == closing_line(b, cur as int, label, strip),
        decreases b.len() + 1 - cur,
    {
        let le = match find_byte_exec(bytes, bytes.len(), 10u8, cur) {
            Some(p) => p,
            None => bytes.len(),
        };
        proof {
            lemma_find_byte_found(b, 10u8, cur as int);
            if le < b.len() {
                lemma_ascii_boundaries(b, le as int);
            }
        }
        let line = substr(source, cur, le);
        let (closes, lo) = closing_line_check(line, lab, a, e, strip);
        if closes {
            return (Some(cur), lo);
        }
        if le >= bytes.len() {
            return (None, 0);
        }
        cur = le + 1;
    }
}

/// The label range (in the characters of the node's text) and body start
/// of the heredoc over `[start, end)`.
fn heredoc_layout_exec(source: &str, start: usize, end: usize) -> (r: Option<(usize, usize, usize)>)
    requires
        valid_range(utf8(source@), start as int, end as int),
    ensures
        r matches Some(x) ==> heredoc_layout(utf8(source@), start as int, end as int) == Some(
            (range_text(utf8(source@), start as int, end as int).subrange(x.0 as int, x.1 as int), x.2 as int),
        ) && x.0 <= x.1 <= range_text(utf8(source@), start as int, end as int).len() && x.2 <= end
            && vstd::utf8::is_char_boundary(utf8(source@), x.2 as int),
        r is None ==> heredoc_layout(utf8(source@), start as int, end as int) is None,
{
    let ghost b = utf8(source@);
    proof {
        vstd::utf8::encode_utf8_valid_utf8(source@);
    }
    let text = substr(source, start, end);
    let (la, le) = match heredoc_label_range_exec(text) {
        Some(p) => p,
        None => {
            return None;
        },
    };
    let bytes = source.as_bytes();
    let nl = match find_byte_exec(bytes, end, 10u8, start) {
        Some(p) => p,
        None => {
            return None;
        },
    };
    proof {
        lemma_find_byte_found(b.subrange(0, end as int), 10u8, start as int);
        assert(b.subrange(0, end as int)[nl as int] == b[nl as int]);
        lemma_ascii_boundaries(b, nl as int);
    }
    Some((la, le, nl + 1))
}

/// Calculate outer and inner spans for a string-like node.
/// For PHP, this handles single-quoted, double-quoted strings, and heredocs.
pub fn span_shape_string_like(tree: &SyntaxTree, node: usize, source: &str) -> (r: SpanShape)
    requires
        tree.wf(utf8(source@)),
        node < tree.nodes@.len(),
    ensures
        r == php_string_shape(tree.nodes@, node as int, utf8(source@)),
{
    let ghost t = tree.nodes@;
    let ghost b = utf8(source@);
    proof {
        assert(node_wf(t, node as int, b));
    }
    let start = tree.nodes[node].start;
    let end = tree.nodes[node].end;
    let outer = Span { start: start as u32, end: end as u32 };
    if tree.kind_is(node, "heredoc") || tree.kind_is(node, "nowdoc") {
        return parse_heredoc_span(source, start, end);
    }
    if tree.kind_is(node, "heredoc_body") {
        return SpanShape { outer, inner: outer };
    }
    let quote_len = 1u32;
    let inner = Span { start: (start as u32).saturating_add(quote_len), end: (end as u32).saturating_sub(quote_len) };
    SpanShape { outer, inner }
}

/// Parse PHP heredoc/nowdoc to get correct outer and inner spans
fn parse_heredoc_span(source: &str, start: usize, end: usize) -> (r: SpanShape)
    requires
        valid_range(utf8(source@), start as int, end as int),
        utf8(source@).len() < u32::MAX,
    ensures
        r == heredoc_shape(utf8(source@), start as int, end as int),
{
    let outer = Span { start: start as u32, end: end as u32 };
    match heredoc_layout_exec(source, start, end) {
        None => SpanShape { outer, inner: outer },
        Some((la, le, body_start)) => {
            let text = substr(source, start, end);
            let (found, _) = closing_line_exec(source, body_start, text, la, le, false);
            let body_end = match found {
                Some(p) => p,
                None => end,
            };
            SpanShape { outer, inner: Span { start: body_start as u32, end: body_end as u32 } }
        },
    }
}

/// Detect if this is a flexible heredoc (PHP 7.3+) and get its info
pub fn get_heredoc_info(tree: &SyntaxTree, node: usize, source: &str) -> (r: Option<HeredocInfo>)
    requires
        tree.wf(utf8(source@)),
        node < tree.nodes@.len(),
    ensures
        r == spec_heredoc_info(tree.nodes@, node as int, utf8(source@)),
{
    let ghost t = tree.nodes@;
    let ghost b = utf8(source@);
    proof {
        assert(node_wf(t, node as int, b));
    }
    if !tree.kind_is(node, "heredoc") && !tree.kind_is(node, "nowdoc") {
        return None;
    }
    let start = tree.nodes[node].start;
    let end = tree.nodes[node].end;
    match heredoc_layout_exec(source, start, end) {
        None => None,
        Some((la, le, body_start)) => {
            let text = substr(source, start, end);
            let (found, indent) = closing_line_exec(source, body_start, text, la, le, true);
            let (body_end, strips) = match found {
                Some(p) => (p, indent > 0),
                None => (end, false),
            };
            Some(HeredocInfo { strips_whitespace: strips, body_start: body_start as u32, body_end: body_end as u32 })
        },
    }
}

/// Whether a node kind names an interpolated variable.
pub open spec fn is_variable_kind(kind: Seq<char>) -> bool {
    kind == "simple_variable"@ || kind == "complex_variable"@ || kind == "variable_name"@
}

/// The variable over the bytes `[s, e)` of `b`: when `{` precedes it, the
/// outer range takes in that brace and a `}` right after it; the inner range
/// is the variable itself, and the text is the outer range's.
pub open spec fn braced_variable(b: Seq<u8>, s: int, e: int) -> VarModel {
    let braced = s > 0 && b[s - 1] == 123u8;
    let os = if braced {
        s - 1
    } else {
        s
    };
    let oe = if braced && e < b.len() && b[e] == 125u8 {
        e + 1
    } else {
        e
    };
    VarModel {
        exp: range_text(b, os, oe),
        span: SpanShape { outer: Span { start: os as u32, end: oe as u32 }, inner: Span { start: s as u32, end: e as u32 } },
    }
}

/// The variables of the subtree rooted at `i`, in pre-order; a variable's
/// own subtree is searched too.
pub open spec fn variables_in(t: Seq<SyntaxNode>, i: int, b: Seq<u8>) -> Seq<VarModel>
    decreases i, t[i].children@.len() + 1,
{
    if 0 <= i < t.len() {
        let own = if is_variable_kind(t[i].kind@) {
            seq![braced_variable(b, t[i].start as int, t[i].end as int)]
        } else {
            seq![]
        };
        own + variables_in_children(t, i, b, 0)
    } else {
        seq![]
    }
}

/// The variables of the subtrees of the children of `i`, from the `j`-th on.
pub open spec fn variables_in_children(t: Seq<SyntaxNode>, i: int, b: Seq<u8>, j: int) -> Seq<VarModel>
    decreases i, t[i].children@.len() - j,
{
    if 0 <= i < t.len() && 0 <= j < t[i].children@.len() {
        let c = t[i].children@[j] as int;
        if c < i {
            variables_in(t, c, b) + variables_in_children(t, i, b, j + 1)
        } else {
            variables_in_children(t, i, b, j + 1)
        }
    } else {
        seq![]
    }
}

fn walk_variables(tree: &SyntaxTree, node: usize, source: &str, vars: &mut Vec<PromptVar>)
    requires
        tree.wf(utf8(source@)),
        node < tree.nodes@.len(),
    ensures
        var_models(final(vars)@) == var_models(old(vars)@) + variables_in(tree.nodes@, node as int, utf8(source@)),
    decreases node,
{
    let ghost t = tree.nodes@;
    let ghost b = utf8(source@);
    proof {
        assert(node_wf(t, node as int, b));
        vstd::utf8::encode_utf8_valid_utf8(source@);
    }
    let ghost start_models = var_models(vars@);
    if tree.kind_is(node, "simple_variable") || tree.kind_is(node, "complex_variable") || tree.kind_is(node, "variable_name") {
        let bytes = source.as_bytes();
        let s = tree.nodes[node].start;
        let e = tree.nodes[node].end;
        let braced = s > 0 && bytes[s - 1] == 123u8;
        let os = if braced {
            s - 1
        } else {
            s
        };
        let oe = if braced && e < bytes.len() && bytes[e] == 125u8 {
            e + 1
        } else {
            e
        };
        proof {
            if braced {
                lemma_ascii_boundaries(b, s - 1);
            }
            if oe > e {
                lemma_ascii_boundaries(b, e as int);
            }
        }
        let exp = range_string(source, os, oe);
        vars.push(PromptVar {
            exp,
            span: SpanShape { outer: Span { start: os as u32, end: oe as u32 }, inner: Span { start: s as u32, end: e as u32 } },
        });
    }
    assert(var_models(vars@) + variables_in_children(t, node as int, b, 0) =~= start_models + variables_in(t, node as int, b));
    let n = tree.nodes[node].children.len();
    let mut j: usize = 0;
    while j < n
        invariant
            tree.wf(b),
            b == utf8(source@),
            t == tree.nodes@,
            node < t.len(),
            n == t[node as int].children@.len(),
            j <= n,
            forall|q: int| 0 <= q < n ==> #[trigger] t[node as int].children@[q] < node,
            var_models(vars@) + variables_in_children(t, node as int, b, j as int) == start_models + variables_in(t, node as int, b),
        decreases n - j,
    {
        let c = tree.nodes[node].children[j];
        assert(t[node as int].children@[j as int] < node);
        let ghost before = var_models(vars@);
        walk_variables(tree, c, source, vars);
        assert(var_models(vars@) + variables_in_children(t, node as int, b, j + 1) =~= before
            + variables_in_children(t, node as int, b, j as int));
        j = j + 1;
    }
    assert(var_models(vars@) =~= var_models(vars@) + variables_in_children(t, node as int, b, n as int));
}

/// Extract variables from interpolated string expressions (e.g., "Hello {$user}"):
/// one for each `simple_variable`, `complex_variable` or `variable_name` node
/// under `node`, in pre-order.
pub fn extract_interpolation_vars(tree: &SyntaxTree, node: usize, source: &str) -> (r: Vec<PromptVar>)
    requires
        tree.wf(utf8(source@)),
        node < tree.nodes@.len(),
    ensures
        var_models(r@) == variables_in(tree.nodes@, node as int, utf8(source@)),
{
    let mut vars: Vec<PromptVar> = Vec::new();
    walk_variables(tree, node, source, &mut vars);
    assert(var_models(vars@) =~= variables_in(tree.nodes@, node as int, utf8(source@)));
    vars
}

/// Whether the subtree rooted at `i` holds a variable node.
pub open spec fn has_variable(t: Seq<SyntaxNode>, i: int) -> bool
    decreases i, t[i].children@.len() + 1,
{
    0 <= i < t.len() && (is_variable_kind(t[i].kind@) || has_variable_children(t, i, 0))
}

/// Whether the subtree of a child of `i`, from the `j`-th on, holds a variable node.
pub open spec fn has_variable_children(t: Seq<SyntaxNode>, i: int, j: int) -> bool
    decreases i, t[i].children@.len() - j,
{
    if 0 <= i < t.len() && 0 <= j < t[i].children@.len() {
        let c = t[i].children@[j] as int;
        (c < i && has_variable(t, c)) || has_variable_children(t, i, j + 1)
    } else {
        false
    }
}

fn has_interpolation(tree: &SyntaxTree, node: usize) -> (r: bool)
    requires
        children_precede(tree.nodes@),
        node < tree.nodes@.len(),
    ensures
        r == has_variable(tree.nodes@, node as int),
    decreases node,
{
    let ghost t = tree.nodes@;
    if tree.kind_is(node, "simple_variable") || tree.kind_is(node, "complex_variable") || tree.kind_is(node, "variable_name") {
        return true;
    }
    let n = tree.nodes[node].children.len();
    let mut j: usize = 0;
    while j < n
        invariant
            children_precede(t),
            t == tree.nodes@,
            node < t.len(),
            !is_variable_kind(t[node as int].kind@),
            n == t[node as int].children@.len(),
            j <= n,
            has_variable(t, node as int) == has_variable_children(t, node as int, j as int),
        decreases n - j,
    {
        let c = tree.nodes[node].children[j];
        assert(t[node as int].children@[j as int] < node);
        if has_interpolation(tree, c) {
            return true;
        }
        j = j + 1;
    }
    false
}

/// Whether node `i` is a string whose subtree holds an interpolated variable.
pub open spec fn spec_is_interpolated_string(t: Seq<SyntaxNode>, i: int) -> bool {
    (t[i].kind@ == "string"@ || t[i].kind@ == "string_content"@ || t[i].kind@ == "encapsed_string"@) && has_variable(t, i)
}

/// Check if a node is an interpolated string (has variable interpolation).
pub fn is_interpolated_string(tree: &SyntaxTree, node: usize) -> (r: bool)
    requires
        children_precede(tree.nodes@),
        node < tree.nodes@.len(),
    ensures
        r == spec_is_interpolated_string(tree.nodes@, node as int),
{
    if !tree.kind_is(node, "string") && !tree.kind_is(node, "string_content") && !tree.kind_is(node, "encapsed_string") {
        return false;
    }
    has_interpolation(tree, node)
}

/// Whether a node kind is a PHP string or heredoc part.
pub open spec fn spec_is_string_like(kind: Seq<char>) -> bool {
    kind == "string"@ || kind == "string_content"@ || kind == "encapsed_string"@ || kind == "heredoc"@ || kind
        == "nowdoc"@ || kind == "heredoc_body"@
}

/// Check if a node is a string-like node (including heredocs).
pub fn is_string_like(tree: &SyntaxTree, node: usize) -> (r: bool)
    requires
        node < tree.nodes@.len(),
    ensures
        r == spec_is_string_like(tree.nodes@[node as int].kind@),
{
    tree.kind_is(node, "string") || tree.kind_is(node, "string_content") || tree.kind_is(node, "encapsed_string")
        || tree.kind_is(node, "heredoc") || tree.kind_is(node, "nowdoc") || tree.kind_is(node, "heredoc_body")
}

} // verus!
