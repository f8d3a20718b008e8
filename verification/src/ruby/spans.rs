//! Ranges of Ruby string literals, percent strings and heredocs, and of
//! `#{...}` interpolations.
use crate::python::spans::{sat_add, sat_sub};
use crate::syntax::{kind_child, kind_child_from, node_wf, SyntaxNode, SyntaxTree};
use crate::text::{
    find_byte, find_byte_exec, first_char, first_non_ws, first_ws, is_whitespace, lemma_find_byte_found,
    trailing_ws_start, trim_ws, lemma_ascii_boundaries, range_string, range_text, substr,
    utf8, valid_range,
};
use crate::types::{var_models, PromptVar, Span, SpanShape, VarModel};
use vstd::prelude::*;
use vstd::string::StrSliceExecFns;

verus! {

/// The first index at or after `i` where `T` holds `<<`.
pub open spec fn first_double_lt(t: Seq<char>, i: int) -> Option<int>
    decreases t.len() - i,
{
    if i < 0 || i + 1 >= t.len() {
        None
    } else if t[i] == '<' && t[i + 1] == '<' {
        Some(i)
    } else {
        first_double_lt(t, i + 1)
    }
}

/// The label of a heredoc opener text `t` such as `<<~EOS` or `<<-'EOS'`:
/// after the first `<<` and an optional `~` or `-`, either the text up to the
/// matching quote when the label is quoted, or the text up to the first
/// whitespace.
pub open spec fn heredoc_label(t: Seq<char>) -> Seq<char> {
    match first_double_lt(t, 0) {
        None => seq![],
        Some(pos) => {
            let ls0 = pos + 2;
            let ls = if ls0 < t.len() && (t[ls0] == '~' || t[ls0] == '-') {
                ls0 + 1
            } else {
                ls0
            };
            if ls >= t.len() {
                seq![]
            } else if t[ls] == '\'' || t[ls] == '"' {
                t.subrange(ls + 1, first_char(t, t[ls], ls + 1))
            } else {
                t.subrange(ls, first_ws(t, ls))
            }
        },
    }
}

/// The offset of the first line, from the one starting at `cur` on, whose
/// text (line break excluded) trims to `label`, or `b.len()` if none does.
pub open spec fn heredoc_body_end(b: Seq<u8>, cur: int, label: Seq<char>) -> int
    decreases b.len() - cur,
{
    if cur < 0 || cur >= b.len() {
        b.len() as int
    } else {
        proof {
            lemma_find_byte_found(b, 10u8, cur);
        }
        let le = match find_byte(b, 10u8, cur) {
            Some(p) => p,
            None => b.len() as int,
        };
        if trim_ws(range_text(b, cur, le)) == label {
            cur
        } else if le >= b.len() {
            b.len() as int
        } else {
            heredoc_body_end(b, le + 1, label)
        }
    }
}

/// The span shape of a heredoc opener node over `[start, end)`: with a
/// non-empty label and a line break after the opener, the body runs from
/// after that line break to the line holding the label, and the outer range
/// runs from the opener to the same place; otherwise both are the node's range.
pub open spec fn heredoc_beginning_shape(b: Seq<u8>, start: int, end: int) -> SpanShape {
    let label = heredoc_label(range_text(b, start, end));
    if label.len() > 0 && find_byte(b, 10u8, end) is Some {
        let body_start = find_byte(b, 10u8, end)->0 + 1;
        let body_end = heredoc_body_end(b, body_start, label);
        SpanShape {
            outer: Span { start: start as u32, end: body_end as u32 },
            inner: Span { start: body_start as u32, end: body_end as u32 },
        }
    } else {
        SpanShape { outer: Span { start: start as u32, end: end as u32 }, inner: Span { start: start as u32, end: end as u32 } }
    }
}

/// What a heredoc opener tells of its body: the byte range of the body and
/// whether the opener is the squiggly `<<~` form, whose body loses its
/// common indentation.
#[derive(Clone, Copy, Debug, PartialEq, Eq, Structural)]
pub struct HeredocInfo {
    pub strips_whitespace: bool,
    pub body_start: u32,
    pub body_end: u32,
}

/// Whether the heredoc opener text `t` is squiggly: its first `<<` is
/// followed by `~`.
pub open spec fn squiggly(t: Seq<char>) -> bool {
    match first_double_lt(t, 0) {
        Some(pos) => pos + 2 < t.len() && t[pos + 2] == '~',
        None => false,
    }
}

/// The heredoc information of node `i`: for a `heredoc_beginning` with a
/// non-empty label and a line break after it, the body range of its span
/// shape and whether it is squiggly; for any other node, none.
pub open spec fn heredoc_info(t: Seq<SyntaxNode>, i: int, b: Seq<u8>) -> Option<HeredocInfo> {
    let s = t[i].start as int;
    let e = t[i].end as int;
    let text = range_text(b, s, e);
    if t[i].kind@ == "heredoc_beginning"@ && heredoc_label(text).len() > 0 && find_byte(b, 10u8, e) is Some {
        let sh = heredoc_beginning_shape(b, s, e);
        Some(HeredocInfo { strips_whitespace: squiggly(text), body_start: sh.inner.start, body_end: sh.inner.end })
    } else {
        None
    }
}

/// Whether the heredoc opener text `s` is squiggly.
fn is_squiggly(s: &str) -> (r: bool)
    ensures
        r == squiggly(s@),
{
    let ghost t = s@;
    let n = s.unicode_len();
    let mut i: usize = 0;
    while i < n && i + 1 < n && !(s.get_char(i) == '<' && s.get_char(i + 1) == '<')
        invariant
            i <= n,
            n == t.len(),
            t == s@,
            first_double_lt(t, 0) == first_double_lt(t, i as int),
        decreases n - i,
    {
        i = i + 1;
    }
    if !(i < n && i + 1 < n) {
        return false;
    }
    i + 2 < n && s.get_char(i + 2) == '~'
}

/// The heredoc information of node `node`, whose body range, when there is
/// one, covers whole characters.
pub fn get_heredoc_info(tree: &SyntaxTree, node: usize, source: &str) -> (r: Option<HeredocInfo>)
    requires
        tree.wf(utf8(source@)),
        node < tree.nodes@.len(),
    ensures
        r == heredoc_info(tree.nodes@, node as int, utf8(source@)),
        r matches Some(info) ==> valid_range(utf8(source@), info.body_start as int, info.body_end as int),
{
    let ghost t = tree.nodes@;
    let ghost b = utf8(source@);
    proof {
        assert(node_wf(t, node as int, b));
    }
    if !tree.kind_is(node, "heredoc_beginning") {
        return None;
    }
    let start = tree.nodes[node].start;
    let end = tree.nodes[node].end;
    let text = substr(source, start, end);
    let (a, e) = heredoc_label_range(text);
    if a == e {
        return None;
    }
    let bytes = source.as_bytes();
    assert(bytes@.subrange(0, bytes@.len() as int) =~= bytes@);
    if find_byte_exec(bytes, bytes.len(), 10u8, end).is_none() {
        return None;
    }
    let sh = heredoc_beginning_shape_exec(source, start, end);
    Some(HeredocInfo { strips_whitespace: is_squiggly(text), body_start: sh.inner.start, body_end: sh.inner.end })
}

/// The closing delimiter of a percent string opened with `d`.
pub open spec fn closing_delimiter(d: u8) -> u8 {
    if d == 40u8 {
        41u8
    } else if d == 91u8 {
        93u8
    } else if d == 123u8 {
        125u8
    } else if d == 60u8 {
        62u8
    } else {
        d
    }
}

/// Whether the bytes at `start` open a `%q` or `%Q` string.
pub open spec fn is_percent_string(b: Seq<u8>, start: int) -> bool {
    start + 2 < b.len() && b[start] == 37u8 && (b[start + 1] == 113u8 || b[start + 1] == 81u8)
}

/// The length of the quote that opens a quoted string at `start`: 3 for a
/// tripled quote, 1 otherwise.
pub open spec fn quote_len_at(b: Seq<u8>, start: int) -> int {
    if 0 <= start && start + 2 < b.len() && (b[start] == 39u8 || b[start] == 34u8) && b[start + 1] == b[start]
        && b[start + 2] == b[start] {
        3
    } else {
        1
    }
}

/// The span shape of Ruby string node `i`: a `string` with a `heredoc_body`
/// child takes that child's range as inner range; a `heredoc_beginning`
/// reaches down to the line that closes the heredoc; a `heredoc_body` is its
/// own inner range; a `%q`/`%Q` string drops its three-byte opener and its
/// closing delimiter; any other string drops its quotes.
pub open spec fn ruby_string_shape(t: Seq<SyntaxNode>, i: int, b: Seq<u8>) -> SpanShape {
    let start = t[i].start as int;
    let end = t[i].end as int;
    let outer = Span { start: start as u32, end: end as u32 };
    let kind = t[i].kind@;
    if kind == "string"@ && kind_child_from(t, i, "heredoc_body"@, 0) is Some {
        let c = kind_child_from(t, i, "heredoc_body"@, 0)->0;
        SpanShape { outer, inner: Span { start: t[c].start as u32, end: t[c].end as u32 } }
    } else if kind == "heredoc_beginning"@ {
        heredoc_beginning_shape(b, start, end)
    } else if kind == "heredoc_body"@ {
        SpanShape { outer, inner: outer }
    } else if is_percent_string(b, start) {
        let closing = closing_delimiter(b[start + 2]);
        let inner_end = if end > start + 2 && b[end - 1] == closing {
            end - 1
        } else {
            end
        };
        SpanShape { outer, inner: Span { start: (start + 3) as u32, end: inner_end as u32 } }
    } else {
        let ql = quote_len_at(b, start);
        SpanShape { outer, inner: Span { start: sat_add(start, ql), end: sat_sub(end, ql) } }
    }
}

/// The label of the heredoc opener text `s`, as the character range
/// `[a, e)` of `s`.
fn heredoc_label_range(s: &str) -> (r: (usize, usize))
    ensures
        r.0 <= r.1 <= s@.len(),
        s@.subrange(r.0 as int, r.1 as int) == heredoc_label(s@),
{
    let ghost t = s@;
    let n = s.unicode_len();
    let mut i: usize = 0;
    while i < n && i + 1 < n && !(s.get_char(i) == '<' && s.get_char(i + 1) == '<')
        invariant
            i <= n,
            n == t.len(),
            t == s@,
            first_double_lt(t, 0) == first_double_lt(t, i as int),
        decreases n - i,
    {
        i = i + 1;
    }
    if !(i < n && i + 1 < n) {
        assert(s@.subrange(0, 0) =~= seq![]);
        return (0, 0);
    }
    assert(first_double_lt(t, 0) == Some(i as int));
    let mut ls = i + 2;
    if ls < n && (s.get_char(ls) == '~' || s.get_char(ls) == '-') {
        ls = ls + 1;
    }
    if ls >= n {
        assert(s@.subrange(0, 0) =~= seq![]);
        return (0, 0);
    }
    let first = s.get_char(ls);
    if first == '\'' || first == '"' {
        let mut q = ls + 1;
        while q < n && s.get_char(q) != first
            invariant
                ls + 1 <= q <= n,
                n == t.len(),
                t == s@,
                first_char(t, first, ls + 1) == first_char(t, first, q as int),
            decreases n - q,
        {
            q = q + 1;
        }
        (ls + 1, q)
    } else {
        let mut q = ls;
        while q < n && !is_whitespace(s.get_char(q))
            invariant
                ls <= q <= n,
                n == t.len(),
                t == s@,
                first_ws(t, ls as int) == first_ws(t, q as int),
            decreases n - q,
        {
            q = q + 1;
        }
        (ls, q)
    }
}

/// Whether `s`, trimmed of whitespace, equals the characters `[a, e)` of `lab`.
fn trims_to(s: &str, lab: &str, a: usize, e: usize) -> (r: bool)
    requires
        a <= e <= lab@.len(),
    ensures
        r == (trim_ws(s@) == lab@.subrange(a as int, e as int)),
{
    let ghost t = s@;
    let n = s.unicode_len();
    let mut lo: usize = 0;
    while lo < n && is_whitespace(s.get_char(lo))
        invariant
            lo <= n,
            n == t.len(),
            t == s@,
            first_non_ws(t, 0) == first_non_ws(t, lo as int),
        decreases n - lo,
    {
        lo = lo + 1;
    }
    assert(first_non_ws(t, 0) == lo);
    let mut hi: usize = n;
    while hi > 0 && is_whitespace(s.get_char(hi - 1))
        invariant
            first_non_ws(t, 0) == lo,
            hi <= n,
            n == t.len(),
            t == s@,
            trailing_ws_start(t, n as int) == trailing_ws_start(t, hi as int),
        decreases hi,
    {
        hi = hi - 1;
    }
    assert(trailing_ws_start(t, n as int) == hi);
    let len = if hi <= lo {
        0
    } else {
        hi - lo
    };
    assert(trim_ws(t).len() == len);
    if len != e - a {
        return false;
    }
    let mut k: usize = 0;
    while k < len
        invariant
            k <= len,
            len == e - a,
            len > 0 ==> lo + len == hi && hi <= n,
            len == 0 ==> hi <= lo,
            first_non_ws(t, 0) == lo,
            trailing_ws_start(t, n as int) == hi,
            e <= lab@.len(),
            n == t.len(),
            t == s@,
            len > 0 ==> t.subrange(lo as int, lo + k) == lab@.subrange(a as int, a + k),
        decreases len - k,
    {
        if s.get_char(lo + k) != lab.get_char(a + k) {
            assert(trim_ws(t)[k as int] != lab@.subrange(a as int, e as int)[k as int]);
            return false;
        }
        assert(t.subrange(lo as int, lo + k + 1) =~= t.subrange(lo as int, lo + k).push(t[lo + k]));
        assert(lab@.subrange(a as int, a + k + 1) =~= lab@.subrange(a as int, a + k).push(lab@[a + k]));
        k = k + 1;
    }
    assert(trim_ws(t) =~= lab@.subrange(a as int, e as int));
    true
}

/// The span shape of a `heredoc_beginning` node over `[start, end)`.
fn heredoc_beginning_shape_exec(source: &str, start: usize, end: usize) -> (r: SpanShape)
    requires
        valid_range(utf8(source@), start as int, end as int),
        utf8(source@).len() < u32::MAX,
    ensures
        r == heredoc_beginning_shape(utf8(source@), start as int, end as int),
        valid_range(utf8(source@), r.inner.start as int, r.inner.end as int),
{
    let ghost b = utf8(source@);
    proof {
        vstd::utf8::encode_utf8_valid_utf8(source@);
    }
    let bytes = source.as_bytes();
    let text = substr(source, start, end);
    let (a, e) = heredoc_label_range(text);
    let fallback = SpanShape { outer: Span { start: start as u32, end: end as u32 }, inner: Span { start: start as u32, end: end as u32 } };
    if a == e {
        return fallback;
    }
    assert(bytes@.subrange(0, bytes@.len() as int) =~= bytes@);
    let nl = match find_byte_exec(bytes, bytes.len(), 10u8, end) {
        Some(p) => p,
        None => {
            return fallback;
        },
    };
    proof {
        lemma_find_byte_found(b, 10u8, end as int);
    }
    let body_start = nl + 1;
    let mut cur = body_start;
    let mut body_end = bytes.len();
    proof {
        lemma_ascii_boundaries(b, nl as int);
        vstd::utf8::is_char_boundary_start_end_of_seq(b);
    }
    loop
        invariant
            b == utf8(source@),
            b == bytes@,
            bytes@.subrange(0, bytes@.len() as int) == bytes@,
            vstd::utf8::valid_utf8(b),
            b.len() < u32::MAX,
            body_start <= cur <= b.len(),
            vstd::utf8::is_char_boundary(b, body_start as int),
            vstd::utf8::is_char_boundary(b, b.len() as int),
            a <= e <= text@.len(),
            cur < b.len() ==> vstd::utf8::is_char_boundary(b, cur as int),
            heredoc_body_end(b, body_start as int, heredoc_label(text@)) == heredoc_body_end(b, cur as int, heredoc_label(text@)),
            text@.subrange(a as int, e as int) == heredoc_label(text@),
        ensures
            body_end == heredoc_body_end(b, body_start as int, heredoc_label(text@)),
            body_start <= body_end <= b.len(),
            vstd::utf8::is_char_boundary(b, body_end as int),
        decreases b.len() - cur,
    {
        if cur >= bytes.len() {
            body_end = bytes.len();
            break;
        }
        let le = match find_byte_exec(bytes, bytes.len(), 10u8, cur) {
            Some(p) => p,
            None => bytes.len(),
        };
        proof {
            lemma_find_byte_found(b, 10u8, cur as int);
            vstd::utf8::is_char_boundary_start_end_of_seq(b);
            if le < b.len() {
                lemma_ascii_boundaries(b, le as int);
            }
        }
        let line = substr(source, cur, le);
        if trims_to(line, text, a, e) {
            body_end = cur;
            break;
        }
        if le >= bytes.len() {
            body_end = bytes.len();
            break;
        }
        cur = le + 1;
    }
    SpanShape {
        outer: Span { start: start as u32, end: body_end as u32 },
        inner: Span { start: body_start as u32, end: body_end as u32 },
    }
}

/// Calculate outer and inner spans for a string-like node.
/// For Ruby, this handles single-quoted, double-quoted strings, and heredocs.
pub fn span_shape_string_like(tree: &SyntaxTree, node: usize, source: &str) -> (r: SpanShape)
    requires
        tree.wf(utf8(source@)),
        node < tree.nodes@.len(),
    ensures
        r == ruby_string_shape(tree.nodes@, node as int, utf8(source@)),
{
    let ghost t = tree.nodes@;
    let ghost b = utf8(source@);
    proof {
        assert(node_wf(t, node as int, b));
    }
    let start = tree.nodes[node].start;
    let end = tree.nodes[node].end;
    let outer = Span { start: start as u32, end: end as u32 };
    if tree.kind_is(node, "string") {
        if let Some(c) = kind_child(tree, node, "heredoc_body") {
            proof {
                assert(node_wf(t, c as int, b));
            }
            return SpanShape { outer, inner: Span { start: tree.nodes[c].start as u32, end: tree.nodes[c].end as u32 } };
        }
    }
    if tree.kind_is(node, "heredoc_beginning") {
        return heredoc_beginning_shape_exec(source, start, end);
    }
    if tree.kind_is(node, "heredoc_body") {
        return SpanShape { outer, inner: outer };
    }
    let bytes = source.as_bytes();
    if start < bytes.len() && 2 < bytes.len() - start && bytes[start] == 37u8 && (bytes[start + 1] == 113u8 || bytes[start + 1] == 81u8) {
        let delimiter = bytes[start + 2];
        let closing = if delimiter == 40u8 {
            41u8
        } else if delimiter == 91u8 {
            93u8
        } else if delimiter == 123u8 {
            125u8
        } else if delimiter == 60u8 {
            62u8
        } else {
            delimiter
        };
        let inner_start = start as u32 + 3;
        let mut inner_end = end as u32;
        if end > start + 2 && bytes[end - 1] == closing {
            inner_end = inner_end - 1;
        }
        return SpanShape { outer, inner: Span { start: inner_start, end: inner_end } };
    }
    let mut quote_len = 1u32;
    if start < bytes.len() {
        let first_char = bytes[start];
        if first_char == 39u8 || first_char == 34u8 {
            if 2 < bytes.len() - start && bytes[start + 1] == first_char && bytes[start + 2] == first_char {
                quote_len = 3;
            }
        }
    }
    let inner = Span { start: (start as u32).saturating_add(quote_len), end: (end as u32).saturating_sub(quote_len) };
    SpanShape { outer, inner }
}

/// The variable of a `#{...}` interpolation over the bytes `[s, e)` of `b`:
/// its text is the whole interpolation, and its inner range drops `#{` and `}`.
pub open spec fn hash_brace_var(b: Seq<u8>, s: int, e: int) -> VarModel {
    VarModel {
        exp: range_text(b, s, e),
        span: SpanShape { outer: Span { start: s as u32, end: e as u32 }, inner: Span { start: sat_add(s, 2), end: sat_sub(e, 1) } },
    }
}

/// The variables of the `interpolation` nodes of the subtree rooted at `i`,
/// in pre-order, not looking inside an interpolation.
pub open spec fn interpolation_vars(t: Seq<SyntaxNode>, i: int, b: Seq<u8>) -> Seq<VarModel>
    decreases i, t[i].children@.len() + 1,
{
    if 0 <= i < t.len() {
        if t[i].kind@ == "interpolation"@ {
            seq![hash_brace_var(b, t[i].start as int, t[i].end as int)]
        } else {
            interpolation_vars_children(t, i, b, 0)
        }
    } else {
        seq![]
    }
}

/// The interpolation variables of the subtrees of the children of `i`, from the `j`-th on.
pub open spec fn interpolation_vars_children(t: Seq<SyntaxNode>, i: int, b: Seq<u8>, j: int) -> Seq<VarModel>
    decreases i, t[i].children@.len() - j,
{
    if 0 <= i < t.len() && 0 <= j < t[i].children@.len() {
        let c = t[i].children@[j] as int;
        if c < i {
            interpolation_vars(t, c, b) + interpolation_vars_children(t, i, b, j + 1)
        } else {
            interpolation_vars_children(t, i, b, j + 1)
        }
    } else {
        seq![]
    }
}

fn walk_interpolations(tree: &SyntaxTree, node: usize, source: &str, vars: &mut Vec<PromptVar>)
    requires
        tree.wf(utf8(source@)),
        node < tree.nodes@.len(),
    ensures
        var_models(final(vars)@) == var_models(old(vars)@) + interpolation_vars(tree.nodes@, node as int, utf8(source@)),
    decreases node,
{
    let ghost t = tree.nodes@;
    let ghost b = utf8(source@);
    proof {
        assert(node_wf(t, node as int, b));
    }
    if tree.kind_is(node, "interpolation") {
        let s = tree.nodes[node].start;
        let e = tree.nodes[node].end;
        let exp = range_string(source, s, e);
        let ghost before = var_models(vars@);
        vars.push(PromptVar {
            exp,
            span: SpanShape {
                outer: Span { start: s as u32, end: e as u32 },
                inner: Span { start: (s as u32).saturating_add(2), end: (e as u32).saturating_sub(1) },
            },
        });
        assert(var_models(vars@) =~= before + interpolation_vars(t, node as int, b));
        return;
    }
    let n = tree.nodes[node].children.len();
    let mut j: usize = 0;
    while j < n
        invariant
            tree.wf(b),
            b == utf8(source@),
            t == tree.nodes@,
            node < t.len(),
            t[node as int].kind@ != "interpolation"@,
            n == t[node as int].children@.len(),
            j <= n,
            forall|q: int| 0 <= q < n ==> #[trigger] t[node as int].children@[q] < node,
            var_models(vars@) + interpolation_vars_children(t, node as int, b, j as int) == var_models(old(vars)@)
                + interpolation_vars(t, node as int, b),
        decreases n - j,
    {
        let c = tree.nodes[node].children[j];
        assert(t[node as int].children@[j as int] < node);
        let ghost before = var_models(vars@);
        walk_interpolations(tree, c, source, vars);
        assert(var_models(vars@) + interpolation_vars_children(t, node as int, b, j + 1) =~= before
            + interpolation_vars_children(t, node as int, b, j as int));
        j = j + 1;
    }
    assert(var_models(vars@) =~= var_models(vars@) + interpolation_vars_children(t, node as int, b, n as int));
}

/// Extract variables from interpolated string expressions (e.g., "Hello #{name}"):
/// one for each `interpolation` node under `node`, in pre-order.
pub fn extract_interpolation_vars(tree: &SyntaxTree, node: usize, source: &str) -> (r: Vec<PromptVar>)
    requires
        tree.wf(utf8(source@)),
        node < tree.nodes@.len(),
    ensures
        var_models(r@) == interpolation_vars(tree.nodes@, node as int, utf8(source@)),
{
    let mut vars: Vec<PromptVar> = Vec::new();
    walk_interpolations(tree, node, source, &mut vars);
    assert(var_models(vars@) =~= interpolation_vars(tree.nodes@, node as int, utf8(source@)));
    vars
}

/// Whether node `i` is a `string` or `string_content` with an `interpolation` child.
pub open spec fn spec_is_interpolated_string(t: Seq<SyntaxNode>, i: int) -> bool {
    (t[i].kind@ == "string"@ || t[i].kind@ == "string_content"@) && kind_child_from(t, i, "interpolation"@, 0) is Some
}

/// Check if a node is an interpolated string (has interpolation children).
pub fn is_interpolated_string(tree: &SyntaxTree, node: usize) -> (r: bool)
    requires
        node < tree.nodes@.len(),
        forall|q: int| 0 <= q < tree.nodes@[node as int].children@.len() ==> #[trigger] tree.nodes@[node as int].children@[q] < node,
    ensures
        r == spec_is_interpolated_string(tree.nodes@, node as int),
{
    if !tree.kind_is(node, "string") && !tree.kind_is(node, "string_content") {
        return false;
    }
    kind_child(tree, node, "interpolation").is_some()
}

/// Whether a node kind is a Ruby string or heredoc part.
pub open spec fn spec_is_string_like(kind: Seq<char>) -> bool {
    kind == "string"@ || kind == "string_content"@ || kind == "heredoc_body"@ || kind == "heredoc_beginning"@
}

/// Check if a node is a string-like node (including heredocs).
pub fn is_string_like(tree: &SyntaxTree, node: usize) -> (r: bool)
    requires
        node < tree.nodes@.len(),
    ensures
        r == spec_is_string_like(tree.nodes@[node as int].kind@),
{
    tree.kind_is(node, "string") || tree.kind_is(node, "string_content") || tree.kind_is(node, "heredoc_body")
        || tree.kind_is(node, "heredoc_beginning")
}

} // verus!
