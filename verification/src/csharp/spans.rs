//! Ranges of C# string literals and of interpolations inside `$"..."` strings.
use crate::python::spans::{sat_add, sat_sub};
use crate::syntax::{node_wf, SyntaxNode, SyntaxTree};
use crate::text::{range_string, range_text, text_eq, utf8};
use crate::types::{var_models, PromptVar, Span, SpanShape, VarModel};
use vstd::prelude::*;

verus! {

/// The length of the `$`, `$@` or `@$` prefix of an interpolated string that
/// starts at `start` in `b`.
pub open spec fn interpolation_prefix_len(b: Seq<u8>, start: int) -> int {
    if start < b.len() {
        if b[start] == 36u8 {
            if start + 1 < b.len() && b[start + 1] == 64u8 {
                2
            } else {
                1
            }
        } else if b[start] == 64u8 && start + 1 < b.len() && b[start + 1] == 36u8 {
            2
        } else {
            0
        }
    } else {
        0
    }
}

/// The span shape of a C# string node of kind `kind` over the bytes
/// `[start, end)` of `b`: an interpolated string loses its prefix and opening
/// quote, a verbatim string loses `@"`, any other string one quote; all lose
/// one closing quote.
pub open spec fn csharp_string_shape(b: Seq<u8>, kind: Seq<char>, start: int, end: int) -> SpanShape {
    let outer = Span { start: start as u32, end: end as u32 };
    if kind == "interpolated_string_expression"@ {
        SpanShape {
            outer,
            inner: Span { start: (start + interpolation_prefix_len(b, start) + 1) as u32, end: sat_sub(end, 1) },
        }
    } else if kind == "verbatim_string_literal"@ {
        SpanShape { outer, inner: Span { start: (start + 2) as u32, end: sat_sub(end, 1) } }
    } else {
        SpanShape { outer, inner: Span { start: sat_add(start, 1), end: sat_sub(end, 1) } }
    }
}

/// Calculate outer and inner spans for a string-like node.
/// For C#, this handles string literals, interpolated strings, and verbatim strings.
pub fn span_shape_string_like(tree: &SyntaxTree, node: usize, source: &str) -> (r: SpanShape)
    requires
        tree.wf(utf8(source@)),
        node < tree.nodes@.len(),
        tree.nodes@[node as int].kind@ == "verbatim_string_literal"@ ==> tree.nodes@[node as int].start + 2 <= u32::MAX,
    ensures
        r == csharp_string_shape(
            utf8(source@),
            tree.nodes@[node as int].kind@,
            tree.nodes@[node as int].start as int,
            tree.nodes@[node as int].end as int,
        ),
{
    proof {
        assert(node_wf(tree.nodes@, node as int, utf8(source@)));
    }
    let bytes = source.as_bytes();
    let start = tree.nodes[node].start;
    let end = tree.nodes[node].end;
    let outer = Span { start: start as u32, end: end as u32 };
    if tree.kind_is(node, "interpolated_string_expression") {
        let mut prefix_len: u32 = 0;
        if start < bytes.len() {
            if bytes[start] == 36u8 {
                prefix_len = 1;
                if start + 1 < bytes.len() && bytes[start + 1] == 64u8 {
                    prefix_len = 2;
                }
            } else if bytes[start] == 64u8 && start + 1 < bytes.len() && bytes[start + 1] == 36u8 {
                prefix_len = 2;
            }
        }
        let inner_start = start as u32 + prefix_len + 1;
        let inner_end = (end as u32).saturating_sub(1);
        return SpanShape { outer, inner: Span { start: inner_start, end: inner_end } };
    }
    if tree.kind_is(node, "verbatim_string_literal") {
        let inner_start = (start as u32) + 2;
        let inner_end = (end as u32).saturating_sub(1);
        return SpanShape { outer, inner: Span { start: inner_start, end: inner_end } };
    }
    let quote_len = 1u32;
    let inner = Span { start: (start as u32).saturating_add(quote_len), end: (end as u32).saturating_sub(quote_len) };
    SpanShape { outer, inner }
}

/// The variable of an interpolation over the bytes `[s, e)` of `b`: its text
/// is the whole interpolation, braces included, and its inner range drops one
/// byte on each side.
pub open spec fn braced_var(b: Seq<u8>, s: int, e: int) -> VarModel {
    VarModel {
        exp: range_text(b, s, e),
        span: SpanShape {
            outer: Span { start: s as u32, end: e as u32 },
            inner: Span { start: (s + 1) as u32, end: (e - 1) as u32 },
        },
    }
}

/// The variables of the children of node `i` of kind `kind`, from its `j`-th
/// child on, each read with `braced_var`.
pub open spec fn braced_child_vars(t: Seq<SyntaxNode>, i: int, kind: Seq<char>, b: Seq<u8>, j: int) -> Seq<VarModel>
    decreases t[i].children@.len() - j,
{
    if 0 <= i < t.len() && 0 <= j < t[i].children@.len() {
        let c = t[i].children@[j] as int;
        let rest = braced_child_vars(t, i, kind, b, j + 1);
        if 0 <= c < t.len() && t[c].kind@ == kind {
            seq![braced_var(b, t[c].start as int, t[c].end as int)] + rest
        } else {
            rest
        }
    } else {
        seq![]
    }
}

/// Whether every child of node `i` of kind `kind` ends after offset 0.
pub open spec fn children_of_kind_end_after_start(t: Seq<SyntaxNode>, i: int, kind: Seq<char>) -> bool {
    forall|j: int|
        0 <= j < t[i].children@.len() && #[trigger] t[t[i].children@[j] as int].kind@ == kind ==> t[t[i].children@[j] as int].end
            >= 1
}

/// The variables of the direct children of node `i` of kind `kind`, in order.
pub fn braced_children(tree: &SyntaxTree, node: usize, kind: &str, source: &str) -> (r: Vec<PromptVar>)
    requires
        tree.wf(utf8(source@)),
        node < tree.nodes@.len(),
        children_of_kind_end_after_start(tree.nodes@, node as int, kind@),
    ensures
        var_models(r@) == braced_child_vars(tree.nodes@, node as int, kind@, utf8(source@), 0),
{
    let ghost t = tree.nodes@;
    let ghost b = utf8(source@);
    let mut vars: Vec<PromptVar> = Vec::new();
    let n = tree.nodes[node].children.len();
    let mut j: usize = 0;
    while j < n
        invariant
            tree.wf(b),
            b == utf8(source@),
            t == tree.nodes@,
            node < t.len(),
            children_of_kind_end_after_start(t, node as int, kind@),
            n == t[node as int].children@.len(),
            j <= n,
            var_models(vars@) + braced_child_vars(t, node as int, kind@, b, j as int) == braced_child_vars(t, node as int, kind@, b, 0),
        decreases n - j,
    {
        let c = tree.nodes[node].children[j];
        proof {
            assert(node_wf(t, node as int, b));
        }
        let ghost before = var_models(vars@);
        if text_eq(tree.nodes[c].kind.as_str(), kind) {
            proof {
                assert(node_wf(t, c as int, b));
                assert(t[t[node as int].children@[j as int] as int].kind@ == kind@);
            }
            let s = tree.nodes[c].start;
            let e = tree.nodes[c].end;
            let exp = range_string(source, s, e);
            vars.push(PromptVar {
                exp,
                span: SpanShape {
                    outer: Span { start: s as u32, end: e as u32 },
                    inner: Span { start: s as u32 + 1, end: e as u32 - 1 },
                },
            });
        }
        assert(var_models(vars@) + braced_child_vars(t, node as int, kind@, b, j + 1) =~= before
            + braced_child_vars(t, node as int, kind@, b, j as int));
        j = j + 1;
    }
    assert(var_models(vars@) =~= var_models(vars@) + braced_child_vars(t, node as int, kind@, b, n as int));
    vars
}

/// Extract variables from interpolated string expressions (e.g., $"Hello {name}"):
/// one for each `interpolation` child, in order, and none for other nodes.
pub fn extract_interpolation_vars(tree: &SyntaxTree, node: usize, source: &str) -> (r: Vec<PromptVar>)
    requires
        tree.wf(utf8(source@)),
        node < tree.nodes@.len(),
        children_of_kind_end_after_start(tree.nodes@, node as int, "interpolation"@),
    ensures
        tree.nodes@[node as int].kind@ != "interpolated_string_expression"@ ==> r@.len() == 0,
        tree.nodes@[node as int].kind@ == "interpolated_string_expression"@ ==> var_models(r@) == braced_child_vars(
            tree.nodes@,
            node as int,
            "interpolation"@,
            utf8(source@),
            0,
        ),
{
    if !tree.kind_is(node, "interpolated_string_expression") {
        return Vec::new();
    }
    braced_children(tree, node, "interpolation", source)
}

} // verus!
