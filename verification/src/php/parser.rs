//! The PHP prompt detector over a tree-sitter syntax tree.
//!
//! A prompt is a string, a `.` concatenation, a `sprintf` call, an array or
//! an `implode` call assigned to a prompt variable: one whose name contains
//! `prompt` (in any letter case), whose statement carries a `@prompt`
//! annotation, or that a scope marked before.
use crate::comments::{CommentNode, CommentTracker};
use crate::detect::{
    concat_operand,
    boundary_or_beyond, build_prompt, collect_named_args, collect_statement_annotations, declare, declared,
    detect_ctx, detect_ready, detect_state, enclosure_start_exec, errors_message, final_annotations,
    final_annotations_exec, format_tree_sitter_error, initial_state, is_prompt_variable_exec, make_prompt, named_args,
    prompt_from_format, prompt_from_segments, push_some, format_prompt, segments_prompt,
    statement_annotations, variables_ranged, ConcatSegment, DetectCtx, DetectState, ElementsAcc, keeps, lemma_declared_keeps,
    lemma_keeps_refl, lemma_keeps_trans, lemma_scoped_keeps, lemma_step_keeps,
};
use crate::expr::{expand_around_operator, expanded_span};
use crate::go::scope::ScopeTracker;
use crate::php::spans::{extract_interpolation_vars, php_string_shape, span_shape_string_like, variables_in};
use crate::python::parser::{build_content_tokens, content_tokens, is_prompt_variable, result_view, sorted_comments_of, string_views};
use crate::python::spans::sat_sub;
use crate::syntax::{
    children_precede, field_child, lemma_wf_children_precede, node_text, node_wf, SyntaxNode, SyntaxTree,
};
use crate::text::{range_text, text_eq, utf8};
use crate::treesitter::{parse_tree, Grammar};
use crate::types::{
    annotation_models, empty_shape, prompt_models, var_models, AnnotationModel, ParseResult, Prompt, PromptAnnotation,
    PromptContentToken, PromptModel, PromptVar, Span, SpanShape, VarModel,
};
use crate::parser_core::VolumenParser;
use crate::treesitter::{node_models, parsed_models};
use vstd::prelude::*;
use vstd::string::StringExecFns;

verus! {

/// Whether node `k` is a string-like value of PHP.
pub open spec fn php_string_like(t: Seq<SyntaxNode>, k: int) -> bool {
    0 <= k < t.len() && {
        let kind = t[k].kind@;
        kind == "string"@ || kind == "encapsed_string"@ || kind == "string_value"@ || kind == "heredoc"@ || kind == "nowdoc"@
            || kind == "heredoc_body"@
    }
}

/// Check if a node represents a string literal.
fn is_string_like(tree: &SyntaxTree, k: usize) -> (r: bool)
    requires
        k < tree.nodes@.len(),
    ensures
        r == php_string_like(tree.nodes@, k as int),
{
    tree.kind_is(k, "string") || tree.kind_is(k, "encapsed_string") || tree.kind_is(k, "string_value") || tree.kind_is(
        k,
        "heredoc",
    ) || tree.kind_is(k, "nowdoc") || tree.kind_is(k, "heredoc_body")
}

/// The prompt made of the string node `k`: its span, its interpolated
/// variables, and the text and variable tokens between them.
pub open spec fn php_string_prompt(ctx: DetectCtx, k: int, ann: Seq<AnnotationModel>, ss: u32, se: u32) -> PromptModel {
    let span = php_string_shape(ctx.t, k, ctx.b);
    let vars = variables_in(ctx.t, k, ctx.b);
    make_prompt(ctx, span, vars, ann, content_tokens(span, vars), empty_shape(), ss, se)
}

/// The prompt made of the string node `k`, ranged by the node alone: one
/// byte off each end, with no variables.
pub open spec fn range_prompt(ctx: DetectCtx, k: int, ann: Seq<AnnotationModel>, ss: u32, se: u32) -> PromptModel {
    let s = ctx.t[k].start as int;
    let e = ctx.t[k].end as int;
    let span = SpanShape { outer: Span { start: s as u32, end: e as u32 }, inner: Span { start: (s + 1) as u32, end: sat_sub(e, 1) } };
    make_prompt(ctx, span, seq![], ann, content_tokens(span, seq![]), empty_shape(), ss, se)
}

/// Create a prompt from a string node.
fn create_prompt_from_string(
    tree: &SyntaxTree,
    k: usize,
    source: &str,
    filename: &str,
    stmt_start: u32,
    stmt_end: u32,
    comments: &CommentTracker,
    annotations: &Vec<PromptAnnotation>,
) -> (r: Prompt)
    requires
        detect_ready(tree, source, comments),
        k < tree.nodes@.len(),
        boundary_or_beyond(utf8(source@), stmt_start),
    ensures
        r@ == php_string_prompt(detect_ctx(tree, source, filename, comments), k as int, annotation_models(annotations@), stmt_start, stmt_end),
{
    let ghost ctx = detect_ctx(tree, source, filename, comments);
    let span = span_shape_string_like(tree, k, source);
    let vars = extract_interpolation_vars(tree, k, source);
    let content = build_content_tokens(&span, &vars);
    let es = enclosure_start_exec(comments, stmt_start, Ghost(ctx));
    let joint = SpanShape { outer: Span { start: 0, end: 0 }, inner: Span { start: 0, end: 0 } };
    build_prompt(source, filename, span, vars, annotations, content, joint, es, stmt_end)
}

/// Create a prompt from the byte range of the string node `k`.
pub(crate) fn create_prompt_from_range(
    tree: &SyntaxTree,
    k: usize,
    source: &str,
    filename: &str,
    stmt_start: u32,
    stmt_end: u32,
    comments: &CommentTracker,
    annotations: &Vec<PromptAnnotation>,
) -> (r: Prompt)
    requires
        detect_ready(tree, source, comments),
        k < tree.nodes@.len(),
        boundary_or_beyond(utf8(source@), stmt_start),
    ensures
        r@ == range_prompt(detect_ctx(tree, source, filename, comments), k as int, annotation_models(annotations@), stmt_start, stmt_end),
{
    let ghost ctx = detect_ctx(tree, source, filename, comments);
    proof {
        assert(node_wf(tree.nodes@, k as int, utf8(source@)));
    }
    let start = tree.nodes[k].start as u32;
    let end = tree.nodes[k].end as u32;
    let span = SpanShape { outer: Span { start, end }, inner: Span { start: start + 1, end: end.saturating_sub(1) } };
    let vars: Vec<PromptVar> = Vec::new();
    assert(var_models(vars@) =~= Seq::<VarModel>::empty());
    let content = build_content_tokens(&span, &vars);
    let es = enclosure_start_exec(comments, stmt_start, Ghost(ctx));
    let joint = SpanShape { outer: Span { start: 0, end: 0 }, inner: Span { start: 0, end: 0 } };
    build_prompt(source, filename, span, vars, annotations, content, joint, es, stmt_end)
}

/// The texts of the variable nodes of node `i`'s subtree, in pre-order, not
/// looking inside a variable.
pub open spec fn php_identifiers_in(t: Seq<SyntaxNode>, i: int, b: Seq<u8>) -> Seq<Seq<char>>
    decreases i, t[i].children@.len() + 1,
{
    if 0 <= i < t.len() {
        if t[i].kind@ == "variable_name"@ || t[i].kind@ == "simple_variable"@ {
            seq![node_text(t, i, b)]
        } else {
            php_identifiers_in_children(t, i, 0, b)
        }
    } else {
        seq![]
    }
}

/// The variable texts of the subtrees of the children of `i`, from the `j`-th on.
pub open spec fn php_identifiers_in_children(t: Seq<SyntaxNode>, i: int, j: int, b: Seq<u8>) -> Seq<Seq<char>>
    decreases i, t[i].children@.len() - j,
{
    if 0 <= i < t.len() && 0 <= j < t[i].children@.len() {
        let c = t[i].children@[j] as int;
        if 0 <= c < i {
            php_identifiers_in(t, c, b) + php_identifiers_in_children(t, i, j + 1, b)
        } else {
            php_identifiers_in_children(t, i, j + 1, b)
        }
    } else {
        seq![]
    }
}

/// Extract identifiers from a list_literal or similar pattern.
fn extract_identifiers(tree: &SyntaxTree, i: usize, source: &str, identifiers: &mut Vec<String>)
    requires
        tree.wf(utf8(source@)),
        i < tree.nodes@.len(),
    ensures
        string_views(final(identifiers)@) == string_views(old(identifiers)@) + php_identifiers_in(tree.nodes@, i as int, utf8(source@)),
    decreases i,
{
    let ghost t = tree.nodes@;
    let ghost b = utf8(source@);
    if tree.kind_is(i, "variable_name") || tree.kind_is(i, "simple_variable") {
        let name = tree.text_of(i, source);
        let ghost before = identifiers@;
        identifiers.push(name);
        assert(string_views(identifiers@) =~= string_views(before) + php_identifiers_in(t, i as int, b));
        return;
    }
    let ghost base = string_views(identifiers@);
    let n = tree.nodes[i].children.len();
    let mut j: usize = 0;
    while j < n
        invariant
            tree.wf(b),
            b == utf8(source@),
            t == tree.nodes@,
            i < t.len(),
            !(t[i as int].kind@ == "variable_name"@ || t[i as int].kind@ == "simple_variable"@),
            n == t[i as int].children@.len(),
            j <= n,
            string_views(identifiers@) + php_identifiers_in_children(t, i as int, j as int, b) == base + php_identifiers_in_children(t, i as int, 0, b),
        decreases n - j,
    {
        let c = tree.nodes[i].children[j];
        proof {
            assert(node_wf(t, i as int, b));
        }
        let ghost before = string_views(identifiers@);
        extract_identifiers(tree, c, source, identifiers);
        assert(string_views(identifiers@) + php_identifiers_in_children(t, i as int, j + 1, b) =~= before
            + php_identifiers_in_children(t, i as int, j as int, b));
        j = j + 1;
    }
    assert(string_views(identifiers@) =~= base + php_identifiers_in(t, i as int, b));
}

/// Whether node `k` is a string value of a multi-assignment.
pub open spec fn is_value_string(t: Seq<SyntaxNode>, k: int) -> bool {
    t[k].kind@ == "string"@ || t[k].kind@ == "encapsed_string"@ || t[k].kind@ == "string_value"@
}

/// The string values on the right of a multi-assignment, rooted at `i`:
/// a string is one value; an array's children are all searched; of any
/// other node only the string-like children are.
pub open spec fn value_nodes(t: Seq<SyntaxNode>, i: int) -> Seq<int>
    decreases i, t[i].children@.len() + 1,
{
    if 0 <= i < t.len() {
        if is_value_string(t, i) {
            seq![i]
        } else {
            value_nodes_children(t, i, 0, t[i].kind@ == "array_creation_expression"@)
        }
    } else {
        seq![]
    }
}

/// The values of the children of `i` from the `j`-th on; all children when
/// `all`, else the string-like ones.
pub open spec fn value_nodes_children(t: Seq<SyntaxNode>, i: int, j: int, all: bool) -> Seq<int>
    decreases i, t[i].children@.len() - j,
{
    if 0 <= i < t.len() && 0 <= j < t[i].children@.len() {
        let c = t[i].children@[j] as int;
        let own = if 0 <= c < i && (all || php_string_like(t, c)) {
            value_nodes(t, c)
        } else {
            seq![]
        };
        own + value_nodes_children(t, i, j + 1, all)
    } else {
        seq![]
    }
}

proof fn lemma_value_nodes_bounded(t: Seq<SyntaxNode>, i: int)
    ensures
        forall|q: int| 0 <= q < value_nodes(t, i).len() ==> 0 <= #[trigger] value_nodes(t, i)[q] < t.len(),
    decreases i, t[i].children@.len() + 1,
{
    if 0 <= i < t.len() {
        if is_value_string(t, i) {
            assert(value_nodes(t, i) =~= seq![i]);
        } else {
            lemma_value_nodes_children_bounded(t, i, 0, t[i].kind@ == "array_creation_expression"@);
            assert(value_nodes(t, i) == value_nodes_children(t, i, 0, t[i].kind@ == "array_creation_expression"@));
        }
    }
}

proof fn lemma_value_nodes_children_bounded(t: Seq<SyntaxNode>, i: int, j: int, all: bool)
    ensures
        forall|q: int| 0 <= q < value_nodes_children(t, i, j, all).len() ==> 0 <= #[trigger] value_nodes_children(t, i, j, all)[q] < t.len(),
    decreases i, t[i].children@.len() - j,
{
    if 0 <= i < t.len() && 0 <= j < t[i].children@.len() {
        let c = t[i].children@[j] as int;
        lemma_value_nodes_children_bounded(t, i, j + 1, all);
        if 0 <= c < i && (all || php_string_like(t, c)) {
            lemma_value_nodes_bounded(t, c);
        }
        let own = if 0 <= c < i && (all || php_string_like(t, c)) {
            value_nodes(t, c)
        } else {
            seq![]
        };
        let rest = value_nodes_children(t, i, j + 1, all);
        assert forall|q: int| 0 <= q < (own + rest).len() implies 0 <= #[trigger] (own + rest)[q] < t.len() by {
            if q < own.len() {
                assert((own + rest)[q] == own[q]);
            } else {
                assert((own + rest)[q] == rest[q - own.len()]);
            }
        }
    }
}

/// Extract the string values from the right side of a multi-assignment.
fn extract_value_ranges(tree: &SyntaxTree, i: usize, values: &mut Vec<usize>)
    requires
        children_precede(tree.nodes@),
        i < tree.nodes@.len(),
    ensures
        final(values)@.map_values(|x: usize| x as int) == old(values)@.map_values(|x: usize| x as int) + value_nodes(tree.nodes@, i as int),
    decreases i,
{
    let ghost t = tree.nodes@;
    if tree.kind_is(i, "string") || tree.kind_is(i, "encapsed_string") || tree.kind_is(i, "string_value") {
        let ghost before = values@;
        values.push(i);
        assert(values@.map_values(|x: usize| x as int) =~= before.map_values(|x: usize| x as int) + value_nodes(t, i as int));
        return;
    }
    let all = tree.kind_is(i, "array_creation_expression");
    let ghost base = values@.map_values(|x: usize| x as int);
    let n = tree.nodes[i].children.len();
    let mut j: usize = 0;
    while j < n
        invariant
            children_precede(t),
            t == tree.nodes@,
            i < t.len(),
            !is_value_string(t, i as int),
            all == (t[i as int].kind@ == "array_creation_expression"@),
            n == t[i as int].children@.len(),
            j <= n,
            values@.map_values(|x: usize| x as int) + value_nodes_children(t, i as int, j as int, all) == base + value_nodes(t, i as int),
        decreases n - j,
    {
        let c = tree.nodes[i].children[j];
        assert(c < i);
        let ghost before = values@.map_values(|x: usize| x as int);
        if all || is_string_like(tree, c) {
            extract_value_ranges(tree, c, values);
        }
        assert(values@.map_values(|x: usize| x as int) + value_nodes_children(t, i as int, j + 1, all) =~= before
            + value_nodes_children(t, i as int, j as int, all));
        j = j + 1;
    }
    assert(values@.map_values(|x: usize| x as int) =~= base + value_nodes(t, i as int));
}

/// Widens `span` over the `.` operators and blanks around it.
pub fn expand_to_operators(span: Span, source: &str) -> (r: Span)
    requires
        utf8(source@).len() < u32::MAX,
    ensures
        r == expanded_span(utf8(source@), span.start, span.end, 46u8),
{
    expand_around_operator(span, source, 46u8)
}

/// The segments of the `.` concatenation rooted at node `i`.
pub open spec fn concat_segments(t: Seq<SyntaxNode>, b: Seq<u8>, i: int) -> Seq<ConcatSegment>
    decreases i,
{
    if !(0 <= i < t.len()) {
        seq![]
    } else {
        let kind = t[i].kind@;
        let s = t[i].start as u32;
        let e = t[i].end as u32;
        if kind == "binary_expression"@ {
            match field_child(t, i, "operator"@) {
                Some(op) => if 0 <= op < t.len() && node_text(t, op, b) == "."@ {
                    let l = match field_child(t, i, "left"@) {
                        Some(l) => if 0 <= l < i {
                            concat_segments(t, b, l)
                        } else {
                            seq![]
                        },
                        None => seq![],
                    };
                    let r = match field_child(t, i, "right"@) {
                        Some(r) => if 0 <= r < i {
                            concat_segments(t, b, r)
                        } else {
                            seq![]
                        },
                        None => seq![],
                    };
                    l + r
                } else {
                    seq![]
                },
                None => seq![],
            }
        } else if kind == "string"@ || kind == "encapsed_string"@ || kind == "heredoc"@ || kind == "nowdoc"@ {
            seq![ConcatSegment::Text(php_string_shape(t, i, b))]
        } else if kind == "variable_name"@ || kind == "name"@ || kind == "member_access_expression"@
            || kind == "scoped_property_access_expression"@ || kind == "function_call_expression"@
            || kind == "member_call_expression"@ || kind == "scoped_call_expression"@ {
            seq![ConcatSegment::Variable(SpanShape { outer: expanded_span(b, s, e, 46u8), inner: Span { start: s, end: e } })]
        } else if kind == "integer"@ || kind == "float"@ || kind == "boolean"@ || kind == "true"@ || kind == "false"@ {
            seq![ConcatSegment::Primitive(SpanShape { outer: expanded_span(b, s, e, 46u8), inner: Span { start: s, end: e } })]
        } else if kind == "array_creation_expression"@ || kind == "object_creation_expression"@ {
            seq![ConcatSegment::Other]
        } else {
            seq![]
        }
    }
}

/// Extract the segments of the concatenation rooted at node `i`.
fn extract_concat_segments(tree: &SyntaxTree, i: usize, source: &str) -> (r: Vec<ConcatSegment>)
    requires
        tree.wf(utf8(source@)),
        i < tree.nodes@.len(),
    ensures
        r@ == concat_segments(tree.nodes@, utf8(source@), i as int),
        variables_ranged(r@, utf8(source@)),
    decreases i,
{
    let ghost t = tree.nodes@;
    let ghost b = utf8(source@);
    proof {
        assert(node_wf(t, i as int, b));
    }
    let s = tree.nodes[i].start as u32;
    let e = tree.nodes[i].end as u32;
    if tree.kind_is(i, "binary_expression") {
        match tree.child_by_field_name(i, "operator") {
            Some(op) => {
                proof {
                    assert(node_wf(t, op as int, b));
                }
                let op_text = tree.text_of(op, source);
                if text_eq(op_text.as_str(), ".") {
                    let mut segments: Vec<ConcatSegment> = Vec::new();
                    match tree.child_by_field_name(i, "left") {
                        Some(l) => {
                            segments = extract_concat_segments(tree, l, source);
                        },
                        None => {},
                    }
                    match tree.child_by_field_name(i, "right") {
                        Some(r) => {
                            let mut more = extract_concat_segments(tree, r, source);
                            segments.append(&mut more);
                        },
                        None => {},
                    }
                    return segments;
                }
                return Vec::new();
            },
            None => {
                return Vec::new();
            },
        }
    }
    if tree.kind_is(i, "string") || tree.kind_is(i, "encapsed_string") || tree.kind_is(i, "heredoc") || tree.kind_is(i, "nowdoc") {
        let span = span_shape_string_like(tree, i, source);
        return vec![ConcatSegment::Text(span)];
    }
    if tree.kind_is(i, "variable_name") || tree.kind_is(i, "name") || tree.kind_is(i, "member_access_expression")
        || tree.kind_is(i, "scoped_property_access_expression") || tree.kind_is(i, "function_call_expression")
        || tree.kind_is(i, "member_call_expression") || tree.kind_is(i, "scoped_call_expression") {
        let outer = Span { start: s, end: e };
        let expanded = expand_to_operators(outer, source);
        return vec![ConcatSegment::Variable(SpanShape { outer: expanded, inner: outer })];
    }
    if tree.kind_is(i, "integer") || tree.kind_is(i, "float") || tree.kind_is(i, "boolean") || tree.kind_is(i, "true")
        || tree.kind_is(i, "false") {
        let outer = Span { start: s, end: e };
        let expanded = expand_to_operators(outer, source);
        return vec![ConcatSegment::Primitive(SpanShape { outer: expanded, inner: outer })];
    }
    if tree.kind_is(i, "array_creation_expression") || tree.kind_is(i, "object_creation_expression") {
        return vec![ConcatSegment::Other];
    }
    Vec::new()
}

/// The prompt of the `.` concatenation at node `k`, if it is one: `None`
/// when the operator is not `.`, else as `segments_prompt` gives it.
pub open spec fn concat_prompt(ctx: DetectCtx, k: int, ann: Seq<AnnotationModel>, ss: u32, se: u32) -> Option<PromptModel> {
    let t = ctx.t;
    match field_child(t, k, "operator"@) {
        None => None,
        Some(op) => if !(0 <= op < t.len() && node_text(t, op, ctx.b) == "."@) {
            None
        } else {
            segments_prompt(ctx, concat_segments(t, ctx.b, k), Span { start: t[k].start as u32, end: t[k].end as u32 }, ann, ss, se)
        },
    }
}

/// Builds a prompt from a string concatenation (`"Hello " . $name . "!"`).
fn process_concatenation(
    tree: &SyntaxTree,
    k: usize,
    source: &str,
    filename: &str,
    stmt_start: u32,
    stmt_end: u32,
    comments: &CommentTracker,
    annotations: &Vec<PromptAnnotation>,
) -> (r: Option<Prompt>)
    requires
        detect_ready(tree, source, comments),
        k < tree.nodes@.len(),
        boundary_or_beyond(utf8(source@), stmt_start),
    ensures
        r matches Some(p) ==> concat_prompt(detect_ctx(tree, source, filename, comments), k as int, annotation_models(annotations@), stmt_start, stmt_end) == Some(p@),
        r is None ==> concat_prompt(detect_ctx(tree, source, filename, comments), k as int, annotation_models(annotations@), stmt_start, stmt_end) is None,
{
    let ghost ctx = detect_ctx(tree, source, filename, comments);
    let ghost t = tree.nodes@;
    let ghost b = utf8(source@);
    proof {
        assert(node_wf(t, k as int, b));
    }
    let op = match tree.child_by_field_name(k, "operator") {
        Some(op) => op,
        None => {
            return None;
        },
    };
    let op_text = tree.text_of(op, source);
    if !text_eq(op_text.as_str(), ".") {
        return None;
    }
    let segs = extract_concat_segments(tree, k, source);
    let outer = Span { start: tree.nodes[k].start as u32, end: tree.nodes[k].end as u32 };
    prompt_from_segments(segs, outer, source, filename, stmt_start, stmt_end, comments, annotations, Ghost(ctx))
}

/// Whether node `c` is a delimiter of a literal.
pub open spec fn is_delimiter(t: Seq<SyntaxNode>, c: int) -> bool {
    let k = t[c].kind@;
    k == "["@ || k == "]"@ || k == ","@ || k == "array"@ || k == "("@ || k == ")"@
}

/// Whether node `c` counts as a variable element: a variable, or a
/// function or method call when `calls` is set.
pub open spec fn is_element_var(t: Seq<SyntaxNode>, c: int, calls: bool) -> bool {
    t[c].kind@ == "variable_name"@ || t[c].kind@ == "simple_variable"@ || (calls && (t[c].kind@ == "function_call_expression"@
        || t[c].kind@ == "member_call_expression"@))
}

/// Whether node `c` is a string element.
pub open spec fn is_element_string(t: Seq<SyntaxNode>, c: int) -> bool {
    t[c].kind@ == "string"@ || t[c].kind@ == "encapsed_string"@
}

/// The walk over the children of node `i`, from the `j`-th on: a string adds
/// a text token over its inner range, a variable element adds a variable over
/// its range, a delimiter adds nothing, and any other node is walked into.
pub open spec fn elements_from(
    t: Seq<SyntaxNode>,
    b: Seq<u8>,
    i: int,
    j: int,
    calls: bool,
    joint: bool,
    acc: ElementsAcc,
) -> ElementsAcc
    decreases i, t[i].children@.len() - j,
{
    if 0 <= i < t.len() && 0 <= j < t[i].children@.len() {
        let c = t[i].children@[j] as int;
        let acc2 = if !(0 <= c < i) {
            acc
        } else if is_element_string(t, c) {
            acc.emit(joint, PromptContentToken::Str { span: php_string_shape(t, c, b).inner })
        } else if is_element_var(t, c, calls) {
            let sp = Span { start: t[c].start as u32, end: t[c].end as u32 };
            let a = acc.emit(joint, PromptContentToken::Var { span: sp, index: 0 });
            ElementsAcc { vars: a.vars.push(VarModel { exp: node_text(t, c, b), span: SpanShape { outer: sp, inner: sp } }), ..a }
        } else if is_delimiter(t, c) {
            acc
        } else {
            elements_from(t, b, c, 0, calls, joint, acc)
        };
        elements_from(t, b, i, j + 1, calls, joint, acc2)
    } else {
        acc
    }
}

/// The walk over the elements of node `i`, from an empty start.
pub open spec fn elements_of(t: Seq<SyntaxNode>, b: Seq<u8>, i: int, calls: bool, joint: bool) -> ElementsAcc {
    elements_from(t, b, i, 0, calls, joint, ElementsAcc { vars: seq![], content: seq![], first: true })
}

fn walk_elements(
    tree: &SyntaxTree,
    i: usize,
    source: &str,
    calls: bool,
    joint: bool,
    vars: &mut Vec<PromptVar>,
    content: &mut Vec<PromptContentToken>,
    first: &mut bool,
)
    requires
        tree.wf(utf8(source@)),
        i < tree.nodes@.len(),
    ensures
        ({
            let r = elements_from(
                tree.nodes@,
                utf8(source@),
                i as int,
                0,
                calls,
                joint,
                ElementsAcc { vars: var_models(old(vars)@), content: old(content)@, first: *old(first) },
            );
            var_models(final(vars)@) == r.vars && final(content)@ == r.content && *final(first) == r.first
        }),
    decreases i,
{
    let ghost t = tree.nodes@;
    let ghost b = utf8(source@);
    let ghost acc0 = ElementsAcc { vars: var_models(vars@), content: content@, first: *first };
    proof {
        lemma_wf_children_precede(tree, b);
    }
    let n = tree.nodes[i].children.len();
    let mut j: usize = 0;
    while j < n
        invariant
            tree.wf(b),
            b == utf8(source@),
            t == tree.nodes@,
            children_precede(t),
            i < t.len(),
            n == t[i as int].children@.len(),
            j <= n,
            elements_from(t, b, i as int, j as int, calls, joint, ElementsAcc { vars: var_models(vars@), content: content@, first: *first })
                == elements_from(t, b, i as int, 0, calls, joint, acc0),
        decreases n - j,
    {
        let c = tree.nodes[i].children[j];
        assert(c < i);
        proof {
            assert(node_wf(t, c as int, b));
        }
        let ghost acc = ElementsAcc { vars: var_models(vars@), content: content@, first: *first };
        if tree.kind_is(c, "string") || tree.kind_is(c, "encapsed_string") {
            if !*first && joint {
                content.push(PromptContentToken::Joint);
            }
            *first = false;
            let span = span_shape_string_like(tree, c, source);
            content.push(PromptContentToken::Str { span: span.inner });
        } else if tree.kind_is(c, "variable_name") || tree.kind_is(c, "simple_variable") || (calls && (tree.kind_is(
            c,
            "function_call_expression",
        ) || tree.kind_is(c, "member_call_expression"))) {
            if !*first && joint {
                content.push(PromptContentToken::Joint);
            }
            *first = false;
            let sp = Span { start: tree.nodes[c].start as u32, end: tree.nodes[c].end as u32 };
            let exp = tree.text_of(c, source);
            let ghost before = var_models(vars@);
            vars.push(PromptVar { exp, span: SpanShape { outer: sp, inner: sp } });
            assert(var_models(vars@) =~= before.push(VarModel { exp: node_text(t, c as int, b), span: SpanShape { outer: sp, inner: sp } }));
            content.push(PromptContentToken::Var { span: sp, index: 0 });
        } else if tree.kind_is(c, "[") || tree.kind_is(c, "]") || tree.kind_is(c, ",") || tree.kind_is(c, "array")
            || tree.kind_is(c, "(") || tree.kind_is(c, ")") {
        } else {
            walk_elements(tree, c, source, calls, joint, vars, content, first);
        }
        j = j + 1;
    }
}

/// The elements of node `k`, from an empty start.
fn collect_elements(tree: &SyntaxTree, k: usize, source: &str, calls: bool, joint: bool) -> (r: (
    Vec<PromptVar>,
    Vec<PromptContentToken>,
))
    requires
        tree.wf(utf8(source@)),
        k < tree.nodes@.len(),
    ensures
        var_models(r.0@) == elements_of(tree.nodes@, utf8(source@), k as int, calls, joint).vars,
        r.1@ == elements_of(tree.nodes@, utf8(source@), k as int, calls, joint).content,
{
    let mut vars: Vec<PromptVar> = Vec::new();
    let mut content: Vec<PromptContentToken> = Vec::new();
    let mut first = true;
    assert(var_models(vars@) =~= Seq::<VarModel>::empty());
    assert(content@ =~= Seq::<PromptContentToken>::empty());
    walk_elements(tree, k, source, calls, joint, &mut vars, &mut content, &mut first);
    (vars, content)
}

/// The node that names the function of call `k`: its `function` field, or
/// else its `name` field.
pub open spec fn function_name_node(t: Seq<SyntaxNode>, k: int) -> Option<int> {
    match field_child(t, k, "function"@) {
        Some(f) => Some(f),
        None => field_child(t, k, "name"@),
    }
}

/// The node that names the function of call `k`.
fn function_name_node_exec(tree: &SyntaxTree, k: usize) -> (r: Option<usize>)
    requires
        children_precede(tree.nodes@),
        k < tree.nodes@.len(),
    ensures
        r matches Some(f) ==> function_name_node(tree.nodes@, k as int) == Some(f as int) && f < k,
        r is None ==> function_name_node(tree.nodes@, k as int) is None,
{
    match tree.child_by_field_name(k, "function") {
        Some(f) => Some(f),
        None => tree.child_by_field_name(k, "name"),
    }
}

/// The first child of node `i`, from the `j`-th on, that is string-like.
pub open spec fn string_like_child(t: Seq<SyntaxNode>, i: int, j: int) -> Option<int>
    decreases t[i].children@.len() - j,
{
    if 0 <= i < t.len() && 0 <= j < t[i].children@.len() {
        let c = t[i].children@[j] as int;
        if php_string_like(t, c) {
            Some(c)
        } else {
            string_like_child(t, i, j + 1)
        }
    } else {
        None
    }
}

/// The first string-like child of node `i`.
fn string_like_child_exec(tree: &SyntaxTree, i: usize) -> (r: Option<usize>)
    requires
        children_precede(tree.nodes@),
        i < tree.nodes@.len(),
    ensures
        r matches Some(c) ==> string_like_child(tree.nodes@, i as int, 0) == Some(c as int) && c < i,
        r is None ==> string_like_child(tree.nodes@, i as int, 0) is None,
{
    let ghost t = tree.nodes@;
    let n = tree.nodes[i].children.len();
    let mut j: usize = 0;
    while j < n
        invariant
            t == tree.nodes@,
            children_precede(t),
            i < t.len(),
            n == t[i as int].children@.len(),
            j <= n,
            string_like_child(t, i as int, 0) == string_like_child(t, i as int, j as int),
        decreases n - j,
    {
        let c = tree.nodes[i].children[j];
        assert(c < i);
        if is_string_like(tree, c) {
            return Some(c);
        }
        j = j + 1;
    }
    None
}

/// The prompt of a `sprintf` or `printf` call at node `k`, if it is one: its
/// first argument, or the first string-like child of it, is the format.
pub open spec fn sprintf_prompt(ctx: DetectCtx, k: int, ann: Seq<AnnotationModel>, ss: u32, se: u32) -> Option<PromptModel> {
    let t = ctx.t;
    let b = ctx.b;
    match function_name_node(t, k) {
        None => None,
        Some(f) => if !(node_text(t, f, b) == "sprintf"@ || node_text(t, f, b) == "printf"@) {
            None
        } else {
            match field_child(t, k, "arguments"@) {
                None => None,
                Some(a) => {
                    let args = named_args(t, a, 0);
                    if args.len() == 0 {
                        None
                    } else {
                        let fmt = if php_string_like(t, args[0]) {
                            Some(args[0])
                        } else {
                            string_like_child(t, args[0], 0)
                        };
                        match fmt {
                            None => None,
                            Some(fm) => format_prompt(ctx, k, php_string_shape(t, fm, b), args, ann, ss, se),
                        }
                    }
                },
            }
        },
    }
}

/// Process sprintf/printf function call: sprintf("Hello %s", $name)
fn process_sprintf_call(
    tree: &SyntaxTree,
    k: usize,
    source: &str,
    filename: &str,
    stmt_start: u32,
    stmt_end: u32,
    comments: &CommentTracker,
    annotations: &Vec<PromptAnnotation>,
) -> (r: Option<Prompt>)
    requires
        detect_ready(tree, source, comments),
        k < tree.nodes@.len(),
        boundary_or_beyond(utf8(source@), stmt_start),
    ensures
        r matches Some(p) ==> sprintf_prompt(detect_ctx(tree, source, filename, comments), k as int, annotation_models(annotations@), stmt_start, stmt_end) == Some(p@),
        r is None ==> sprintf_prompt(detect_ctx(tree, source, filename, comments), k as int, annotation_models(annotations@), stmt_start, stmt_end) is None,
{
    let ghost t = tree.nodes@;
    let ghost b = utf8(source@);
    proof {
        lemma_wf_children_precede(tree, b);
    }
    let f = match function_name_node_exec(tree, k) {
        Some(f) => f,
        None => {
            return None;
        },
    };
    let func_name = tree.text_of(f, source);
    if !text_eq(func_name.as_str(), "sprintf") && !text_eq(func_name.as_str(), "printf") {
        return None;
    }
    let a = match tree.child_by_field_name(k, "arguments") {
        Some(a) => a,
        None => {
            return None;
        },
    };
    let args = collect_named_args(tree, a);
    let ghost ga = named_args(t, a as int, 0);
    if args.len() == 0 {
        return None;
    }
    let first = args[0];
    let fmt = if is_string_like(tree, first) {
        first
    } else {
        match string_like_child_exec(tree, first) {
            Some(c) => c,
            None => {
                return None;
            },
        }
    };
    let fs = span_shape_string_like(tree, fmt, source);
    assert(args@.map_values(|x: usize| x as int) =~= ga);
    prompt_from_format(tree, k, fs, &args, source, filename, stmt_start, stmt_end, comments, annotations)
}

/// The prompt of the array at node `k`.
pub open spec fn array_prompt(ctx: DetectCtx, k: int, ann: Seq<AnnotationModel>, ss: u32, se: u32) -> PromptModel {
    let els = elements_of(ctx.t, ctx.b, k, true, false);
    let s = ctx.t[k].start as int;
    let e = ctx.t[k].end as int;
    let span = SpanShape { outer: Span { start: s as u32, end: e as u32 }, inner: Span { start: (s + 1) as u32, end: sat_sub(e, 1) } };
    make_prompt(ctx, span, els.vars, ann, els.content, empty_shape(), ss, se)
}

/// Process an array: ["Hello ", $user, "!"]
fn process_array(
    tree: &SyntaxTree,
    k: usize,
    source: &str,
    filename: &str,
    stmt_start: u32,
    stmt_end: u32,
    comments: &CommentTracker,
    annotations: &Vec<PromptAnnotation>,
) -> (r: Prompt)
    requires
        detect_ready(tree, source, comments),
        k < tree.nodes@.len(),
        boundary_or_beyond(utf8(source@), stmt_start),
    ensures
        r@ == array_prompt(detect_ctx(tree, source, filename, comments), k as int, annotation_models(annotations@), stmt_start, stmt_end),
{
    let ghost ctx = detect_ctx(tree, source, filename, comments);
    proof {
        assert(node_wf(tree.nodes@, k as int, utf8(source@)));
    }
    let (vars, content) = collect_elements(tree, k, source, true, false);
    let s = tree.nodes[k].start as u32;
    let e = tree.nodes[k].end as u32;
    let es = enclosure_start_exec(comments, stmt_start, Ghost(ctx));
    let joint = SpanShape { outer: Span { start: 0, end: 0 }, inner: Span { start: 0, end: 0 } };
    build_prompt(source, filename, SpanShape { outer: Span { start: s, end: e }, inner: Span { start: s + 1, end: e.saturating_sub(1) } }, vars, annotations, content, joint, es, stmt_end)
}

/// The separator and array arguments of an `implode` argument list `a`,
/// scanning its children from the `j`-th on with `cnt` arguments seen: a
/// string when it is the first argument, an array when it is the second,
/// each looked for inside an `argument` wrapper or standing alone.
pub open spec fn implode_args(t: Seq<SyntaxNode>, a: int, j: int, cnt: int, sep: Option<int>, arr: Option<int>) -> (
    Option<int>,
    Option<int>,
)
    decreases t[a].children@.len() - j,
{
    if 0 <= a < t.len() && 0 <= j < t[a].children@.len() {
        let c = t[a].children@[j] as int;
        let v = if 0 <= c < t.len() && t[c].kind@ == "argument"@ {
            if t[c].children@.len() > 0 {
                Some(t[c].children@[0] as int)
            } else {
                None
            }
        } else {
            Some(c)
        };
        match v {
            Some(x) => if 0 <= x < t.len() && is_element_string(t, x) {
                implode_args(t, a, j + 1, cnt + 1, if cnt == 0 { Some(x) } else { sep }, arr)
            } else if 0 <= x < t.len() && t[x].kind@ == "array_creation_expression"@ {
                implode_args(t, a, j + 1, cnt + 1, sep, if cnt == 1 { Some(x) } else { arr })
            } else {
                implode_args(t, a, j + 1, cnt, sep, arr)
            },
            None => implode_args(t, a, j + 1, cnt, sep, arr),
        }
    } else {
        (sep, arr)
    }
}

/// The prompt of an `implode` or `join` call at node `k`, if it is one: the
/// array's elements become text and variable tokens, with a joint token
/// between them when there is a separator string, whose span is the
/// prompt's joint.
pub open spec fn implode_prompt(ctx: DetectCtx, k: int, ann: Seq<AnnotationModel>, ss: u32, se: u32) -> Option<PromptModel> {
    let t = ctx.t;
    let b = ctx.b;
    match function_name_node(t, k) {
        None => None,
        Some(f) => if !(node_text(t, f, b) == "implode"@ || node_text(t, f, b) == "join"@) {
            None
        } else {
            match field_child(t, k, "arguments"@) {
                None => None,
                Some(a) => {
                    let (sep, arr) = implode_args(t, a, 0, 0, None, None);
                    match arr {
                        None => None,
                        Some(ar) => {
                            let joint = match sep {
                                Some(sp) => php_string_shape(t, sp, b),
                                None => empty_shape(),
                            };
                            let has_joint = joint.outer.start != 0 || joint.outer.end != 0;
                            let els = elements_of(t, b, ar, false, has_joint);
                            let s = t[ar].start as int;
                            let e = t[ar].end as int;
                            let span = SpanShape {
                                outer: Span { start: t[k].start as u32, end: t[k].end as u32 },
                                inner: Span { start: (s + 1) as u32, end: sat_sub(e, 1) },
                            };
                            Some(make_prompt(ctx, span, els.vars, ann, els.content, joint, ss, se))
                        },
                    }
                },
            }
        },
    }
}

/// Process an implode call: implode("\n", ["Hello", $user, "!"])
fn process_implode_call(
    tree: &SyntaxTree,
    k: usize,
    source: &str,
    filename: &str,
    stmt_start: u32,
    stmt_end: u32,
    comments: &CommentTracker,
    annotations: &Vec<PromptAnnotation>,
) -> (r: Option<Prompt>)
    requires
        detect_ready(tree, source, comments),
        k < tree.nodes@.len(),
        boundary_or_beyond(utf8(source@), stmt_start),
    ensures
        r matches Some(p) ==> implode_prompt(detect_ctx(tree, source, filename, comments), k as int, annotation_models(annotations@), stmt_start, stmt_end) == Some(p@),
        r is None ==> implode_prompt(detect_ctx(tree, source, filename, comments), k as int, annotation_models(annotations@), stmt_start, stmt_end) is None,
{
    let ghost ctx = detect_ctx(tree, source, filename, comments);
    let ghost t = tree.nodes@;
    let ghost b = utf8(source@);
    proof {
        lemma_wf_children_precede(tree, b);
    }
    let f = match function_name_node_exec(tree, k) {
        Some(f) => f,
        None => {
            return None;
        },
    };
    let func_text = tree.text_of(f, source);
    if !text_eq(func_text.as_str(), "implode") && !text_eq(func_text.as_str(), "join") {
        return None;
    }
    let a = match tree.child_by_field_name(k, "arguments") {
        Some(a) => a,
        None => {
            return None;
        },
    };
    let mut sep_node: Option<usize> = None;
    let mut array_node: Option<usize> = None;
    let mut arg_count: usize = 0;
    let n = tree.nodes[a].children.len();
    let mut j: usize = 0;
    while j < n
        invariant
            t == tree.nodes@,
            children_precede(t),
            a < t.len(),
            n == t[a as int].children@.len(),
            j <= n,
            arg_count <= j,
            array_node matches Some(x) ==> x < a,
            sep_node matches Some(x) ==> x < a,
            implode_args(t, a as int, 0, 0, None, None) == implode_args(
                t,
                a as int,
                j as int,
                arg_count as int,
                match sep_node { Some(x) => Some(x as int), None => None },
                match array_node { Some(x) => Some(x as int), None => None },
            ),
        decreases n - j,
    {
        let c = tree.nodes[a].children[j];
        assert(c < a);
        let v = if tree.kind_is(c, "argument") {
            if tree.nodes[c].children.len() > 0 {
                let x = tree.nodes[c].children[0];
                assert(x < c);
                Some(x)
            } else {
                None
            }
        } else {
            Some(c)
        };
        match v {
            Some(x) => {
                if tree.kind_is(x, "string") || tree.kind_is(x, "encapsed_string") {
                    if arg_count == 0 {
                        sep_node = Some(x);
                    }
                    arg_count = arg_count + 1;
                } else if tree.kind_is(x, "array_creation_expression") {
                    if arg_count == 1 {
                        array_node = Some(x);
                    }
                    arg_count = arg_count + 1;
                }
            },
            None => {},
        }
        j = j + 1;
    }
    let array = match array_node {
        Some(x) => x,
        None => {
            return None;
        },
    };
    let joint = match sep_node {
        Some(sp) => span_shape_string_like(tree, sp, source),
        None => SpanShape { outer: Span { start: 0, end: 0 }, inner: Span { start: 0, end: 0 } },
    };
    let has_joint = joint.outer.start != 0 || joint.outer.end != 0;
    let (vars, content) = collect_elements(tree, array, source, false, has_joint);
    proof {
        assert(node_wf(t, array as int, b));
        assert(node_wf(t, k as int, b));
    }
    let s = tree.nodes[array].start as u32;
    let e = tree.nodes[array].end as u32;
    let outer = Span { start: tree.nodes[k].start as u32, end: tree.nodes[k].end as u32 };
    let es = enclosure_start_exec(comments, stmt_start, Ghost(ctx));
    Some(build_prompt(source, filename, SpanShape { outer, inner: Span { start: s + 1, end: e.saturating_sub(1) } }, vars, annotations, content, joint, es, stmt_end))
}

/// Whether node `k` is a call whose value can make a prompt.
pub open spec fn is_call(t: Seq<SyntaxNode>, k: int) -> bool {
    t[k].kind@ == "function_call_expression"@ || t[k].kind@ == "member_call_expression"@ || t[k].kind@
        == "scoped_call_expression"@
}

/// The value at the end of a chain of assignments that starts at node `r`:
/// `r` itself unless it is an assignment with a right side.
pub open spec fn chain_value(t: Seq<SyntaxNode>, r: int) -> int
    decreases r,
{
    if 0 <= r < t.len() && t[r].kind@ == "assignment_expression"@ {
        match field_child(t, r, "right"@) {
            Some(cr) => if 0 <= cr < r {
                chain_value(t, cr)
            } else {
                r
            },
            None => r,
        }
    } else {
        r
    }
}

/// The value at the end of the chain of assignments that starts at node `r`.
fn chain_value_exec(tree: &SyntaxTree, r: usize) -> (v: usize)
    requires
        r < tree.nodes@.len(),
        children_precede(tree.nodes@),
    ensures
        v == chain_value(tree.nodes@, r as int),
        v <= r,
    decreases r,
{
    if tree.kind_is(r, "assignment_expression") {
        match tree.child_by_field_name(r, "right") {
            Some(cr) => chain_value_exec(tree, cr),
            None => r,
        }
    } else {
        r
    }
}

/// A simple assignment of the value node `r` to `ident`: when `ident` is a
/// prompt variable it is declared; a chained assignment declares its left
/// side too, assigns the rest of the chain to `ident` and the chain's final
/// value to its left side, so that each variable of the chain gets one
/// prompt; a string, a
/// concatenation, an `implode` or `sprintf` call or an array gives a prompt.
pub open spec fn ident_assign(
    ctx: DetectCtx,
    st: DetectState,
    ident: Seq<char>,
    r: int,
    has_ann: bool,
    ann: Seq<AnnotationModel>,
    ss: u32,
    se: u32,
) -> DetectState
    decreases r,
{
    let t = ctx.t;
    if !(0 <= r < t.len()) || !is_prompt_variable(st.scopes, ident, has_ann) {
        st
    } else {
        let st1 = declared(st, ident, has_ann, ann);
        if t[r].kind@ == "assignment_expression"@ {
            let cl = field_child(t, r, "left"@);
            let st2 = match cl {
                Some(c) => declared(st1, node_text(t, c, ctx.b), has_ann, ann),
                None => st1,
            };
            match field_child(t, r, "right"@) {
                Some(cr) => if 0 <= cr < r {
                    let st3 = ident_assign(ctx, st2, ident, cr, has_ann, ann, ss, se);
                    let v = chain_value(t, cr);
                    match cl {
                        Some(c) => if 0 <= v <= cr {
                            ident_assign(ctx, st3, node_text(t, c, ctx.b), v, has_ann, ann, ss, se)
                        } else {
                            st3
                        },
                        None => st3,
                    }
                } else {
                    st2
                },
                None => st2,
            }
        } else {
            let fa = final_annotations(st1, ident, ann);
            if php_string_like(t, r) {
                st1.push(php_string_prompt(ctx, r, fa, ss, se))
            } else if t[r].kind@ == "binary_expression"@ {
                st1.push_some(concat_prompt(ctx, r, fa, ss, se))
            } else if is_call(t, r) {
                match implode_prompt(ctx, r, fa, ss, se) {
                    Some(p) => st1.push(p),
                    None => st1.push_some(sprintf_prompt(ctx, r, fa, ss, se)),
                }
            } else if t[r].kind@ == "array_creation_expression"@ {
                st1.push(array_prompt(ctx, r, fa, ss, se))
            } else {
                st1
            }
        }
    }
}

/// The multi-assignment of the values `vals` to the identifiers `idents`,
/// from the `q`-th on: an identifier that is a prompt variable, paired with
/// a string, is marked and gives a prompt ranged by the string node.
pub open spec fn multi_from(
    ctx: DetectCtx,
    st: DetectState,
    idents: Seq<Seq<char>>,
    vals: Seq<int>,
    q: int,
    has_ann: bool,
    ann: Seq<AnnotationModel>,
    ss: u32,
    se: u32,
) -> DetectState
    decreases idents.len() - q,
{
    if 0 <= q < idents.len() {
        let st1 = if q < vals.len() && is_prompt_variable(st.scopes, idents[q], has_ann) && (ctx.t[vals[q]].kind@ == "string"@
            || ctx.t[vals[q]].kind@ == "encapsed_string"@) {
            st.mark(idents[q]).push(range_prompt(ctx, vals[q], ann, ss, se))
        } else {
            st
        };
        multi_from(ctx, st1, idents, vals, q + 1, has_ann, ann, ss, se)
    } else {
        st
    }
}

/// The assignment expression at node `i`.
pub open spec fn assignment(ctx: DetectCtx, st: DetectState, i: int) -> DetectState {
    let t = ctx.t;
    let ss = t[i].start as u32;
    let se = t[i].end as u32;
    let ann = statement_annotations(ctx, ss, se);
    let has_ann = ann.len() > 0;
    match (field_child(t, i, "left"@), field_child(t, i, "right"@)) {
        (Some(l), Some(r)) => if t[l].kind@ == "variable_name"@ || t[l].kind@ == "simple_variable"@ {
            ident_assign(ctx, st, node_text(t, l, ctx.b), r, has_ann, ann, ss, se)
        } else if t[l].kind@ == "list_literal"@ {
            multi_from(ctx, st, php_identifiers_in(t, l, ctx.b), value_nodes(t, r), 0, has_ann, ann, ss, se)
        } else {
            st
        },
        _ => st,
    }
}

/// The walk of node `i`'s subtree: function, class and method declarations
/// open a scope around their children; assignments, alone or as the first
/// child of an expression statement, are processed and not walked into;
/// other nodes are walked through.
pub open spec fn traverse(ctx: DetectCtx, st: DetectState, i: int) -> DetectState
    decreases i, ctx.t[i].children@.len() + 1,
{
    let t = ctx.t;
    if 0 <= i < t.len() {
        let kind = t[i].kind@;
        if kind == "function_definition"@ || kind == "class_declaration"@ || kind == "method_declaration"@ {
            traverse_children(ctx, st.enter(), i, 0).exit()
        } else if kind == "expression_statement"@ && t[i].children@.len() > 0 && 0 <= t[i].children@[0] < t.len()
            && t[t[i].children@[0] as int].kind@ == "assignment_expression"@ {
            assignment(ctx, st, t[i].children@[0] as int)
        } else if kind == "assignment_expression"@ {
            assignment(ctx, st, i)
        } else {
            traverse_children(ctx, st, i, 0)
        }
    } else {
        st
    }
}

/// The walk of the subtrees of node `i`'s children, from the `j`-th on.
pub open spec fn traverse_children(ctx: DetectCtx, st: DetectState, i: int, j: int) -> DetectState
    decreases i, ctx.t[i].children@.len() - j,
{
    let t = ctx.t;
    if 0 <= i < t.len() && 0 <= j < t[i].children@.len() {
        let c = t[i].children@[j] as int;
        if 0 <= c < i {
            traverse_children(ctx, traverse(ctx, st, c), i, j + 1)
        } else {
            traverse_children(ctx, st, i, j + 1)
        }
    } else {
        st
    }
}

/// Process a simple identifier assignment.
fn process_identifier_assignment(
    tree: &SyntaxTree,
    ident_name: &str,
    r: usize,
    has_prompt_annotation: bool,
    annotations: &Vec<PromptAnnotation>,
    stmt_start: u32,
    stmt_end: u32,
    source: &str,
    filename: &str,
    comments: &CommentTracker,
    scopes: &mut ScopeTracker,
    prompts: &mut Vec<Prompt>,
)
    requires
        detect_ready(tree, source, comments),
        old(scopes).wf(),
        r < tree.nodes@.len(),
        boundary_or_beyond(utf8(source@), stmt_start),
    ensures
        final(scopes).wf(),
        detect_state(*final(scopes), final(prompts)@) == ident_assign(
            detect_ctx(tree, source, filename, comments),
            detect_state(*old(scopes), old(prompts)@),
            ident_name@,
            r as int,
            has_prompt_annotation,
            annotation_models(annotations@),
            stmt_start,
            stmt_end,
        ),
    decreases r,
{
    let ghost ctx = detect_ctx(tree, source, filename, comments);
    let ghost t = tree.nodes@;
    let ghost b = utf8(source@);
    proof {
        lemma_wf_children_precede(tree, b);
    }
    if !is_prompt_variable_exec(ident_name, has_prompt_annotation, scopes) {
        return;
    }
    declare(scopes, ident_name, has_prompt_annotation, annotations, Ghost(prompts@));
    if tree.kind_is(r, "assignment_expression") {
        let cl = tree.child_by_field_name(r, "left");
        match cl {
            Some(c) => {
                let chained = tree.text_of(c, source);
                declare(scopes, chained.as_str(), has_prompt_annotation, annotations, Ghost(prompts@));
            },
            None => {},
        }
        match tree.child_by_field_name(r, "right") {
            Some(cr) => {
                process_identifier_assignment(
                    tree,
                    ident_name,
                    cr,
                    has_prompt_annotation,
                    annotations,
                    stmt_start,
                    stmt_end,
                    source,
                    filename,
                    comments,
                    scopes,
                    prompts,
                );
                let v = chain_value_exec(tree, cr);
                match cl {
                    Some(c) => {
                        let chained = tree.text_of(c, source);
                        process_identifier_assignment(
                            tree,
                            chained.as_str(),
                            v,
                            has_prompt_annotation,
                            annotations,
                            stmt_start,
                            stmt_end,
                            source,
                            filename,
                            comments,
                            scopes,
                            prompts,
                        );
                    },
                    None => {},
                }
            },
            None => {},
        }
        return;
    }
    let fa = final_annotations_exec(scopes, ident_name, annotations);
    if is_string_like(tree, r) {
        let p = create_prompt_from_string(tree, r, source, filename, stmt_start, stmt_end, comments, &fa);
        push_some(prompts, Some(p));
    } else if tree.kind_is(r, "binary_expression") {
        let p = process_concatenation(tree, r, source, filename, stmt_start, stmt_end, comments, &fa);
        push_some(prompts, p);
    } else if tree.kind_is(r, "function_call_expression") || tree.kind_is(r, "member_call_expression") || tree.kind_is(
        r,
        "scoped_call_expression",
    ) {
        match process_implode_call(tree, r, source, filename, stmt_start, stmt_end, comments, &fa) {
            Some(p) => push_some(prompts, Some(p)),
            None => {
                let p = process_sprintf_call(tree, r, source, filename, stmt_start, stmt_end, comments, &fa);
                push_some(prompts, p);
            },
        }
    } else if tree.kind_is(r, "array_creation_expression") {
        let p = process_array(tree, r, source, filename, stmt_start, stmt_end, comments, &fa);
        push_some(prompts, Some(p));
    }
}

/// Process multi-assignment (destructuring).
fn process_multi_assignment(
    tree: &SyntaxTree,
    l: usize,
    r: usize,
    has_prompt_annotation: bool,
    annotations: &Vec<PromptAnnotation>,
    stmt_start: u32,
    stmt_end: u32,
    source: &str,
    filename: &str,
    comments: &CommentTracker,
    scopes: &mut ScopeTracker,
    prompts: &mut Vec<Prompt>,
)
    requires
        detect_ready(tree, source, comments),
        old(scopes).wf(),
        l < tree.nodes@.len(),
        r < tree.nodes@.len(),
        boundary_or_beyond(utf8(source@), stmt_start),
    ensures
        final(scopes).wf(),
        detect_state(*final(scopes), final(prompts)@) == multi_from(
            detect_ctx(tree, source, filename, comments),
            detect_state(*old(scopes), old(prompts)@),
            php_identifiers_in(tree.nodes@, l as int, utf8(source@)),
            value_nodes(tree.nodes@, r as int),
            0,
            has_prompt_annotation,
            annotation_models(annotations@),
            stmt_start,
            stmt_end,
        ),
{
    let ghost ctx = detect_ctx(tree, source, filename, comments);
    let ghost t = tree.nodes@;
    let ghost b = utf8(source@);
    let ghost st0 = detect_state(*scopes, prompts@);
    proof {
        lemma_wf_children_precede(tree, b);
        lemma_value_nodes_bounded(t, r as int);
    }
    let mut identifiers: Vec<String> = Vec::new();
    extract_identifiers(tree, l, source, &mut identifiers);
    let ghost idents = php_identifiers_in(t, l as int, b);
    assert(string_views(identifiers@) =~= idents);
    let mut values: Vec<usize> = Vec::new();
    extract_value_ranges(tree, r, &mut values);
    let ghost vals = value_nodes(t, r as int);
    assert(values@.map_values(|x: usize| x as int) =~= vals);
    let mut q: usize = 0;
    while q < identifiers.len()
        invariant
            ctx == detect_ctx(tree, source, filename, comments),
            detect_ready(tree, source, comments),
            t == tree.nodes@,
            b == utf8(source@),
            scopes.wf(),
            string_views(identifiers@) == idents,
            values@.map_values(|x: usize| x as int) == vals,
            forall|m: int| 0 <= m < vals.len() ==> 0 <= #[trigger] vals[m] < t.len(),
            q <= identifiers@.len(),
            boundary_or_beyond(b, stmt_start),
            multi_from(ctx, detect_state(*scopes, prompts@), idents, vals, q as int, has_prompt_annotation, annotation_models(annotations@), stmt_start, stmt_end)
                == multi_from(ctx, st0, idents, vals, 0, has_prompt_annotation, annotation_models(annotations@), stmt_start, stmt_end),
        decreases identifiers@.len() - q,
    {
        let ident = identifiers[q].as_str();
        assert(ident@ == idents[q as int]);
        if q < values.len() {
            let v = values[q];
            assert(v as int == vals[q as int]);
            if is_prompt_variable_exec(ident, has_prompt_annotation, scopes) && (tree.kind_is(v, "string") || tree.kind_is(v, "encapsed_string")) {
                scopes.mark_prompt_ident(ident);
                let p = create_prompt_from_range(tree, v, source, filename, stmt_start, stmt_end, comments, annotations);
                push_some(prompts, Some(p));
            }
        }
        q = q + 1;
    }
}

/// Process an assignment node to extract prompts.
fn process_assignment(
    tree: &SyntaxTree,
    i: usize,
    source: &str,
    filename: &str,
    comments: &CommentTracker,
    scopes: &mut ScopeTracker,
    prompts: &mut Vec<Prompt>,
)
    requires
        detect_ready(tree, source, comments),
        old(scopes).wf(),
        i < tree.nodes@.len(),
    ensures
        final(scopes).wf(),
        detect_state(*final(scopes), final(prompts)@) == assignment(detect_ctx(tree, source, filename, comments), detect_state(*old(scopes), old(prompts)@), i as int),
{
    let ghost ctx = detect_ctx(tree, source, filename, comments);
    let ghost t = tree.nodes@;
    let ghost b = utf8(source@);
    proof {
        lemma_wf_children_precede(tree, b);
        assert(node_wf(t, i as int, b));
    }
    let ss = tree.nodes[i].start as u32;
    let se = tree.nodes[i].end as u32;
    let all = collect_statement_annotations(comments, ss, se, Ghost(ctx));
    let has_ann = all.len() > 0;
    let l = match tree.child_by_field_name(i, "left") {
        Some(l) => l,
        None => {
            return;
        },
    };
    let r = match tree.child_by_field_name(i, "right") {
        Some(r) => r,
        None => {
            return;
        },
    };
    if tree.kind_is(l, "variable_name") || tree.kind_is(l, "simple_variable") {
        let ident = tree.text_of(l, source);
        process_identifier_assignment(tree, ident.as_str(), r, has_ann, &all, ss, se, source, filename, comments, scopes, prompts);
    } else if tree.kind_is(l, "list_literal") {
        process_multi_assignment(tree, l, r, has_ann, &all, ss, se, source, filename, comments, scopes, prompts);
    }
}

/// Recursively traverse nodes to find assignments and manage scopes.
fn traverse_node(
    tree: &SyntaxTree,
    i: usize,
    source: &str,
    filename: &str,
    comments: &CommentTracker,
    scopes: &mut ScopeTracker,
    prompts: &mut Vec<Prompt>,
)
    requires
        detect_ready(tree, source, comments),
        old(scopes).wf(),
        i < tree.nodes@.len(),
    ensures
        final(scopes).wf(),
        detect_state(*final(scopes), final(prompts)@) == traverse(detect_ctx(tree, source, filename, comments), detect_state(*old(scopes), old(prompts)@), i as int),
    decreases i, 1nat,
{
    proof {
        lemma_wf_children_precede(tree, utf8(source@));
    }
    if tree.kind_is(i, "function_definition") || tree.kind_is(i, "class_declaration") || tree.kind_is(i, "method_declaration") {
        scopes.enter_scope();
        traverse_node_children(tree, i, source, filename, comments, scopes, prompts);
        scopes.exit_scope();
        return;
    }
    if tree.kind_is(i, "expression_statement") && tree.nodes[i].children.len() > 0 {
        let c = tree.nodes[i].children[0];
        if tree.kind_is(c, "assignment_expression") {
            process_assignment(tree, c, source, filename, comments, scopes, prompts);
            return;
        }
    }
    if tree.kind_is(i, "assignment_expression") {
        process_assignment(tree, i, source, filename, comments, scopes, prompts);
        return;
    }
    traverse_node_children(tree, i, source, filename, comments, scopes, prompts);
}

/// Traverses the children of node `i`, in order.
fn traverse_node_children(
    tree: &SyntaxTree,
    i: usize,
    source: &str,
    filename: &str,
    comments: &CommentTracker,
    scopes: &mut ScopeTracker,
    prompts: &mut Vec<Prompt>,
)
    requires
        detect_ready(tree, source, comments),
        old(scopes).wf(),
        i < tree.nodes@.len(),
    ensures
        final(scopes).wf(),
        detect_state(*final(scopes), final(prompts)@) == traverse_children(
            detect_ctx(tree, source, filename, comments),
            detect_state(*old(scopes), old(prompts)@),
            i as int,
            0,
        ),
    decreases i, 0nat,
{
    let ghost ctx = detect_ctx(tree, source, filename, comments);
    let ghost t = tree.nodes@;
    let ghost st0 = detect_state(*scopes, prompts@);
    proof {
        lemma_wf_children_precede(tree, utf8(source@));
    }
    let n = tree.nodes[i].children.len();
    let mut j: usize = 0;
    while j < n
        invariant
            ctx == detect_ctx(tree, source, filename, comments),
            detect_ready(tree, source, comments),
            children_precede(t),
            t == tree.nodes@,
            scopes.wf(),
            i < t.len(),
            n == t[i as int].children@.len(),
            j <= n,
            traverse_children(ctx, detect_state(*scopes, prompts@), i as int, j as int) == traverse_children(ctx, st0, i as int, 0),
        decreases n - j,
    {
        let c = tree.nodes[i].children[j];
        assert(c < i);
        traverse_node(tree, c, source, filename, comments, scopes, prompts);
        j = j + 1;
    }
}

/// What the detector finds in a well-formed tree with the sorted comment
/// list `cs`: the error message when the root has an error, otherwise the
/// prompts of a walk from the root.
pub open spec fn spec_detect_php(t: Seq<SyntaxNode>, root: int, b: Seq<u8>, file: Seq<char>, cs: Seq<CommentNode>) -> Result<Seq<PromptModel>, Seq<char>> {
    if t[root].has_error {
        Err(errors_message(t, b, root))
    } else {
        Ok(traverse(DetectCtx { t, b, file, cs }, initial_state(), root).prompts)
    }
}

/// Detects the prompts of a parsed PHP source.
pub fn detect_prompts(tree: &SyntaxTree, source: &str, filename: &str) -> (r: ParseResult)
    requires
        tree.wf(utf8(source@)),
    ensures
        exists|cs: Seq<CommentNode>| sorted_comments_of(tree.nodes@, tree.root as int, utf8(source@), cs)
            && result_view(r) == spec_detect_php(tree.nodes@, tree.root as int, utf8(source@), filename@, cs),
{
    let root = tree.root;
    let comments = CommentTracker::new(tree, source);
    let ghost cs = comments.comment_list();
    assert(sorted_comments_of(tree.nodes@, root as int, utf8(source@), cs));
    if tree.nodes[root].has_error {
        let error = format_tree_sitter_error(tree, root, source);
        let r = ParseResult::ParseResultError { error };
        assert(result_view(r) == spec_detect_php(tree.nodes@, root as int, utf8(source@), filename@, cs));
        return r;
    }
    let mut prompts: Vec<Prompt> = Vec::new();
    let mut scopes = ScopeTracker::new();
    assert(prompt_models(prompts@) =~= Seq::<PromptModel>::empty());
    assert(detect_state(scopes, prompts@) == initial_state());
    traverse_node(tree, root, source, filename, &comments, &mut scopes, &mut prompts);
    let r = ParseResult::ParseResultSuccess { prompts };
    assert(result_view(r) == spec_detect_php(tree.nodes@, root as int, utf8(source@), filename@, cs));
    r
}

/// The PHP prompt parser over tree-sitter.
pub struct ParserPhp {}

impl ParserPhp {
    /// Parses the source with the tree-sitter PHP grammar and detects its
    /// prompts. When no tree comes back, the result is the error "Failed to
    /// parse source"; otherwise it is what `detect_prompts` finds in that tree.
    pub fn parse(source: &str, filename: &str) -> (r: ParseResult)
        ensures
            parsed_models(Grammar::Php, source@) is None ==> (r matches ParseResult::ParseResultError { error } && error@
                == "Failed to parse source"@),
            parsed_models(Grammar::Php, source@) is Some ==> exists|t: SyntaxTree, cs: Seq<CommentNode>|
                node_models(t.nodes@) == parsed_models(Grammar::Php, source@).unwrap() && t.root + 1 == t.nodes@.len()
                    && t.wf(utf8(source@)) && sorted_comments_of(t.nodes@, t.root as int, utf8(source@), cs)
                    && result_view(r) == spec_detect_php(t.nodes@, t.root as int, utf8(source@), filename@, cs),
    {
        match parse_tree(Grammar::Php, source) {
            Some(tree) => detect_prompts(&tree, source, filename),
            None => ParseResult::ParseResultError { error: String::from_str("Failed to parse source") },
        }
    }
}

impl VolumenParser for ParserPhp {
    fn parse(source: &str, filename: &str) -> (r: ParseResult)
        ensures
            parsed_models(Grammar::Php, source@) is None ==> (r matches ParseResult::ParseResultError { error } && error@
                == "Failed to parse source"@),
            parsed_models(Grammar::Php, source@) is Some ==> exists|t: SyntaxTree, cs: Seq<CommentNode>|
                node_models(t.nodes@) == parsed_models(Grammar::Php, source@).unwrap() && t.root + 1 == t.nodes@.len()
                    && t.wf(utf8(source@)) && sorted_comments_of(t.nodes@, t.root as int, utf8(source@), cs)
                    && result_view(r) == spec_detect_php(t.nodes@, t.root as int, utf8(source@), filename@, cs),
    {
        ParserPhp::parse(source, filename)
    }
}

proof fn lemma_ident_assign_keeps(
    ctx: DetectCtx,
    st: DetectState,
    ident: Seq<char>,
    r: int,
    has_ann: bool,
    ann: Seq<AnnotationModel>,
    ss: u32,
    se: u32,
)
    requires
        st.scopes.len() >= 1,
    ensures
        keeps(st, ident_assign(ctx, st, ident, r, has_ann, ann, ss, se)),
    decreases r,
{
    let t = ctx.t;
    lemma_keeps_refl(st);
    if 0 <= r < t.len() && is_prompt_variable(st.scopes, ident, has_ann) {
        let st1 = declared(st, ident, has_ann, ann);
        lemma_declared_keeps(st, ident, has_ann, ann, ctx.file_prompt(), None);
        if t[r].kind@ == "assignment_expression"@ {
            let cl = field_child(t, r, "left"@);
            let st2 = match cl {
                Some(c) => declared(st1, node_text(t, c, ctx.b), has_ann, ann),
                None => st1,
            };
            match cl {
                Some(c) => {
                    lemma_declared_keeps(st1, node_text(t, c, ctx.b), has_ann, ann, ctx.file_prompt(), None);
                },
                None => {
                    lemma_keeps_refl(st1);
                },
            }
            lemma_keeps_trans(st, st1, st2);
            match field_child(t, r, "right"@) {
                Some(cr) => if 0 <= cr < r {
                    lemma_ident_assign_keeps(ctx, st2, ident, cr, has_ann, ann, ss, se);
                    let st3 = ident_assign(ctx, st2, ident, cr, has_ann, ann, ss, se);
                    lemma_keeps_trans(st, st2, st3);
                    let v = chain_value(t, cr);
                    match cl {
                        Some(c) => if 0 <= v <= cr {
                            lemma_ident_assign_keeps(ctx, st3, node_text(t, c, ctx.b), v, has_ann, ann, ss, se);
                            lemma_keeps_trans(st, st3, ident_assign(ctx, st3, node_text(t, c, ctx.b), v, has_ann, ann, ss, se));
                        },
                        None => {},
                    }
                },
                None => {},
            }
        } else {
            let fa = final_annotations(st1, ident, ann);
            lemma_step_keeps(st1, ident, ann, php_string_prompt(ctx, r, fa, ss, se), concat_prompt(ctx, r, fa, ss, se));
            lemma_keeps_trans(st, st1, st1.push(php_string_prompt(ctx, r, fa, ss, se)));
            lemma_keeps_trans(st, st1, st1.push_some(concat_prompt(ctx, r, fa, ss, se)));
            lemma_step_keeps(st1, ident, ann, array_prompt(ctx, r, fa, ss, se), sprintf_prompt(ctx, r, fa, ss, se));
            lemma_keeps_trans(st, st1, st1.push(array_prompt(ctx, r, fa, ss, se)));
            lemma_keeps_trans(st, st1, st1.push_some(sprintf_prompt(ctx, r, fa, ss, se)));
            match implode_prompt(ctx, r, fa, ss, se) {
                Some(p) => {
                    lemma_step_keeps(st1, ident, ann, p, None);
                    lemma_keeps_trans(st, st1, st1.push(p));
                },
                None => {},
            }
        }
    }
}

proof fn lemma_multi_from_keeps(
    ctx: DetectCtx,
    st: DetectState,
    idents: Seq<Seq<char>>,
    vals: Seq<int>,
    q: int,
    has_ann: bool,
    ann: Seq<AnnotationModel>,
    ss: u32,
    se: u32,
)
    requires
        st.scopes.len() >= 1,
    ensures
        keeps(st, multi_from(ctx, st, idents, vals, q, has_ann, ann, ss, se)),
    decreases idents.len() - q,
{
    lemma_keeps_refl(st);
    if 0 <= q < idents.len() {
        let st1 = if q < vals.len() && is_prompt_variable(st.scopes, idents[q], has_ann) && (ctx.t[vals[q]].kind@ == "string"@
            || ctx.t[vals[q]].kind@ == "encapsed_string"@) {
            st.mark(idents[q]).push(range_prompt(ctx, vals[q], ann, ss, se))
        } else {
            st
        };
        let m = st.mark(idents[q]);
        lemma_step_keeps(st, idents[q], ann, ctx.file_prompt(), None);
        lemma_step_keeps(m, idents[q], ann, range_prompt(ctx, vals[q], ann, ss, se), None);
        lemma_keeps_trans(st, m, m.push(range_prompt(ctx, vals[q], ann, ss, se)));
        lemma_multi_from_keeps(ctx, st1, idents, vals, q + 1, has_ann, ann, ss, se);
        lemma_keeps_trans(st, st1, multi_from(ctx, st1, idents, vals, q + 1, has_ann, ann, ss, se));
    }
}

proof fn lemma_assignment_keeps(ctx: DetectCtx, st: DetectState, i: int)
    requires
        st.scopes.len() >= 1,
    ensures
        keeps(st, assignment(ctx, st, i)),
{
    let t = ctx.t;
    let ss = t[i].start as u32;
    let se = t[i].end as u32;
    let ann = statement_annotations(ctx, ss, se);
    let has_ann = ann.len() > 0;
    lemma_keeps_refl(st);
    match (field_child(t, i, "left"@), field_child(t, i, "right"@)) {
        (Some(l), Some(r)) => {
            lemma_ident_assign_keeps(ctx, st, node_text(t, l, ctx.b), r, has_ann, ann, ss, se);
            lemma_multi_from_keeps(ctx, st, php_identifiers_in(t, l, ctx.b), value_nodes(t, r), 0, has_ann, ann, ss, se);
        },
        _ => {},
    }
}

/// A walk keeps the depth of the scope stack (every scope it enters it
/// leaves) and only ever appends prompts: those found before it are kept
/// unchanged, in order.
pub proof fn law_walk_keeps_scopes_and_prompts(ctx: DetectCtx, st: DetectState, i: int)
    requires
        st.scopes.len() >= 1,
    ensures
        keeps(st, traverse(ctx, st, i)),
    decreases i, ctx.t[i].children@.len() + 1,
{
    let t = ctx.t;
    lemma_keeps_refl(st);
    if 0 <= i < t.len() {
        let kind = t[i].kind@;
        if kind == "function_definition"@ || kind == "class_declaration"@ || kind == "method_declaration"@ {
            lemma_walk_children_keeps(ctx, st.enter(), i, 0);
            lemma_scoped_keeps(st, traverse_children(ctx, st.enter(), i, 0));
        } else if kind == "expression_statement"@ && t[i].children@.len() > 0 && 0 <= t[i].children@[0] < t.len()
            && t[t[i].children@[0] as int].kind@ == "assignment_expression"@ {
            lemma_assignment_keeps(ctx, st, t[i].children@[0] as int);
        } else if kind == "assignment_expression"@ {
            lemma_assignment_keeps(ctx, st, i);
        } else {
            lemma_walk_children_keeps(ctx, st, i, 0);
        }
    }
}

proof fn lemma_walk_children_keeps(ctx: DetectCtx, st: DetectState, i: int, j: int)
    requires
        st.scopes.len() >= 1,
    ensures
        keeps(st, traverse_children(ctx, st, i, j)),
    decreases i, ctx.t[i].children@.len() - j,
{
    let t = ctx.t;
    lemma_keeps_refl(st);
    if 0 <= i < t.len() && 0 <= j < t[i].children@.len() {
        let c = t[i].children@[j] as int;
        if 0 <= c < i {
            law_walk_keeps_scopes_and_prompts(ctx, st, c);
            let s1 = traverse(ctx, st, c);
            lemma_walk_children_keeps(ctx, s1, i, j + 1);
            lemma_keeps_trans(st, s1, traverse_children(ctx, s1, i, j + 1));
        } else {
            lemma_walk_children_keeps(ctx, st, i, j + 1);
        }
    }
}

} // verus!

verus! {

/// Whether node `k` is a variable, a name, a member or scoped property
/// access, or a function, member or scoped call: an operand that a
/// concatenation takes as a variable.
pub open spec fn is_variable_operand(t: Seq<SyntaxNode>, k: int) -> bool {
    let kind = t[k].kind@;
    kind == "variable_name"@ || kind == "name"@ || kind == "member_access_expression"@ || kind
        == "scoped_property_access_expression"@ || kind == "function_call_expression"@ || kind
        == "member_call_expression"@ || kind == "scoped_call_expression"@
}

/// Every variable, name, property access or call operand of a `.`
/// concatenation gives a variable segment over that operand's range.
pub proof fn law_concat_operand_is_variable(t: Seq<SyntaxNode>, b: Seq<u8>, i: int, k: int)
    requires
        concat_operand(t, b, "binary_expression"@, "."@, i, k),
        is_variable_operand(t, k),
    ensures
        exists|q: int|
            0 <= q < concat_segments(t, b, i).len() && (#[trigger] concat_segments(t, b, i)[q] matches ConcatSegment::Variable(
                sp,
            ) && sp.inner == Span { start: t[k].start as u32, end: t[k].end as u32 }),
    decreases i,
{
    reveal_strlit("variable_name");
    reveal_strlit("name");
    reveal_strlit("member_access_expression");
    reveal_strlit("scoped_property_access_expression");
    reveal_strlit("function_call_expression");
    reveal_strlit("member_call_expression");
    reveal_strlit("scoped_call_expression");
    reveal_strlit("binary_expression");
    reveal_strlit("string");
    reveal_strlit("encapsed_string");
    reveal_strlit("heredoc");
    reveal_strlit("nowdoc");
    let segs = concat_segments(t, b, i);
    if t[i].kind@ == "binary_expression"@ && (field_child(t, i, "operator"@) matches Some(op) && 0 <= op < t.len()
        && node_text(t, op, b) == "."@) {
        let ls = match field_child(t, i, "left"@) {
            Some(l) => if 0 <= l < i { concat_segments(t, b, l) } else { seq![] },
            None => seq![],
        };
        let rs = match field_child(t, i, "right"@) {
            Some(r) => if 0 <= r < i { concat_segments(t, b, r) } else { seq![] },
            None => seq![],
        };
        assert(segs == ls + rs);
        let lo = field_child(t, i, "left"@);
        if lo is Some && 0 <= lo.unwrap() < i && concat_operand(t, b, "binary_expression"@, "."@, lo.unwrap(), k) {
            let l = lo.unwrap();
            law_concat_operand_is_variable(t, b, l, k);
            let q = choose|q: int|
                0 <= q < concat_segments(t, b, l).len() && (#[trigger] concat_segments(t, b, l)[q] matches ConcatSegment::Variable(
                    sp,
                ) && sp.inner == Span { start: t[k].start as u32, end: t[k].end as u32 });
            assert(segs[q] == ls[q]);
        } else {
            let r = field_child(t, i, "right"@).unwrap();
            law_concat_operand_is_variable(t, b, r, k);
            let q = choose|q: int|
                0 <= q < concat_segments(t, b, r).len() && (#[trigger] concat_segments(t, b, r)[q] matches ConcatSegment::Variable(
                    sp,
                ) && sp.inner == Span { start: t[k].start as u32, end: t[k].end as u32 });
            assert(segs[ls.len() + q] == rs[q]);
        }
    } else {
        assert(k == i);
        let st = t[i].start as u32;
        let en = t[i].end as u32;
        let sp = SpanShape { outer: expanded_span(b, st, en, 46u8), inner: Span { start: st, end: en } };
        assert("variable_name"@.len() == 13 && "name"@.len() == 4 && "member_access_expression"@.len() == 24
            && "scoped_property_access_expression"@.len() == 33 && "function_call_expression"@.len() == 24
            && "member_call_expression"@.len() == 22 && "scoped_call_expression"@.len() == 22);
        assert("binary_expression"@.len() == 17 && "string"@.len() == 6 && "encapsed_string"@.len() == 15
            && "heredoc"@.len() == 7 && "nowdoc"@.len() == 6);
        assert(t[i].kind@ != "binary_expression"@);
        assert(t[i].kind@ != "string"@ && t[i].kind@ != "encapsed_string"@ && t[i].kind@ != "heredoc"@ && t[i].kind@
            != "nowdoc"@);
        assert(segs =~= seq![ConcatSegment::Variable(sp)]);
        assert(segs[0] == ConcatSegment::Variable(sp));
    }
}

/// A prompt made of a `.` concatenation holds, for each of its variable,
/// name, property access or call operands, a variable with that operand's
/// range and text.
pub proof fn law_concat_prompt_keeps_operands(ctx: DetectCtx, i: int, ann: Seq<AnnotationModel>, ss: u32, se: u32, k: int)
    requires
        concat_operand(ctx.t, ctx.b, "binary_expression"@, "."@, i, k),
        is_variable_operand(ctx.t, k),
    ensures
        concat_prompt(ctx, i, ann, ss, se) matches Some(p) ==> exists|m: int|
            0 <= m < p.vars.len() && (#[trigger] p.vars[m]).span.inner == (Span {
                start: ctx.t[k].start as u32,
                end: ctx.t[k].end as u32,
            }) && p.vars[m].exp == range_text(ctx.b, p.vars[m].span.inner.start as int, p.vars[m].span.inner.end as int),
        concat_prompt(ctx, i, ann, ss, se) matches Some(p) ==> exists|m: int|
            0 <= m < p.content.len() && (#[trigger] p.content[m] matches PromptContentToken::Var { span, .. } && span == (Span {
                start: ctx.t[k].start as u32,
                end: ctx.t[k].end as u32,
            })),
{
    let t = ctx.t;
    if concat_prompt(ctx, i, ann, ss, se) is Some {
        let segs = concat_segments(t, ctx.b, i);
        let p = concat_prompt(ctx, i, ann, ss, se).unwrap();
        assert(p.vars == crate::detect::segment_vars(segs, ctx.b, 0));
        law_concat_operand_is_variable(t, ctx.b, i, k);
        let q = choose|q: int|
            0 <= q < segs.len() && (#[trigger] segs[q] matches ConcatSegment::Variable(sp) && sp.inner == Span {
                start: t[k].start as u32,
                end: t[k].end as u32,
            });
        let sp = segs[q]->Variable_0;
        crate::detect::lemma_segment_vars_has(segs, ctx.b, 0, q, sp);
        let toks = segs.map_values(|g: ConcatSegment| crate::detect::segment_token(g));
        assert(p.content == crate::types::numbered(toks));
        assert(toks[q] == crate::detect::segment_token(segs[q]));
        crate::types::lemma_numbered_counts(toks);
        crate::types::lemma_numbered_var_at(toks, q, sp.inner);
        assert(p.content[q] matches PromptContentToken::Var { span, .. } && span == sp.inner);
    }
}

} // verus!

verus! {

proof fn lemma_mark_keeps_prompt_variable(st: DetectState, x: Seq<char>, k: Seq<char>, has_ann: bool)
    requires
        st.scopes.len() >= 1,
        is_prompt_variable(st.scopes, k, has_ann),
    ensures
        is_prompt_variable(st.mark(x).scopes, k, has_ann),
{
    if crate::python::scope::in_any_scope(st.scopes, k) {
        let i = choose|i: int| 0 <= i < st.scopes.len() && (#[trigger] st.scopes[i]).contains(k);
        assert(st.mark(x).scopes[i].contains(k));
    }
}

proof fn lemma_multi_from_has(
    ctx: DetectCtx,
    st: DetectState,
    idents: Seq<Seq<char>>,
    vals: Seq<int>,
    j: int,
    q: int,
    has_ann: bool,
    ann: Seq<AnnotationModel>,
    ss: u32,
    se: u32,
)
    requires
        st.scopes.len() >= 1,
        0 <= j <= q < idents.len(),
        q < vals.len(),
        is_prompt_variable(st.scopes, idents[q], has_ann),
        ctx.t[vals[q]].kind@ == "string"@ || ctx.t[vals[q]].kind@ == "encapsed_string"@,
    ensures
        exists|m: int|
            0 <= m < multi_from(ctx, st, idents, vals, j, has_ann, ann, ss, se).prompts.len()
                && #[trigger] multi_from(ctx, st, idents, vals, j, has_ann, ann, ss, se).prompts[m] == range_prompt(
                ctx,
                vals[q],
                ann,
                ss,
                se,
            ),
    decreases q - j,
{
    let p = range_prompt(ctx, vals[j], ann, ss, se);
    let cond = j < vals.len() && is_prompt_variable(st.scopes, idents[j], has_ann) && (ctx.t[vals[j]].kind@ == "string"@
        || ctx.t[vals[j]].kind@ == "encapsed_string"@);
    let st1 = if cond { st.mark(idents[j]).push(p) } else { st };
    assert(multi_from(ctx, st, idents, vals, j, has_ann, ann, ss, se) == multi_from(ctx, st1, idents, vals, j + 1, has_ann, ann, ss, se));
    if j == q {
        let n = st1.prompts.len() - 1;
        assert(st1.prompts[n] == p);
        lemma_multi_from_keeps(ctx, st1, idents, vals, j + 1, has_ann, ann, ss, se);
        let r = multi_from(ctx, st1, idents, vals, j + 1, has_ann, ann, ss, se);
        assert(r.prompts.subrange(0, st1.prompts.len() as int)[n] == r.prompts[n]);
    } else {
        if cond {
            lemma_mark_keeps_prompt_variable(st, idents[j], idents[q], has_ann);
        }
        lemma_multi_from_has(ctx, st1, idents, vals, j + 1, q, has_ann, ann, ss, se);
    }
}

/// In a multi-assignment, every identifier that is a prompt variable and is
/// paired with a string value gives a prompt over that value, whatever its
/// position among the pairs.
pub proof fn law_multi_assignment_pairs(
    ctx: DetectCtx,
    st: DetectState,
    idents: Seq<Seq<char>>,
    vals: Seq<int>,
    has_ann: bool,
    ann: Seq<AnnotationModel>,
    ss: u32,
    se: u32,
    q: int,
)
    requires
        st.scopes.len() >= 1,
        0 <= q < idents.len(),
        q < vals.len(),
        is_prompt_variable(st.scopes, idents[q], has_ann),
        ctx.t[vals[q]].kind@ == "string"@ || ctx.t[vals[q]].kind@ == "encapsed_string"@,
    ensures
        exists|m: int|
            0 <= m < multi_from(ctx, st, idents, vals, 0, has_ann, ann, ss, se).prompts.len()
                && (#[trigger] multi_from(ctx, st, idents, vals, 0, has_ann, ann, ss, se).prompts[m]).span.outer == (Span {
                start: ctx.t[vals[q]].start as u32,
                end: ctx.t[vals[q]].end as u32,
            }),
{
    lemma_multi_from_has(ctx, st, idents, vals, 0, q, has_ann, ann, ss, se);
}

} // verus!

verus! {

/// Whether `c` is a variable element: a variable, or a function or member
/// call where calls count.
pub open spec fn is_variable_element(t: Seq<SyntaxNode>, c: int, calls: bool) -> bool {
    t[c].kind@ == "variable_name"@ || t[c].kind@ == "simple_variable"@ || (calls && (t[c].kind@ == "function_call_expression"@
        || t[c].kind@ == "member_call_expression"@))
}

/// Whether node `c` is reached by the element walk over the children of
/// node `i` from the `j`-th on: it is one of them, or it is reached inside
/// one that the walk enters, which is one that is no string, no variable
/// element and no delimiter.
pub open spec fn element_reached(t: Seq<SyntaxNode>, i: int, j: int, c: int, calls: bool) -> bool
    decreases i, t[i].children@.len() - j,
{
    if 0 <= i < t.len() && 0 <= j < t[i].children@.len() {
        let d = t[i].children@[j] as int;
        (0 <= d < i && (d == c || (!(t[d].kind@ == "string"@ || t[d].kind@ == "encapsed_string"@)
            && !is_variable_element(t, d, calls) && !is_delimiter(t, d) && element_reached(t, d, 0, c, calls))))
            || element_reached(t, i, j + 1, c, calls)
    } else {
        false
    }
}

proof fn lemma_elements_vars_extend(t: Seq<SyntaxNode>, b: Seq<u8>, i: int, j: int, calls: bool, joint: bool, acc: ElementsAcc)
    ensures
        elements_from(t, b, i, j, calls, joint, acc).vars.len() >= acc.vars.len(),
        elements_from(t, b, i, j, calls, joint, acc).vars.subrange(0, acc.vars.len() as int) == acc.vars,
    decreases i, t[i].children@.len() - j,
{
    if 0 <= i < t.len() && 0 <= j < t[i].children@.len() {
        let c = t[i].children@[j] as int;
        let acc2 = if !(0 <= c < i) {
            acc
        } else if is_element_string(t, c) {
            acc.emit(joint, PromptContentToken::Str { span: php_string_shape(t, c, b).inner })
        } else if is_element_var(t, c, calls) {
            let sp = Span { start: t[c].start as u32, end: t[c].end as u32 };
            let a = acc.emit(joint, PromptContentToken::Var { span: sp, index: 0 });
            ElementsAcc { vars: a.vars.push(VarModel { exp: node_text(t, c, b), span: SpanShape { outer: sp, inner: sp } }), ..a }
        } else if is_delimiter(t, c) {
            acc
        } else {
            elements_from(t, b, c, 0, calls, joint, acc)
        };
        if 0 <= c < i && !is_element_string(t, c) && !is_element_var(t, c, calls) && !is_delimiter(t, c) {
            lemma_elements_vars_extend(t, b, c, 0, calls, joint, acc);
        }
        assert(acc2.vars.len() >= acc.vars.len() && acc2.vars.subrange(0, acc.vars.len() as int) =~= acc.vars);
        lemma_elements_vars_extend(t, b, i, j + 1, calls, joint, acc2);
        let r = elements_from(t, b, i, j + 1, calls, joint, acc2);
        assert(r.vars.subrange(0, acc.vars.len() as int) =~= r.vars.subrange(0, acc2.vars.len() as int).subrange(
            0,
            acc.vars.len() as int,
        ));
    }
}

/// Every variable element, and every call element where calls count, that
/// the element walk reaches gives a variable over that element's range with
/// its text.
pub proof fn law_elements_keep_variables(
    t: Seq<SyntaxNode>,
    b: Seq<u8>,
    i: int,
    j: int,
    calls: bool,
    joint: bool,
    acc: ElementsAcc,
    c: int,
)
    requires
        element_reached(t, i, j, c, calls),
        is_variable_element(t, c, calls),
    ensures
        exists|m: int|
            0 <= m < elements_from(t, b, i, j, calls, joint, acc).vars.len() && (#[trigger] elements_from(
                t,
                b,
                i,
                j,
                calls,
                joint,
                acc,
            ).vars[m]).span.inner == (Span { start: t[c].start as u32, end: t[c].end as u32 }) && elements_from(
                t,
                b,
                i,
                j,
                calls,
                joint,
                acc,
            ).vars[m].exp == node_text(t, c, b),
    decreases i, t[i].children@.len() - j,
{
    let d = t[i].children@[j] as int;
    let acc2 = if !(0 <= d < i) {
        acc
    } else if is_element_string(t, d) {
        acc.emit(joint, PromptContentToken::Str { span: php_string_shape(t, d, b).inner })
    } else if is_element_var(t, d, calls) {
        let sp = Span { start: t[d].start as u32, end: t[d].end as u32 };
        let a = acc.emit(joint, PromptContentToken::Var { span: sp, index: 0 });
        ElementsAcc { vars: a.vars.push(VarModel { exp: node_text(t, d, b), span: SpanShape { outer: sp, inner: sp } }), ..a }
    } else if is_delimiter(t, d) {
        acc
    } else {
        elements_from(t, b, d, 0, calls, joint, acc)
    };
    let r = elements_from(t, b, i, j + 1, calls, joint, acc2);
    assert(elements_from(t, b, i, j, calls, joint, acc) == r);
    if element_reached(t, i, j + 1, c, calls) {
        law_elements_keep_variables(t, b, i, j + 1, calls, joint, acc2, c);
    } else if d == c {
        assert(!is_element_string(t, c)) by {
            reveal_strlit("variable_name");
            reveal_strlit("simple_variable");
            reveal_strlit("function_call_expression");
            reveal_strlit("member_call_expression");
            reveal_strlit("string");
            reveal_strlit("encapsed_string");
            assert("variable_name"@.len() == 13 && "simple_variable"@.len() == 15 && "function_call_expression"@.len() == 24
                && "member_call_expression"@.len() == 22);
            assert("string"@.len() == 6 && "encapsed_string"@.len() == 15);
            assert("simple_variable"@[0] == 's' && "encapsed_string"@[0] == 'e');
            if t[c].kind@ == "encapsed_string"@ {
                assert(t[c].kind@[0] == 'e');
            }
        }
        assert(is_element_var(t, c, calls));
        let n = acc2.vars.len() - 1;
        lemma_elements_vars_extend(t, b, i, j + 1, calls, joint, acc2);
        assert(r.vars.subrange(0, acc2.vars.len() as int)[n] == r.vars[n]);
    } else {
        assert(!is_element_var(t, d, calls));
        law_elements_keep_variables(t, b, d, 0, calls, joint, acc, c);
        let m = choose|m: int|
            0 <= m < acc2.vars.len() && (#[trigger] acc2.vars[m]).span.inner == (Span {
                start: t[c].start as u32,
                end: t[c].end as u32,
            }) && acc2.vars[m].exp == node_text(t, c, b);
        lemma_elements_vars_extend(t, b, i, j + 1, calls, joint, acc2);
        assert(r.vars.subrange(0, acc2.vars.len() as int)[m] == r.vars[m]);
    }
}

} // verus!
