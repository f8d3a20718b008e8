//! The Go prompt detector over a tree-sitter syntax tree.
//!
//! A prompt is a string, a `+` concatenation, a `fmt.Sprintf` call, a slice
//! literal or a `strings.Join` call assigned to a prompt variable: one whose
//! name contains `prompt` (in any letter case), whose statement carries a
//! `@prompt` annotation, or that a scope marked before.
use crate::comments::{CommentNode, CommentTracker};
use crate::go::scope::ScopeTracker;
use crate::text::range_text;
use crate::detect::{
    concat_operand, boundary_or_beyond, build_prompt, collect_named_args, collect_statement_annotations, declare,
    declared, detect_ctx, detect_ready, detect_state, enclosure_start_exec, errors_message, final_annotations,
    final_annotations_exec, format_tree_sitter_error, initial_state, is_prompt_variable_exec, make_prompt, named_args,
    prompt_from_format, prompt_from_segments, push_some, format_prompt, segments_prompt, statement_annotations, variables_ranged,
    ConcatSegment, DetectCtx, DetectState, ElementsAcc, keeps, lemma_declared_keeps, lemma_keeps_refl, lemma_keeps_trans,
    lemma_scoped_keeps, lemma_step_keeps,
};
use crate::expr::{expand_around_operator, expanded_span};
use crate::go::spans::{go_string_shape, span_shape_string_like};
use crate::python::parser::{
    extract_identifiers, identifiers_in, is_prompt_variable, result_view, sorted_comments_of, string_views,
};
use crate::python::spans::sat_sub;
use crate::syntax::{children_precede, field_child, kind_child, kind_child_from, lemma_wf_children_precede, node_text, node_wf, SyntaxNode, SyntaxTree};
use crate::text::{text_eq, utf8};
use crate::types::{
    annotation_models, empty_shape, prompt_models, var_models, AnnotationModel, Prompt,
    PromptAnnotation, PromptContentToken, PromptModel, PromptVar, Span, SpanShape, VarModel,
};
use crate::treesitter::{parse_tree, Grammar};
use crate::types::ParseResult;
use crate::parser_core::VolumenParser;
use crate::treesitter::{node_models, parsed_models};
use vstd::prelude::*;
use vstd::string::{StrSliceExecFns, StringExecFns};

verus! {

/// Whether node `k` is a Go string literal.
pub open spec fn go_string_node(t: Seq<SyntaxNode>, k: int) -> bool {
    0 <= k < t.len() && (t[k].kind@ == "interpreted_string_literal"@ || t[k].kind@ == "raw_string_literal"@)
}

/// The prompt made of the string node `k`: one text token over its inner range.
pub open spec fn go_string_prompt(ctx: DetectCtx, k: int, ann: Seq<AnnotationModel>, ss: u32, se: u32) -> PromptModel {
    let span = go_string_shape(ctx.t[k].start as int, ctx.t[k].end as int);
    make_prompt(ctx, span, seq![], ann, seq![PromptContentToken::Str { span: span.inner }], empty_shape(), ss, se)
}

/// Widens `span` over the `+` operators and blanks around it.
pub fn expand_to_operators(span: Span, source: &str) -> (r: Span)
    requires
        utf8(source@).len() < u32::MAX,
    ensures
        r == expanded_span(utf8(source@), span.start, span.end, 43u8),
{
    expand_around_operator(span, source, 43u8)
}

/// The segments of the concatenation rooted at node `i`.
pub open spec fn concat_segments(t: Seq<SyntaxNode>, b: Seq<u8>, i: int) -> Seq<ConcatSegment>
    decreases i,
{
    if !(0 <= i < t.len()) {
        seq![]
    } else {
        let kind = t[i].kind@;
        let s = t[i].start as u32;
        let e = t[i].end as u32;
        if kind == "binary_expression"@ {
            match field_child(t, i, "operator"@) {
                Some(op) => if 0 <= op < t.len() && node_text(t, op, b) == "+"@ {
                    let l = match field_child(t, i, "left"@) {
                        Some(l) => if 0 <= l < i {
                            concat_segments(t, b, l)
                        } else {
                            seq![]
                        },
                        None => seq![],
                    };
                    let r = match field_child(t, i, "right"@) {
                        Some(r) => if 0 <= r < i {
                            concat_segments(t, b, r)
                        } else {
                            seq![]
                        },
                        None => seq![],
                    };
                    l + r
                } else {
                    seq![]
                },
                None => seq![],
            }
        } else if kind == "interpreted_string_literal"@ || kind == "raw_string_literal"@ {
            seq![ConcatSegment::Text(go_string_shape(s as int, e as int))]
        } else if kind == "identifier"@ || kind == "call_expression"@ || kind == "selector_expression"@ {
            seq![ConcatSegment::Variable(SpanShape { outer: expanded_span(b, s, e, 43u8), inner: Span { start: s, end: e } })]
        } else if kind == "int_literal"@ || kind == "float_literal"@ || kind == "true"@ || kind == "false"@ {
            seq![ConcatSegment::Primitive(SpanShape { outer: expanded_span(b, s, e, 43u8), inner: Span { start: s, end: e } })]
        } else if kind == "slice_literal"@ || kind == "composite_literal"@ {
            seq![ConcatSegment::Other]
        } else {
            seq![]
        }
    }
}

/// Extract the segments of the concatenation rooted at node `i`.
fn extract_concat_segments(tree: &SyntaxTree, i: usize, source: &str) -> (r: Vec<ConcatSegment>)
    requires
        tree.wf(utf8(source@)),
        i < tree.nodes@.len(),
    ensures
        r@ == concat_segments(tree.nodes@, utf8(source@), i as int),
        variables_ranged(r@, utf8(source@)),
    decreases i,
{
    let ghost t = tree.nodes@;
    let ghost b = utf8(source@);
    proof {
        assert(node_wf(t, i as int, b));
    }
    let s = tree.nodes[i].start as u32;
    let e = tree.nodes[i].end as u32;
    if tree.kind_is(i, "binary_expression") {
        match tree.child_by_field_name(i, "operator") {
            Some(op) => {
                proof {
                    assert(node_wf(t, op as int, b));
                }
                let op_text = tree.text_of(op, source);
                if text_eq(op_text.as_str(), "+") {
                    let mut segments: Vec<ConcatSegment> = Vec::new();
                    match tree.child_by_field_name(i, "left") {
                        Some(l) => {
                            segments = extract_concat_segments(tree, l, source);
                        },
                        None => {},
                    }
                    match tree.child_by_field_name(i, "right") {
                        Some(r) => {
                            let mut more = extract_concat_segments(tree, r, source);
                            segments.append(&mut more);
                        },
                        None => {},
                    }
                    return segments;
                }
                return Vec::new();
            },
            None => {
                return Vec::new();
            },
        }
    }
    if tree.kind_is(i, "interpreted_string_literal") || tree.kind_is(i, "raw_string_literal") {
        let span = span_shape_string_like(tree, i, source);
        return vec![ConcatSegment::Text(span)];
    }
    if tree.kind_is(i, "identifier") || tree.kind_is(i, "call_expression") || tree.kind_is(i, "selector_expression") {
        let outer = Span { start: s, end: e };
        let expanded = expand_to_operators(outer, source);
        return vec![ConcatSegment::Variable(SpanShape { outer: expanded, inner: outer })];
    }
    if tree.kind_is(i, "int_literal") || tree.kind_is(i, "float_literal") || tree.kind_is(i, "true") || tree.kind_is(i, "false") {
        let outer = Span { start: s, end: e };
        let expanded = expand_to_operators(outer, source);
        return vec![ConcatSegment::Primitive(SpanShape { outer: expanded, inner: outer })];
    }
    if tree.kind_is(i, "slice_literal") || tree.kind_is(i, "composite_literal") {
        return vec![ConcatSegment::Other];
    }
    Vec::new()
}

/// The prompt of the `+` concatenation at node `k`, if it is one: `None`
/// when the operator is not `+`, else as `segments_prompt` gives it.
pub open spec fn concat_prompt(ctx: DetectCtx, k: int, ann: Seq<AnnotationModel>, ss: u32, se: u32) -> Option<PromptModel> {
    let t = ctx.t;
    match field_child(t, k, "operator"@) {
        None => None,
        Some(op) => if !(0 <= op < t.len() && node_text(t, op, ctx.b) == "+"@) {
            None
        } else {
            segments_prompt(ctx, concat_segments(t, ctx.b, k), Span { start: t[k].start as u32, end: t[k].end as u32 }, ann, ss, se)
        },
    }
}

/// Builds a prompt from a string concatenation (`"Hello " + name + "!"`).
fn process_concatenation(
    tree: &SyntaxTree,
    k: usize,
    source: &str,
    filename: &str,
    stmt_start: u32,
    stmt_end: u32,
    comments: &CommentTracker,
    annotations: &Vec<PromptAnnotation>,
) -> (r: Option<Prompt>)
    requires
        detect_ready(tree, source, comments),
        k < tree.nodes@.len(),
        boundary_or_beyond(utf8(source@), stmt_start),
    ensures
        r matches Some(p) ==> concat_prompt(detect_ctx(tree, source, filename, comments), k as int, annotation_models(annotations@), stmt_start, stmt_end) == Some(p@),
        r is None ==> concat_prompt(detect_ctx(tree, source, filename, comments), k as int, annotation_models(annotations@), stmt_start, stmt_end) is None,
{
    let ghost ctx = detect_ctx(tree, source, filename, comments);
    let ghost t = tree.nodes@;
    let ghost b = utf8(source@);
    proof {
        assert(node_wf(t, k as int, b));
    }
    let op = match tree.child_by_field_name(k, "operator") {
        Some(op) => op,
        None => {
            return None;
        },
    };
    let op_text = tree.text_of(op, source);
    if !text_eq(op_text.as_str(), "+") {
        return None;
    }
    let segs = extract_concat_segments(tree, k, source);
    let outer = Span { start: tree.nodes[k].start as u32, end: tree.nodes[k].end as u32 };
    prompt_from_segments(segs, outer, source, filename, stmt_start, stmt_end, comments, annotations, Ghost(ctx))
}

/// The prompt of a `fmt.Sprintf` or `fmt.Printf` call at node `k`, if it is
/// one: the first argument must be a string whose inner range covers whole
/// characters and holds a placeholder; each later argument, up to the
/// number of placeholders, is a variable.
pub open spec fn sprintf_prompt(ctx: DetectCtx, k: int, ann: Seq<AnnotationModel>, ss: u32, se: u32) -> Option<PromptModel> {
    let t = ctx.t;
    let b = ctx.b;
    match field_child(t, k, "function"@) {
        None => None,
        Some(f) => if !(node_text(t, f, b) == "fmt.Sprintf"@ || node_text(t, f, b) == "fmt.Printf"@) {
            None
        } else {
            match field_child(t, k, "arguments"@) {
                None => None,
                Some(a) => {
                    let args = named_args(t, a, 0);
                    if args.len() == 0 || !go_string_node(t, args[0]) {
                        None
                    } else {
                        format_prompt(ctx, k, go_string_shape(t[args[0]].start as int, t[args[0]].end as int), args, ann, ss, se)
                    }
                },
            }
        },
    }
}

/// Builds a prompt from a `fmt.Sprintf("Hello %s", name)` call.
fn process_sprintf_call(
    tree: &SyntaxTree,
    k: usize,
    source: &str,
    filename: &str,
    stmt_start: u32,
    stmt_end: u32,
    comments: &CommentTracker,
    annotations: &Vec<PromptAnnotation>,
) -> (r: Option<Prompt>)
    requires
        detect_ready(tree, source, comments),
        k < tree.nodes@.len(),
        boundary_or_beyond(utf8(source@), stmt_start),
    ensures
        r matches Some(p) ==> sprintf_prompt(detect_ctx(tree, source, filename, comments), k as int, annotation_models(annotations@), stmt_start, stmt_end) == Some(p@),
        r is None ==> sprintf_prompt(detect_ctx(tree, source, filename, comments), k as int, annotation_models(annotations@), stmt_start, stmt_end) is None,
{
    let ghost ctx = detect_ctx(tree, source, filename, comments);
    let ghost t = tree.nodes@;
    let ghost b = utf8(source@);
    proof {
        lemma_wf_children_precede(tree, b);
        assert(node_wf(t, k as int, b));
    }
    let f = match tree.child_by_field_name(k, "function") {
        Some(f) => f,
        None => {
            return None;
        },
    };
    let func_text = tree.text_of(f, source);
    if !text_eq(func_text.as_str(), "fmt.Sprintf") && !text_eq(func_text.as_str(), "fmt.Printf") {
        return None;
    }
    let a = match tree.child_by_field_name(k, "arguments") {
        Some(a) => a,
        None => {
            return None;
        },
    };
    let args = collect_named_args(tree, a);
    let ghost ga = named_args(t, a as int, 0);
    if args.len() == 0 {
        return None;
    }
    let first = args[0];
    if !(tree.kind_is(first, "interpreted_string_literal") || tree.kind_is(first, "raw_string_literal")) {
        return None;
    }
    let fs = span_shape_string_like(tree, first, source);
    assert(args@.map_values(|x: usize| x as int) =~= ga);
    prompt_from_format(tree, k, fs, &args, source, filename, stmt_start, stmt_end, comments, annotations)
}

/// Whether node `c` is a delimiter of a literal.
pub open spec fn is_delimiter(t: Seq<SyntaxNode>, c: int) -> bool {
    t[c].kind@ == "{"@ || t[c].kind@ == "}"@ || t[c].kind@ == ","@
}

/// Whether node `c` counts as a variable element: an identifier, or a call
/// when `calls` is set.
pub open spec fn is_element_var(t: Seq<SyntaxNode>, c: int, calls: bool) -> bool {
    t[c].kind@ == "identifier"@ || (calls && t[c].kind@ == "call_expression"@)
}

/// The walk over the children of node `i`, from the `j`-th on: a string adds
/// a text token over its inner range, a variable element adds a variable over
/// its range, a delimiter adds nothing, and any other node is walked into.
pub open spec fn elements_from(
    t: Seq<SyntaxNode>,
    b: Seq<u8>,
    i: int,
    j: int,
    calls: bool,
    joint: bool,
    acc: ElementsAcc,
) -> ElementsAcc
    decreases i, t[i].children@.len() - j,
{
    if 0 <= i < t.len() && 0 <= j < t[i].children@.len() {
        let c = t[i].children@[j] as int;
        let acc2 = if !(0 <= c < i) {
            acc
        } else if go_string_node(t, c) {
            acc.emit(joint, PromptContentToken::Str { span: go_string_shape(t[c].start as int, t[c].end as int).inner })
        } else if is_element_var(t, c, calls) {
            let sp = Span { start: t[c].start as u32, end: t[c].end as u32 };
            let a = acc.emit(joint, PromptContentToken::Var { span: sp, index: 0 });
            ElementsAcc { vars: a.vars.push(VarModel { exp: node_text(t, c, b), span: SpanShape { outer: sp, inner: sp } }), ..a }
        } else if is_delimiter(t, c) {
            acc
        } else {
            elements_from(t, b, c, 0, calls, joint, acc)
        };
        elements_from(t, b, i, j + 1, calls, joint, acc2)
    } else {
        acc
    }
}

/// The walk over the elements of node `i`, from an empty start.
pub open spec fn elements_of(t: Seq<SyntaxNode>, b: Seq<u8>, i: int, calls: bool, joint: bool) -> ElementsAcc {
    elements_from(t, b, i, 0, calls, joint, ElementsAcc { vars: seq![], content: seq![], first: true })
}

/// The inner range of a slice literal node `a`: inside the braces of its
/// `literal_value` child, or one byte in from each end without one.
pub open spec fn literal_inner(t: Seq<SyntaxNode>, a: int) -> Span {
    match kind_child_from(t, a, "literal_value"@, 0) {
        Some(l) => Span { start: (t[l].start + 1) as u32, end: sat_sub(t[l].end as int, 1) },
        None => Span { start: (t[a].start + 1) as u32, end: sat_sub(t[a].end as int, 1) },
    }
}

/// The prompt of the slice or composite literal at node `k`.
pub open spec fn array_prompt(ctx: DetectCtx, k: int, ann: Seq<AnnotationModel>, ss: u32, se: u32) -> PromptModel {
    let els = elements_of(ctx.t, ctx.b, k, true, false);
    let span = SpanShape { outer: Span { start: ctx.t[k].start as u32, end: ctx.t[k].end as u32 }, inner: literal_inner(ctx.t, k) };
    make_prompt(ctx, span, els.vars, ann, els.content, empty_shape(), ss, se)
}

fn walk_elements(
    tree: &SyntaxTree,
    i: usize,
    source: &str,
    calls: bool,
    joint: bool,
    vars: &mut Vec<PromptVar>,
    content: &mut Vec<PromptContentToken>,
    first: &mut bool,
)
    requires
        tree.wf(utf8(source@)),
        i < tree.nodes@.len(),
    ensures
        ({
            let r = elements_from(
                tree.nodes@,
                utf8(source@),
                i as int,
                0,
                calls,
                joint,
                ElementsAcc { vars: var_models(old(vars)@), content: old(content)@, first: *old(first) },
            );
            var_models(final(vars)@) == r.vars && final(content)@ == r.content && *final(first) == r.first
        }),
    decreases i,
{
    let ghost t = tree.nodes@;
    let ghost b = utf8(source@);
    let ghost acc0 = ElementsAcc { vars: var_models(vars@), content: content@, first: *first };
    proof {
        lemma_wf_children_precede(tree, b);
    }
    let n = tree.nodes[i].children.len();
    let mut j: usize = 0;
    while j < n
        invariant
            tree.wf(b),
            b == utf8(source@),
            t == tree.nodes@,
            children_precede(t),
            i < t.len(),
            n == t[i as int].children@.len(),
            j <= n,
            elements_from(t, b, i as int, j as int, calls, joint, ElementsAcc { vars: var_models(vars@), content: content@, first: *first })
                == elements_from(t, b, i as int, 0, calls, joint, acc0),
        decreases n - j,
    {
        let c = tree.nodes[i].children[j];
        assert(c < i);
        proof {
            assert(node_wf(t, c as int, b));
        }
        let ghost acc = ElementsAcc { vars: var_models(vars@), content: content@, first: *first };
        if tree.kind_is(c, "interpreted_string_literal") || tree.kind_is(c, "raw_string_literal") {
            if !*first && joint {
                content.push(PromptContentToken::Joint);
            }
            *first = false;
            let span = span_shape_string_like(tree, c, source);
            content.push(PromptContentToken::Str { span: span.inner });
        } else if tree.kind_is(c, "identifier") || (calls && tree.kind_is(c, "call_expression")) {
            if !*first && joint {
                content.push(PromptContentToken::Joint);
            }
            *first = false;
            let sp = Span { start: tree.nodes[c].start as u32, end: tree.nodes[c].end as u32 };
            let exp = tree.text_of(c, source);
            let ghost before = var_models(vars@);
            vars.push(PromptVar { exp, span: SpanShape { outer: sp, inner: sp } });
            assert(var_models(vars@) =~= before.push(VarModel { exp: node_text(t, c as int, b), span: SpanShape { outer: sp, inner: sp } }));
            content.push(PromptContentToken::Var { span: sp, index: 0 });
        } else if tree.kind_is(c, "{") || tree.kind_is(c, "}") || tree.kind_is(c, ",") {
        } else {
            walk_elements(tree, c, source, calls, joint, vars, content, first);
        }
        j = j + 1;
    }
}

/// The elements of node `k`, from an empty start.
fn collect_elements(tree: &SyntaxTree, k: usize, source: &str, calls: bool, joint: bool) -> (r: (
    Vec<PromptVar>,
    Vec<PromptContentToken>,
))
    requires
        tree.wf(utf8(source@)),
        k < tree.nodes@.len(),
    ensures
        var_models(r.0@) == elements_of(tree.nodes@, utf8(source@), k as int, calls, joint).vars,
        r.1@ == elements_of(tree.nodes@, utf8(source@), k as int, calls, joint).content,
{
    let mut vars: Vec<PromptVar> = Vec::new();
    let mut content: Vec<PromptContentToken> = Vec::new();
    let mut first = true;
    assert(var_models(vars@) =~= Seq::<VarModel>::empty());
    assert(content@ =~= Seq::<PromptContentToken>::empty());
    walk_elements(tree, k, source, calls, joint, &mut vars, &mut content, &mut first);
    (vars, content)
}

/// The inner range of the slice literal node `a`.
fn literal_inner_exec(tree: &SyntaxTree, a: usize, Ghost(src): Ghost<Seq<u8>>) -> (r: Span)
    requires
        tree.wf(src),
        a < tree.nodes@.len(),
    ensures
        r == literal_inner(tree.nodes@, a as int),
{
    proof {
        assert(node_wf(tree.nodes@, a as int, src));
    }
    match kind_child(tree, a, "literal_value") {
        Some(l) => {
            proof {
                assert(node_wf(tree.nodes@, l as int, src));
            }
            Span { start: tree.nodes[l].start as u32 + 1, end: (tree.nodes[l].end as u32).saturating_sub(1) }
        },
        None => Span { start: tree.nodes[a].start as u32 + 1, end: (tree.nodes[a].end as u32).saturating_sub(1) },
    }
}

/// Builds a prompt from a slice literal: `[]string{"Hello ", user, "!"}`.
fn process_array(
    tree: &SyntaxTree,
    k: usize,
    source: &str,
    filename: &str,
    stmt_start: u32,
    stmt_end: u32,
    comments: &CommentTracker,
    annotations: &Vec<PromptAnnotation>,
) -> (r: Prompt)
    requires
        detect_ready(tree, source, comments),
        k < tree.nodes@.len(),
        boundary_or_beyond(utf8(source@), stmt_start),
    ensures
        r@ == array_prompt(detect_ctx(tree, source, filename, comments), k as int, annotation_models(annotations@), stmt_start, stmt_end),
{
    let ghost ctx = detect_ctx(tree, source, filename, comments);
    proof {
        assert(node_wf(tree.nodes@, k as int, utf8(source@)));
    }
    let (vars, content) = collect_elements(tree, k, source, true, false);
    let outer = Span { start: tree.nodes[k].start as u32, end: tree.nodes[k].end as u32 };
    let inner = literal_inner_exec(tree, k, Ghost(utf8(source@)));
    let es = enclosure_start_exec(comments, stmt_start, Ghost(ctx));
    let joint = SpanShape { outer: Span { start: 0, end: 0 }, inner: Span { start: 0, end: 0 } };
    build_prompt(source, filename, SpanShape { outer, inner }, vars, annotations, content, joint, es, stmt_end)
}

/// The array and separator arguments of a `strings.Join` argument list
/// `a`, scanning its children from the `j`-th on with `idx` arguments seen:
/// the first slice or composite literal when it is the first argument, and
/// the first string when it is the second.
pub open spec fn join_args(t: Seq<SyntaxNode>, a: int, j: int, idx: int, arr: Option<int>, sep: Option<int>) -> (
    Option<int>,
    Option<int>,
)
    decreases t[a].children@.len() - j,
{
    if 0 <= a < t.len() && 0 <= j < t[a].children@.len() {
        let c = t[a].children@[j] as int;
        if 0 <= c < t.len() && (t[c].kind@ == "composite_literal"@ || t[c].kind@ == "slice_literal"@) {
            join_args(t, a, j + 1, idx + 1, if idx == 0 { Some(c) } else { arr }, sep)
        } else if go_string_node(t, c) {
            join_args(t, a, j + 1, idx + 1, arr, if idx == 1 { Some(c) } else { sep })
        } else {
            join_args(t, a, j + 1, idx, arr, sep)
        }
    } else {
        (arr, sep)
    }
}

/// The prompt of a `strings.Join(elems, sep)` call at node `k`, if it is
/// one: the elements become text and variable tokens, with a joint token
/// between them when there is a separator string, whose span is the
/// prompt's joint.
pub open spec fn join_prompt(ctx: DetectCtx, k: int, ann: Seq<AnnotationModel>, ss: u32, se: u32) -> Option<PromptModel> {
    let t = ctx.t;
    match kind_child_from(t, k, "selector_expression"@, 0) {
        None => None,
        Some(f) => if node_text(t, f, ctx.b) != "strings.Join"@ {
            None
        } else {
            match kind_child_from(t, k, "argument_list"@, 0) {
                None => None,
                Some(a) => {
                    let (arr, sep) = join_args(t, a, 0, 0, None, None);
                    match arr {
                        None => None,
                        Some(ar) => {
                            let joint = match sep {
                                Some(sp) => go_string_shape(t[sp].start as int, t[sp].end as int),
                                None => empty_shape(),
                            };
                            let has_joint = joint.outer.start != 0 || joint.outer.end != 0;
                            let els = elements_of(t, ctx.b, ar, false, has_joint);
                            let span = SpanShape { outer: Span { start: t[k].start as u32, end: t[k].end as u32 }, inner: literal_inner(t, ar) };
                            Some(make_prompt(ctx, span, els.vars, ann, els.content, joint, ss, se))
                        },
                    }
                },
            }
        },
    }
}

/// Builds a prompt from `strings.Join([]string{"Hello", user, "!"}, "\n")`.
fn process_strings_join(
    tree: &SyntaxTree,
    k: usize,
    source: &str,
    filename: &str,
    stmt_start: u32,
    stmt_end: u32,
    comments: &CommentTracker,
    annotations: &Vec<PromptAnnotation>,
) -> (r: Option<Prompt>)
    requires
        detect_ready(tree, source, comments),
        k < tree.nodes@.len(),
        boundary_or_beyond(utf8(source@), stmt_start),
    ensures
        r matches Some(p) ==> join_prompt(detect_ctx(tree, source, filename, comments), k as int, annotation_models(annotations@), stmt_start, stmt_end) == Some(p@),
        r is None ==> join_prompt(detect_ctx(tree, source, filename, comments), k as int, annotation_models(annotations@), stmt_start, stmt_end) is None,
{
    let ghost ctx = detect_ctx(tree, source, filename, comments);
    let ghost t = tree.nodes@;
    let ghost b = utf8(source@);
    proof {
        lemma_wf_children_precede(tree, b);
        assert(node_wf(t, k as int, b));
    }
    let f = match kind_child(tree, k, "selector_expression") {
        Some(f) => f,
        None => {
            return None;
        },
    };
    let func_text = tree.text_of(f, source);
    if !text_eq(func_text.as_str(), "strings.Join") {
        return None;
    }
    let a = match kind_child(tree, k, "argument_list") {
        Some(a) => a,
        None => {
            return None;
        },
    };
    proof {
        assert(node_wf(t, a as int, b));
    }
    let mut array_node: Option<usize> = None;
    let mut sep_node: Option<usize> = None;
    let mut arg_idx: usize = 0;
    let n = tree.nodes[a].children.len();
    let mut j: usize = 0;
    while j < n
        invariant
            t == tree.nodes@,
            children_precede(t),
            a < t.len(),
            n == t[a as int].children@.len(),
            j <= n,
            arg_idx <= j,
            array_node matches Some(x) ==> x < a,
            sep_node matches Some(x) ==> x < a,
            join_args(t, a as int, 0, 0, None, None) == join_args(
                t,
                a as int,
                j as int,
                arg_idx as int,
                match array_node { Some(x) => Some(x as int), None => None },
                match sep_node { Some(x) => Some(x as int), None => None },
            ),
        decreases n - j,
    {
        let c = tree.nodes[a].children[j];
        assert(c < a);
        if tree.kind_is(c, "composite_literal") || tree.kind_is(c, "slice_literal") {
            if arg_idx == 0 {
                array_node = Some(c);
            }
            arg_idx = arg_idx + 1;
        } else if tree.kind_is(c, "interpreted_string_literal") || tree.kind_is(c, "raw_string_literal") {
            if arg_idx == 1 {
                sep_node = Some(c);
            }
            arg_idx = arg_idx + 1;
        }
        j = j + 1;
    }
    let array = match array_node {
        Some(x) => x,
        None => {
            return None;
        },
    };
    let joint = match sep_node {
        Some(sp) => span_shape_string_like(tree, sp, source),
        None => SpanShape { outer: Span { start: 0, end: 0 }, inner: Span { start: 0, end: 0 } },
    };
    let has_joint = joint.outer.start != 0 || joint.outer.end != 0;
    let (vars, content) = collect_elements(tree, array, source, false, has_joint);
    let outer = Span { start: tree.nodes[k].start as u32, end: tree.nodes[k].end as u32 };
    let inner = literal_inner_exec(tree, array, Ghost(b));
    let es = enclosure_start_exec(comments, stmt_start, Ghost(ctx));
    Some(build_prompt(source, filename, SpanShape { outer, inner }, vars, annotations, content, joint, es, stmt_end))
}

/// The value a short variable declaration assigns: the first child of an
/// expression list, or the right side itself.
pub open spec fn first_value(t: Seq<SyntaxNode>, r: int) -> int {
    if t[r].kind@ == "expression_list"@ && t[r].children@.len() > 0 {
        t[r].children@[0] as int
    } else {
        r
    }
}

/// Whether node `k` is a slice or composite literal.
pub open spec fn is_array_literal(t: Seq<SyntaxNode>, k: int) -> bool {
    t[k].kind@ == "composite_literal"@ || t[k].kind@ == "slice_literal"@
}

/// Whether node `k` is a value a declaration can make a prompt of.
pub open spec fn is_prompt_value(t: Seq<SyntaxNode>, k: int) -> bool {
    go_string_node(t, k) || t[k].kind@ == "binary_expression"@ || t[k].kind@ == "call_expression"@ || is_array_literal(t, k)
}

/// The prompt, if any, that the value node `v` of a prompt variable gives.
pub open spec fn value_prompt(ctx: DetectCtx, v: int, ann: Seq<AnnotationModel>, ss: u32, se: u32) -> Option<PromptModel> {
    let t = ctx.t;
    if go_string_node(t, v) {
        Some(go_string_prompt(ctx, v, ann, ss, se))
    } else if t[v].kind@ == "binary_expression"@ {
        concat_prompt(ctx, v, ann, ss, se)
    } else if t[v].kind@ == "call_expression"@ {
        match join_prompt(ctx, v, ann, ss, se) {
            Some(p) => Some(p),
            None => sprintf_prompt(ctx, v, ann, ss, se),
        }
    } else {
        Some(array_prompt(ctx, v, ann, ss, se))
    }
}

/// A short variable declaration `x := value` at node `i`: when the value is
/// a string, a concatenation, a call or a slice literal and the first
/// identifier on the left is a prompt variable, that identifier is declared
/// and the value's prompt, if any, is added.
pub open spec fn short_var(ctx: DetectCtx, st: DetectState, i: int) -> DetectState {
    let t = ctx.t;
    let ss = t[i].start as u32;
    let se = t[i].end as u32;
    let ann = statement_annotations(ctx, ss, se);
    let has_ann = ann.len() > 0;
    match (field_child(t, i, "left"@), field_child(t, i, "right"@)) {
        (Some(l), Some(r)) => {
            let idents = identifiers_in(t, l, ctx.b);
            let v = first_value(t, r);
            if idents.len() > 0 && is_prompt_value(t, v) && is_prompt_variable(st.scopes, idents[0], has_ann) {
                let st1 = declared(st, idents[0], has_ann, ann);
                st1.push_some(value_prompt(ctx, v, final_annotations(st1, idents[0], ann), ss, se))
            } else {
                st
            }
        },
        _ => st,
    }
}

/// A `var_spec` node `k` of a `var` declaration with the given annotations:
/// when its name is a prompt variable, the name is declared and a string or
/// concatenation value gives a prompt.
pub open spec fn var_spec(ctx: DetectCtx, st: DetectState, k: int, has_ann: bool, ann: Seq<AnnotationModel>, ss: u32, se: u32) -> DetectState {
    let t = ctx.t;
    match (field_child(t, k, "name"@), field_child(t, k, "value"@)) {
        (Some(nm), Some(v)) => {
            let ident = node_text(t, nm, ctx.b);
            if is_prompt_variable(st.scopes, ident, has_ann) {
                let st1 = declared(st, ident, has_ann, ann);
                let fa = final_annotations(st1, ident, ann);
                if go_string_node(t, v) {
                    st1.push(go_string_prompt(ctx, v, fa, ss, se))
                } else if t[v].kind@ == "binary_expression"@ {
                    st1.push_some(concat_prompt(ctx, v, fa, ss, se))
                } else {
                    st1
                }
            } else {
                st
            }
        },
        _ => st,
    }
}

/// The `var_spec` children of the `var` declaration `i`, from the `j`-th on.
pub open spec fn var_specs(ctx: DetectCtx, st: DetectState, i: int, j: int, has_ann: bool, ann: Seq<AnnotationModel>, ss: u32, se: u32) -> DetectState
    decreases ctx.t[i].children@.len() - j,
{
    let t = ctx.t;
    if 0 <= i < t.len() && 0 <= j < t[i].children@.len() {
        let c = t[i].children@[j] as int;
        let st1 = if 0 <= c < t.len() && t[c].kind@ == "var_spec"@ {
            var_spec(ctx, st, c, has_ann, ann, ss, se)
        } else {
            st
        };
        var_specs(ctx, st1, i, j + 1, has_ann, ann, ss, se)
    } else {
        st
    }
}

/// A `var` declaration at node `i`.
pub open spec fn var_decl(ctx: DetectCtx, st: DetectState, i: int) -> DetectState {
    let ss = ctx.t[i].start as u32;
    let se = ctx.t[i].end as u32;
    let ann = statement_annotations(ctx, ss, se);
    var_specs(ctx, st, i, 0, ann.len() > 0, ann, ss, se)
}

/// The texts of the `identifier` children of node `l`, from the `j`-th on.
pub open spec fn identifier_children(t: Seq<SyntaxNode>, l: int, b: Seq<u8>, j: int) -> Seq<Seq<char>>
    decreases t[l].children@.len() - j,
{
    if 0 <= l < t.len() && 0 <= j < t[l].children@.len() {
        let c = t[l].children@[j] as int;
        if 0 <= c < t.len() && t[c].kind@ == "identifier"@ {
            seq![node_text(t, c, b)] + identifier_children(t, l, b, j + 1)
        } else {
            identifier_children(t, l, b, j + 1)
        }
    } else {
        seq![]
    }
}

/// The identifiers on the left of an assignment: the left side itself when
/// it is one, or the identifiers of an expression list.
pub open spec fn left_identifiers(t: Seq<SyntaxNode>, l: int, b: Seq<u8>) -> Seq<Seq<char>> {
    if t[l].kind@ == "identifier"@ {
        seq![node_text(t, l, b)]
    } else if t[l].kind@ == "expression_list"@ {
        identifier_children(t, l, b, 0)
    } else {
        seq![]
    }
}

/// The values on the right of an assignment: all children of an expression
/// list, or the right side itself.
pub open spec fn right_values(t: Seq<SyntaxNode>, r: int) -> Seq<int> {
    if t[r].kind@ == "expression_list"@ {
        t[r].children@.map_values(|c: usize| c as int)
    } else {
        seq![r]
    }
}

/// The assignments of the identifiers `idents[q..]` to the values `vals`:
/// an identifier that is a prompt variable, assigned a string (the value at
/// its position, or the last one), gives a prompt.
pub open spec fn assign_from(
    ctx: DetectCtx,
    st: DetectState,
    idents: Seq<Seq<char>>,
    vals: Seq<int>,
    q: int,
    ann: Seq<AnnotationModel>,
    ss: u32,
    se: u32,
) -> DetectState
    decreases idents.len() - q,
{
    if 0 <= q < idents.len() {
        let ident = idents[q];
        let st1 = if st.is_prompt(ident) && vals.len() > 0 {
            let v = if q < vals.len() {
                vals[q]
            } else {
                vals.last()
            };
            if go_string_node(ctx.t, v) {
                st.push(go_string_prompt(ctx, v, final_annotations(st, ident, ann), ss, se))
            } else {
                st
            }
        } else {
            st
        };
        assign_from(ctx, st1, idents, vals, q + 1, ann, ss, se)
    } else {
        st
    }
}

/// An assignment statement `x = value` at node `i`.
pub open spec fn assign_stmt(ctx: DetectCtx, st: DetectState, i: int) -> DetectState {
    let t = ctx.t;
    let ss = t[i].start as u32;
    let se = t[i].end as u32;
    let ann = statement_annotations(ctx, ss, se);
    match (field_child(t, i, "left"@), field_child(t, i, "right"@)) {
        (Some(l), Some(r)) => assign_from(ctx, st, left_identifiers(t, l, ctx.b), right_values(t, r), 0, ann, ss, se),
        _ => st,
    }
}

/// The walk of node `i`'s subtree: function and method declarations open a
/// scope around their children; short variable declarations, `var`
/// declarations and assignments are processed and not walked into; other
/// nodes are walked through.
pub open spec fn traverse(ctx: DetectCtx, st: DetectState, i: int) -> DetectState
    decreases i, ctx.t[i].children@.len() + 1,
{
    let t = ctx.t;
    if 0 <= i < t.len() {
        let kind = t[i].kind@;
        if kind == "function_declaration"@ || kind == "method_declaration"@ {
            traverse_children(ctx, st.enter(), i, 0).exit()
        } else if kind == "short_var_declaration"@ {
            short_var(ctx, st, i)
        } else if kind == "var_declaration"@ {
            var_decl(ctx, st, i)
        } else if kind == "assignment_statement"@ {
            assign_stmt(ctx, st, i)
        } else {
            traverse_children(ctx, st, i, 0)
        }
    } else {
        st
    }
}

/// The walk of the subtrees of node `i`'s children, from the `j`-th on.
pub open spec fn traverse_children(ctx: DetectCtx, st: DetectState, i: int, j: int) -> DetectState
    decreases i, ctx.t[i].children@.len() - j,
{
    let t = ctx.t;
    if 0 <= i < t.len() && 0 <= j < t[i].children@.len() {
        let c = t[i].children@[j] as int;
        if 0 <= c < i {
            traverse_children(ctx, traverse(ctx, st, c), i, j + 1)
        } else {
            traverse_children(ctx, st, i, j + 1)
        }
    } else {
        st
    }
}

/// Create a prompt from a string node.
fn create_prompt_from_string(
    tree: &SyntaxTree,
    k: usize,
    source: &str,
    filename: &str,
    stmt_start: u32,
    stmt_end: u32,
    comments: &CommentTracker,
    annotations: &Vec<PromptAnnotation>,
) -> (r: Prompt)
    requires
        detect_ready(tree, source, comments),
        k < tree.nodes@.len(),
        boundary_or_beyond(utf8(source@), stmt_start),
    ensures
        r@ == go_string_prompt(detect_ctx(tree, source, filename, comments), k as int, annotation_models(annotations@), stmt_start, stmt_end),
{
    let ghost ctx = detect_ctx(tree, source, filename, comments);
    let span = span_shape_string_like(tree, k, source);
    let vars: Vec<PromptVar> = Vec::new();
    assert(var_models(vars@) =~= Seq::<VarModel>::empty());
    let es = enclosure_start_exec(comments, stmt_start, Ghost(ctx));
    let joint = SpanShape { outer: Span { start: 0, end: 0 }, inner: Span { start: 0, end: 0 } };
    let content = vec![PromptContentToken::Str { span: span.inner }];
    assert(content@ =~= seq![PromptContentToken::Str { span: span.inner }]);
    build_prompt(source, filename, span, vars, annotations, content, joint, es, stmt_end)
}

/// The prompt, if any, of the value node `v` of a prompt variable.
fn value_prompt_exec(
    tree: &SyntaxTree,
    v: usize,
    source: &str,
    filename: &str,
    stmt_start: u32,
    stmt_end: u32,
    comments: &CommentTracker,
    annotations: &Vec<PromptAnnotation>,
) -> (r: Option<Prompt>)
    requires
        detect_ready(tree, source, comments),
        v < tree.nodes@.len(),
        is_prompt_value(tree.nodes@, v as int),
        boundary_or_beyond(utf8(source@), stmt_start),
    ensures
        r matches Some(p) ==> value_prompt(detect_ctx(tree, source, filename, comments), v as int, annotation_models(annotations@), stmt_start, stmt_end) == Some(p@),
        r is None ==> value_prompt(detect_ctx(tree, source, filename, comments), v as int, annotation_models(annotations@), stmt_start, stmt_end) is None,
{
    if tree.kind_is(v, "interpreted_string_literal") || tree.kind_is(v, "raw_string_literal") {
        Some(create_prompt_from_string(tree, v, source, filename, stmt_start, stmt_end, comments, annotations))
    } else if tree.kind_is(v, "binary_expression") {
        process_concatenation(tree, v, source, filename, stmt_start, stmt_end, comments, annotations)
    } else if tree.kind_is(v, "call_expression") {
        match process_strings_join(tree, v, source, filename, stmt_start, stmt_end, comments, annotations) {
            Some(p) => Some(p),
            None => process_sprintf_call(tree, v, source, filename, stmt_start, stmt_end, comments, annotations),
        }
    } else {
        Some(process_array(tree, v, source, filename, stmt_start, stmt_end, comments, annotations))
    }
}

/// Process a short variable declaration (x := value).
fn process_short_var_declaration(
    tree: &SyntaxTree,
    i: usize,
    source: &str,
    filename: &str,
    comments: &CommentTracker,
    scopes: &mut ScopeTracker,
    prompts: &mut Vec<Prompt>,
)
    requires
        detect_ready(tree, source, comments),
        old(scopes).wf(),
        i < tree.nodes@.len(),
    ensures
        final(scopes).wf(),
        detect_state(*final(scopes), final(prompts)@) == short_var(detect_ctx(tree, source, filename, comments), detect_state(*old(scopes), old(prompts)@), i as int),
{
    let ghost ctx = detect_ctx(tree, source, filename, comments);
    let ghost t = tree.nodes@;
    let ghost b = utf8(source@);
    proof {
        lemma_wf_children_precede(tree, b);
        assert(node_wf(t, i as int, b));
    }
    let ss = tree.nodes[i].start as u32;
    let se = tree.nodes[i].end as u32;
    let all = collect_statement_annotations(comments, ss, se, Ghost(ctx));
    let has_ann = all.len() > 0;
    let l = match tree.child_by_field_name(i, "left") {
        Some(l) => l,
        None => {
            return;
        },
    };
    let r = match tree.child_by_field_name(i, "right") {
        Some(r) => r,
        None => {
            return;
        },
    };
    let mut identifiers: Vec<String> = Vec::new();
    extract_identifiers(tree, l, source, &mut identifiers);
    assert(string_views(identifiers@) =~= identifiers_in(t, l as int, b));
    proof {
        assert(node_wf(t, r as int, b));
    }
    let v = if tree.kind_is(r, "expression_list") && tree.nodes[r].children.len() > 0 {
        tree.nodes[r].children[0]
    } else {
        r
    };
    if identifiers.len() == 0 {
        return;
    }
    let is_value = tree.kind_is(v, "interpreted_string_literal") || tree.kind_is(v, "raw_string_literal") || tree.kind_is(
        v,
        "binary_expression",
    ) || tree.kind_is(v, "call_expression") || tree.kind_is(v, "composite_literal") || tree.kind_is(v, "slice_literal");
    if !is_value {
        return;
    }
    let ident = identifiers[0].as_str();
    assert(ident@ == identifiers_in(t, l as int, b)[0]);
    if !is_prompt_variable_exec(ident, has_ann, scopes) {
        return;
    }
    declare(scopes, ident, has_ann, &all, Ghost(prompts@));
    let fa = final_annotations_exec(scopes, ident, &all);
    let p = value_prompt_exec(tree, v, source, filename, ss, se, comments, &fa);
    push_some(prompts, p);
}

/// Process a var_spec node.
fn process_var_spec(
    tree: &SyntaxTree,
    k: usize,
    has_prompt_annotation: bool,
    annotations: &Vec<PromptAnnotation>,
    stmt_start: u32,
    stmt_end: u32,
    source: &str,
    filename: &str,
    comments: &CommentTracker,
    scopes: &mut ScopeTracker,
    prompts: &mut Vec<Prompt>,
)
    requires
        detect_ready(tree, source, comments),
        old(scopes).wf(),
        k < tree.nodes@.len(),
        boundary_or_beyond(utf8(source@), stmt_start),
    ensures
        final(scopes).wf(),
        detect_state(*final(scopes), final(prompts)@) == var_spec(
            detect_ctx(tree, source, filename, comments),
            detect_state(*old(scopes), old(prompts)@),
            k as int,
            has_prompt_annotation,
            annotation_models(annotations@),
            stmt_start,
            stmt_end,
        ),
{
    let ghost b = utf8(source@);
    proof {
        lemma_wf_children_precede(tree, b);
        assert(node_wf(tree.nodes@, k as int, b));
    }
    let name = match tree.child_by_field_name(k, "name") {
        Some(n) => n,
        None => {
            return;
        },
    };
    let ident_s = tree.text_of(name, source);
    let ident = ident_s.as_str();
    let v = match tree.child_by_field_name(k, "value") {
        Some(v) => v,
        None => {
            return;
        },
    };
    if !is_prompt_variable_exec(ident, has_prompt_annotation, scopes) {
        return;
    }
    declare(scopes, ident, has_prompt_annotation, annotations, Ghost(prompts@));
    let fa = final_annotations_exec(scopes, ident, annotations);
    if tree.kind_is(v, "interpreted_string_literal") || tree.kind_is(v, "raw_string_literal") {
        let p = create_prompt_from_string(tree, v, source, filename, stmt_start, stmt_end, comments, &fa);
        push_some(prompts, Some(p));
    } else if tree.kind_is(v, "binary_expression") {
        let p = process_concatenation(tree, v, source, filename, stmt_start, stmt_end, comments, &fa);
        push_some(prompts, p);
    }
}

/// Process a var declaration (var x = value).
fn process_var_declaration(
    tree: &SyntaxTree,
    i: usize,
    source: &str,
    filename: &str,
    comments: &CommentTracker,
    scopes: &mut ScopeTracker,
    prompts: &mut Vec<Prompt>,
)
    requires
        detect_ready(tree, source, comments),
        old(scopes).wf(),
        i < tree.nodes@.len(),
    ensures
        final(scopes).wf(),
        detect_state(*final(scopes), final(prompts)@) == var_decl(detect_ctx(tree, source, filename, comments), detect_state(*old(scopes), old(prompts)@), i as int),
{
    let ghost ctx = detect_ctx(tree, source, filename, comments);
    let ghost t = tree.nodes@;
    let ghost b = utf8(source@);
    proof {
        lemma_wf_children_precede(tree, b);
        assert(node_wf(t, i as int, b));
    }
    let ghost st0 = detect_state(*scopes, prompts@);
    let ss = tree.nodes[i].start as u32;
    let se = tree.nodes[i].end as u32;
    let all = collect_statement_annotations(comments, ss, se, Ghost(ctx));
    let has_ann = all.len() > 0;
    let ghost ann = annotation_models(all@);
    let n = tree.nodes[i].children.len();
    let mut j: usize = 0;
    while j < n
        invariant
            ctx == detect_ctx(tree, source, filename, comments),
            detect_ready(tree, source, comments),
            children_precede(t),
            t == tree.nodes@,
            b == utf8(source@),
            scopes.wf(),
            i < t.len(),
            n == t[i as int].children@.len(),
            j <= n,
            ann == annotation_models(all@),
            has_ann == (ann.len() > 0),
            ss == t[i as int].start as u32,
            se == t[i as int].end as u32,
            boundary_or_beyond(b, ss),
            var_specs(ctx, detect_state(*scopes, prompts@), i as int, j as int, has_ann, ann, ss, se) == var_specs(ctx, st0, i as int, 0, has_ann, ann, ss, se),
        decreases n - j,
    {
        let c = tree.nodes[i].children[j];
        assert(c < i);
        if tree.kind_is(c, "var_spec") {
            process_var_spec(tree, c, has_ann, &all, ss, se, source, filename, comments, scopes, prompts);
        }
        j = j + 1;
    }
}

/// Process an assignment statement (x = value).
fn process_assignment(
    tree: &SyntaxTree,
    i: usize,
    source: &str,
    filename: &str,
    comments: &CommentTracker,
    scopes: &mut ScopeTracker,
    prompts: &mut Vec<Prompt>,
)
    requires
        detect_ready(tree, source, comments),
        old(scopes).wf(),
        i < tree.nodes@.len(),
    ensures
        final(scopes).wf(),
        detect_state(*final(scopes), final(prompts)@) == assign_stmt(detect_ctx(tree, source, filename, comments), detect_state(*old(scopes), old(prompts)@), i as int),
{
    let ghost ctx = detect_ctx(tree, source, filename, comments);
    let ghost t = tree.nodes@;
    let ghost b = utf8(source@);
    proof {
        lemma_wf_children_precede(tree, b);
        assert(node_wf(t, i as int, b));
    }
    let ghost st0 = detect_state(*scopes, prompts@);
    let ss = tree.nodes[i].start as u32;
    let se = tree.nodes[i].end as u32;
    let all = collect_statement_annotations(comments, ss, se, Ghost(ctx));
    let ghost ann = annotation_models(all@);
    let l = match tree.child_by_field_name(i, "left") {
        Some(l) => l,
        None => {
            return;
        },
    };
    let r = match tree.child_by_field_name(i, "right") {
        Some(r) => r,
        None => {
            return;
        },
    };
    proof {
        assert(node_wf(t, l as int, b));
        assert(node_wf(t, r as int, b));
    }
    let mut left_idents: Vec<String> = Vec::new();
    if tree.kind_is(l, "identifier") {
        left_idents.push(tree.text_of(l, source));
        assert(string_views(left_idents@) =~= left_identifiers(t, l as int, b));
    } else if tree.kind_is(l, "expression_list") {
        let n = tree.nodes[l].children.len();
        let mut j: usize = 0;
        while j < n
            invariant
                tree.wf(b),
                b == utf8(source@),
                t == tree.nodes@,
                children_precede(t),
                l < t.len(),
                n == t[l as int].children@.len(),
                j <= n,
                string_views(left_idents@) + identifier_children(t, l as int, b, j as int) == identifier_children(t, l as int, b, 0),
            decreases n - j,
        {
            let c = tree.nodes[l].children[j];
            assert(c < l);
            let ghost before = string_views(left_idents@);
            if tree.kind_is(c, "identifier") {
                left_idents.push(tree.text_of(c, source));
            }
            assert(string_views(left_idents@) + identifier_children(t, l as int, b, j + 1) =~= before + identifier_children(t, l as int, b, j as int));
            j = j + 1;
        }
        assert(string_views(left_idents@) =~= left_identifiers(t, l as int, b));
    } else {
        assert(string_views(left_idents@) =~= left_identifiers(t, l as int, b));
    }
    let mut right_vals: Vec<usize> = Vec::new();
    if tree.kind_is(r, "expression_list") {
        let n = tree.nodes[r].children.len();
        let mut j: usize = 0;
        while j < n
            invariant
                t == tree.nodes@,
                r < t.len(),
                n == t[r as int].children@.len(),
                j <= n,
                right_vals@ == t[r as int].children@.subrange(0, j as int),
            decreases n - j,
        {
            right_vals.push(tree.nodes[r].children[j]);
            assert(right_vals@ =~= t[r as int].children@.subrange(0, j + 1));
            j = j + 1;
        }
        assert(t[r as int].children@.subrange(0, n as int) =~= t[r as int].children@);
    } else {
        right_vals.push(r);
    }
    let ghost idents = left_identifiers(t, l as int, b);
    let ghost vals = right_values(t, r as int);
    assert(right_vals@.map_values(|c: usize| c as int) =~= vals);
    let mut q: usize = 0;
    while q < left_idents.len()
        invariant
            ctx == detect_ctx(tree, source, filename, comments),
            detect_ready(tree, source, comments),
            children_precede(t),
            t == tree.nodes@,
            b == utf8(source@),
            scopes.wf(),
            string_views(left_idents@) == idents,
            right_vals@.map_values(|c: usize| c as int) == vals,
            forall|m: int| 0 <= m < right_vals@.len() ==> #[trigger] right_vals@[m] < t.len(),
            q <= left_idents@.len(),
            ann == annotation_models(all@),
            boundary_or_beyond(b, ss),
            assign_from(ctx, detect_state(*scopes, prompts@), idents, vals, q as int, ann, ss, se) == assign_from(ctx, st0, idents, vals, 0, ann, ss, se),
        decreases left_idents@.len() - q,
    {
        let ident = left_idents[q].as_str();
        assert(ident@ == idents[q as int]);
        if scopes.is_prompt_ident(ident) && right_vals.len() > 0 {
            let v = if q < right_vals.len() {
                right_vals[q]
            } else {
                right_vals[right_vals.len() - 1]
            };
            assert(v as int == (if q < vals.len() { vals[q as int] } else { vals.last() }));
            if tree.kind_is(v, "interpreted_string_literal") || tree.kind_is(v, "raw_string_literal") {
                let fa = final_annotations_exec(scopes, ident, &all);
                let p = create_prompt_from_string(tree, v, source, filename, ss, se, comments, &fa);
                push_some(prompts, Some(p));
            }
        }
        q = q + 1;
    }
}

/// Recursively traverse nodes to find assignments and manage scopes.
fn traverse_node(
    tree: &SyntaxTree,
    i: usize,
    source: &str,
    filename: &str,
    comments: &CommentTracker,
    scopes: &mut ScopeTracker,
    prompts: &mut Vec<Prompt>,
)
    requires
        detect_ready(tree, source, comments),
        old(scopes).wf(),
        i < tree.nodes@.len(),
    ensures
        final(scopes).wf(),
        detect_state(*final(scopes), final(prompts)@) == traverse(detect_ctx(tree, source, filename, comments), detect_state(*old(scopes), old(prompts)@), i as int),
    decreases i, 1nat,
{
    if tree.kind_is(i, "function_declaration") || tree.kind_is(i, "method_declaration") {
        scopes.enter_scope();
        traverse_node_children(tree, i, source, filename, comments, scopes, prompts);
        scopes.exit_scope();
        return;
    }
    if tree.kind_is(i, "short_var_declaration") {
        process_short_var_declaration(tree, i, source, filename, comments, scopes, prompts);
        return;
    }
    if tree.kind_is(i, "var_declaration") {
        process_var_declaration(tree, i, source, filename, comments, scopes, prompts);
        return;
    }
    if tree.kind_is(i, "assignment_statement") {
        process_assignment(tree, i, source, filename, comments, scopes, prompts);
        return;
    }
    traverse_node_children(tree, i, source, filename, comments, scopes, prompts);
}

/// Traverses the children of node `i`, in order.
fn traverse_node_children(
    tree: &SyntaxTree,
    i: usize,
    source: &str,
    filename: &str,
    comments: &CommentTracker,
    scopes: &mut ScopeTracker,
    prompts: &mut Vec<Prompt>,
)
    requires
        detect_ready(tree, source, comments),
        old(scopes).wf(),
        i < tree.nodes@.len(),
    ensures
        final(scopes).wf(),
        detect_state(*final(scopes), final(prompts)@) == traverse_children(
            detect_ctx(tree, source, filename, comments),
            detect_state(*old(scopes), old(prompts)@),
            i as int,
            0,
        ),
    decreases i, 0nat,
{
    let ghost ctx = detect_ctx(tree, source, filename, comments);
    let ghost t = tree.nodes@;
    let ghost st0 = detect_state(*scopes, prompts@);
    proof {
        lemma_wf_children_precede(tree, utf8(source@));
    }
    let n = tree.nodes[i].children.len();
    let mut j: usize = 0;
    while j < n
        invariant
            ctx == detect_ctx(tree, source, filename, comments),
            detect_ready(tree, source, comments),
            children_precede(t),
            t == tree.nodes@,
            scopes.wf(),
            i < t.len(),
            n == t[i as int].children@.len(),
            j <= n,
            traverse_children(ctx, detect_state(*scopes, prompts@), i as int, j as int) == traverse_children(ctx, st0, i as int, 0),
        decreases n - j,
    {
        let c = tree.nodes[i].children[j];
        assert(c < i);
        traverse_node(tree, c, source, filename, comments, scopes, prompts);
        j = j + 1;
    }
}

/// What the detector finds in a well-formed tree with the sorted comment
/// list `cs`: the error message when the root has an error, otherwise the
/// prompts of a walk from the root.
pub open spec fn spec_detect_go(t: Seq<SyntaxNode>, root: int, b: Seq<u8>, file: Seq<char>, cs: Seq<CommentNode>) -> Result<Seq<PromptModel>, Seq<char>> {
    if t[root].has_error {
        Err(errors_message(t, b, root))
    } else {
        Ok(traverse(DetectCtx { t, b, file, cs }, initial_state(), root).prompts)
    }
}

/// Detects the prompts of a parsed Go source.
pub fn detect_prompts(tree: &SyntaxTree, source: &str, filename: &str) -> (r: ParseResult)
    requires
        tree.wf(utf8(source@)),
    ensures
        exists|cs: Seq<CommentNode>| sorted_comments_of(tree.nodes@, tree.root as int, utf8(source@), cs)
            && result_view(r) == spec_detect_go(tree.nodes@, tree.root as int, utf8(source@), filename@, cs),
{
    let root = tree.root;
    let comments = CommentTracker::new(tree, source);
    let ghost cs = comments.comment_list();
    assert(sorted_comments_of(tree.nodes@, root as int, utf8(source@), cs));
    if tree.nodes[root].has_error {
        let error = format_tree_sitter_error(tree, root, source);
        let r = ParseResult::ParseResultError { error };
        assert(result_view(r) == spec_detect_go(tree.nodes@, root as int, utf8(source@), filename@, cs));
        return r;
    }
    let mut prompts: Vec<Prompt> = Vec::new();
    let mut scopes = ScopeTracker::new();
    assert(prompt_models(prompts@) =~= Seq::<PromptModel>::empty());
    assert(detect_state(scopes, prompts@) == initial_state());
    traverse_node(tree, root, source, filename, &comments, &mut scopes, &mut prompts);
    let r = ParseResult::ParseResultSuccess { prompts };
    assert(result_view(r) == spec_detect_go(tree.nodes@, root as int, utf8(source@), filename@, cs));
    r
}

/// The Go prompt parser over tree-sitter.
pub struct ParserGo {}

impl ParserGo {
    /// Parses the source with the tree-sitter Go grammar and detects its
    /// prompts. When no tree comes back, the result is the error "Failed to
    /// parse source"; otherwise it is what `detect_prompts` finds in that tree.
    pub fn parse(source: &str, filename: &str) -> (r: ParseResult)
        ensures
            parsed_models(Grammar::Go, source@) is None ==> (r matches ParseResult::ParseResultError { error } && error@
                == "Failed to parse source"@),
            parsed_models(Grammar::Go, source@) is Some ==> exists|t: SyntaxTree, cs: Seq<CommentNode>|
                node_models(t.nodes@) == parsed_models(Grammar::Go, source@).unwrap() && t.root + 1 == t.nodes@.len()
                    && t.wf(utf8(source@)) && sorted_comments_of(t.nodes@, t.root as int, utf8(source@), cs)
                    && result_view(r) == spec_detect_go(t.nodes@, t.root as int, utf8(source@), filename@, cs),
    {
        match parse_tree(Grammar::Go, source) {
            Some(tree) => detect_prompts(&tree, source, filename),
            None => ParseResult::ParseResultError { error: String::from_str("Failed to parse source") },
        }
    }
}

impl VolumenParser for ParserGo {
    fn parse(source: &str, filename: &str) -> (r: ParseResult)
        ensures
            parsed_models(Grammar::Go, source@) is None ==> (r matches ParseResult::ParseResultError { error } && error@
                == "Failed to parse source"@),
            parsed_models(Grammar::Go, source@) is Some ==> exists|t: SyntaxTree, cs: Seq<CommentNode>|
                node_models(t.nodes@) == parsed_models(Grammar::Go, source@).unwrap() && t.root + 1 == t.nodes@.len()
                    && t.wf(utf8(source@)) && sorted_comments_of(t.nodes@, t.root as int, utf8(source@), cs)
                    && result_view(r) == spec_detect_go(t.nodes@, t.root as int, utf8(source@), filename@, cs),
    {
        ParserGo::parse(source, filename)
    }
}

proof fn lemma_var_specs_keeps(ctx: DetectCtx, st: DetectState, i: int, j: int, has_ann: bool, ann: Seq<AnnotationModel>, ss: u32, se: u32)
    requires
        st.scopes.len() >= 1,
    ensures
        keeps(st, var_specs(ctx, st, i, j, has_ann, ann, ss, se)),
    decreases ctx.t[i].children@.len() - j,
{
    let t = ctx.t;
    lemma_keeps_refl(st);
    if 0 <= i < t.len() && 0 <= j < t[i].children@.len() {
        let c = t[i].children@[j] as int;
        let st1 = if 0 <= c < t.len() && t[c].kind@ == "var_spec"@ {
            var_spec(ctx, st, c, has_ann, ann, ss, se)
        } else {
            st
        };
        if 0 <= c < t.len() && t[c].kind@ == "var_spec"@ {
            match (field_child(t, c, "name"@), field_child(t, c, "value"@)) {
                (Some(nm), Some(v)) => {
                    let ident = node_text(t, nm, ctx.b);
                    let d = declared(st, ident, has_ann, ann);
                    let fa = final_annotations(d, ident, ann);
                    lemma_declared_keeps(st, ident, has_ann, ann, go_string_prompt(ctx, v, fa, ss, se), concat_prompt(ctx, v, fa, ss, se));
                },
                _ => {},
            }
        }
        lemma_var_specs_keeps(ctx, st1, i, j + 1, has_ann, ann, ss, se);
        lemma_keeps_trans(st, st1, var_specs(ctx, st1, i, j + 1, has_ann, ann, ss, se));
    }
}

proof fn lemma_assign_from_keeps(
    ctx: DetectCtx,
    st: DetectState,
    idents: Seq<Seq<char>>,
    vals: Seq<int>,
    q: int,
    ann: Seq<AnnotationModel>,
    ss: u32,
    se: u32,
)
    requires
        st.scopes.len() >= 1,
    ensures
        keeps(st, assign_from(ctx, st, idents, vals, q, ann, ss, se)),
    decreases idents.len() - q,
{
    lemma_keeps_refl(st);
    if 0 <= q < idents.len() {
        let ident = idents[q];
        let v = if q < vals.len() {
            vals[q]
        } else {
            vals.last()
        };
        let p = go_string_prompt(ctx, v, final_annotations(st, ident, ann), ss, se);
        lemma_step_keeps(st, ident, ann, p, None);
        let st1 = if st.is_prompt(ident) && vals.len() > 0 {
            if go_string_node(ctx.t, v) {
                st.push(p)
            } else {
                st
            }
        } else {
            st
        };
        lemma_assign_from_keeps(ctx, st1, idents, vals, q + 1, ann, ss, se);
        lemma_keeps_trans(st, st1, assign_from(ctx, st1, idents, vals, q + 1, ann, ss, se));
    }
}

/// A walk keeps the depth of the scope stack (every scope it enters it
/// leaves) and only ever appends prompts: those found before it are kept
/// unchanged, in order.
pub proof fn law_walk_keeps_scopes_and_prompts(ctx: DetectCtx, st: DetectState, i: int)
    requires
        st.scopes.len() >= 1,
    ensures
        keeps(st, traverse(ctx, st, i)),
    decreases i, ctx.t[i].children@.len() + 1,
{
    let t = ctx.t;
    lemma_keeps_refl(st);
    if 0 <= i < t.len() {
        let kind = t[i].kind@;
        if kind == "function_declaration"@ || kind == "method_declaration"@ {
            lemma_walk_children_keeps(ctx, st.enter(), i, 0);
            lemma_scoped_keeps(st, traverse_children(ctx, st.enter(), i, 0));
        } else if kind == "short_var_declaration"@ {
            let ss = t[i].start as u32;
            let se = t[i].end as u32;
            let ann = statement_annotations(ctx, ss, se);
            let has_ann = ann.len() > 0;
            match (field_child(t, i, "left"@), field_child(t, i, "right"@)) {
                (Some(l), Some(r)) => {
                    let idents = identifiers_in(t, l, ctx.b);
                    let v = first_value(t, r);
                    if idents.len() > 0 {
                        let d = declared(st, idents[0], has_ann, ann);
                        lemma_declared_keeps(st, idents[0], has_ann, ann, ctx.file_prompt(), value_prompt(ctx, v, final_annotations(d, idents[0], ann), ss, se));
                    }
                },
                _ => {},
            }
        } else if kind == "var_declaration"@ {
            let ss = t[i].start as u32;
            let se = t[i].end as u32;
            let ann = statement_annotations(ctx, ss, se);
            lemma_var_specs_keeps(ctx, st, i, 0, ann.len() > 0, ann, ss, se);
        } else if kind == "assignment_statement"@ {
            let ss = t[i].start as u32;
            let se = t[i].end as u32;
            let ann = statement_annotations(ctx, ss, se);
            match (field_child(t, i, "left"@), field_child(t, i, "right"@)) {
                (Some(l), Some(r)) => {
                    lemma_assign_from_keeps(ctx, st, left_identifiers(t, l, ctx.b), right_values(t, r), 0, ann, ss, se);
                },
                _ => {},
            }
        } else {
            lemma_walk_children_keeps(ctx, st, i, 0);
        }
    }
}

proof fn lemma_walk_children_keeps(ctx: DetectCtx, st: DetectState, i: int, j: int)
    requires
        st.scopes.len() >= 1,
    ensures
        keeps(st, traverse_children(ctx, st, i, j)),
    decreases i, ctx.t[i].children@.len() - j,
{
    let t = ctx.t;
    lemma_keeps_refl(st);
    if 0 <= i < t.len() && 0 <= j < t[i].children@.len() {
        let c = t[i].children@[j] as int;
        if 0 <= c < i {
            law_walk_keeps_scopes_and_prompts(ctx, st, c);
            let s1 = traverse(ctx, st, c);
            lemma_walk_children_keeps(ctx, s1, i, j + 1);
            lemma_keeps_trans(st, s1, traverse_children(ctx, s1, i, j + 1));
        } else {
            lemma_walk_children_keeps(ctx, st, i, j + 1);
        }
    }
}

} // verus!

verus! {

/// Whether node `k` is an identifier, a call or a selector: an operand that
/// a concatenation takes as a variable.
pub open spec fn is_variable_operand(t: Seq<SyntaxNode>, k: int) -> bool {
    t[k].kind@ == "identifier"@ || t[k].kind@ == "call_expression"@ || t[k].kind@ == "selector_expression"@
}

/// Every identifier, call or selector operand of a `+` concatenation gives a
/// variable segment over that operand's range.
pub proof fn law_concat_operand_is_variable(t: Seq<SyntaxNode>, b: Seq<u8>, i: int, k: int)
    requires
        concat_operand(t, b, "binary_expression"@, "+"@, i, k),
        is_variable_operand(t, k),
    ensures
        exists|q: int|
            0 <= q < concat_segments(t, b, i).len() && (#[trigger] concat_segments(t, b, i)[q] matches ConcatSegment::Variable(
                sp,
            ) && sp.inner == Span { start: t[k].start as u32, end: t[k].end as u32 }),
    decreases i,
{
    reveal_strlit("identifier");
    reveal_strlit("call_expression");
    reveal_strlit("selector_expression");
    reveal_strlit("binary_expression");
    reveal_strlit("interpreted_string_literal");
    reveal_strlit("raw_string_literal");
    let segs = concat_segments(t, b, i);
    if t[i].kind@ == "binary_expression"@ && (field_child(t, i, "operator"@) matches Some(op) && 0 <= op < t.len()
        && node_text(t, op, b) == "+"@) {
        let ls = match field_child(t, i, "left"@) {
            Some(l) => if 0 <= l < i { concat_segments(t, b, l) } else { seq![] },
            None => seq![],
        };
        let rs = match field_child(t, i, "right"@) {
            Some(r) => if 0 <= r < i { concat_segments(t, b, r) } else { seq![] },
            None => seq![],
        };
        assert(segs == ls + rs);
        let lo = field_child(t, i, "left"@);
        if lo is Some && 0 <= lo.unwrap() < i && concat_operand(t, b, "binary_expression"@, "+"@, lo.unwrap(), k) {
            let l = lo.unwrap();
            law_concat_operand_is_variable(t, b, l, k);
            let q = choose|q: int|
                0 <= q < concat_segments(t, b, l).len() && (#[trigger] concat_segments(t, b, l)[q] matches ConcatSegment::Variable(
                    sp,
                ) && sp.inner == Span { start: t[k].start as u32, end: t[k].end as u32 });
            assert(segs[q] == ls[q]);
        } else {
            let r = field_child(t, i, "right"@).unwrap();
            law_concat_operand_is_variable(t, b, r, k);
            let q = choose|q: int|
                0 <= q < concat_segments(t, b, r).len() && (#[trigger] concat_segments(t, b, r)[q] matches ConcatSegment::Variable(
                    sp,
                ) && sp.inner == Span { start: t[k].start as u32, end: t[k].end as u32 });
            assert(segs[ls.len() + q] == rs[q]);
        }
    } else {
        assert(k == i);
        let st = t[i].start as u32;
        let en = t[i].end as u32;
        let sp = SpanShape { outer: expanded_span(b, st, en, 43u8), inner: Span { start: st, end: en } };
        assert("identifier"@.len() == 10 && "call_expression"@.len() == 15 && "selector_expression"@.len() == 19);
        assert("binary_expression"@.len() == 17 && "interpreted_string_literal"@.len() == 26 && "raw_string_literal"@.len() == 18);
        assert(t[i].kind@ != "binary_expression"@);
        assert(t[i].kind@ != "interpreted_string_literal"@ && t[i].kind@ != "raw_string_literal"@);
        assert(segs =~= seq![ConcatSegment::Variable(sp)]);
        assert(segs[0] == ConcatSegment::Variable(sp));
    }
}

/// A prompt made of a `+` concatenation holds, for each of its identifier,
/// call or selector operands, a variable with that operand's range and text.
pub proof fn law_concat_prompt_keeps_operands(ctx: DetectCtx, i: int, ann: Seq<AnnotationModel>, ss: u32, se: u32, k: int)
    requires
        concat_operand(ctx.t, ctx.b, "binary_expression"@, "+"@, i, k),
        is_variable_operand(ctx.t, k),
    ensures
        concat_prompt(ctx, i, ann, ss, se) matches Some(p) ==> exists|m: int|
            0 <= m < p.vars.len() && (#[trigger] p.vars[m]).span.inner == (Span {
                start: ctx.t[k].start as u32,
                end: ctx.t[k].end as u32,
            }) && p.vars[m].exp == range_text(ctx.b, p.vars[m].span.inner.start as int, p.vars[m].span.inner.end as int),
        concat_prompt(ctx, i, ann, ss, se) matches Some(p) ==> exists|m: int|
            0 <= m < p.content.len() && (#[trigger] p.content[m] matches PromptContentToken::Var { span, .. } && span == (Span {
                start: ctx.t[k].start as u32,
                end: ctx.t[k].end as u32,
            })),
{
    let t = ctx.t;
    if concat_prompt(ctx, i, ann, ss, se) is Some {
        let segs = concat_segments(t, ctx.b, i);
        let p = concat_prompt(ctx, i, ann, ss, se).unwrap();
        assert(p.vars == crate::detect::segment_vars(segs, ctx.b, 0));
        law_concat_operand_is_variable(t, ctx.b, i, k);
        let q = choose|q: int|
            0 <= q < segs.len() && (#[trigger] segs[q] matches ConcatSegment::Variable(sp) && sp.inner == Span {
                start: t[k].start as u32,
                end: t[k].end as u32,
            });
        let sp = segs[q]->Variable_0;
        crate::detect::lemma_segment_vars_has(segs, ctx.b, 0, q, sp);
        let toks = segs.map_values(|g: ConcatSegment| crate::detect::segment_token(g));
        assert(p.content == crate::types::numbered(toks));
        assert(toks[q] == crate::detect::segment_token(segs[q]));
        crate::types::lemma_numbered_counts(toks);
        crate::types::lemma_numbered_var_at(toks, q, sp.inner);
        assert(p.content[q] matches PromptContentToken::Var { span, .. } && span == sp.inner);
    }
}

} // verus!

verus! {

proof fn lemma_assign_from_has(
    ctx: DetectCtx,
    st: DetectState,
    idents: Seq<Seq<char>>,
    vals: Seq<int>,
    j: int,
    q: int,
    ann: Seq<AnnotationModel>,
    ss: u32,
    se: u32,
)
    requires
        st.scopes.len() >= 1,
        0 <= j <= q < idents.len(),
        q < vals.len(),
        st.is_prompt(idents[q]),
        go_string_node(ctx.t, vals[q]),
    ensures
        exists|m: int|
            0 <= m < assign_from(ctx, st, idents, vals, j, ann, ss, se).prompts.len() && (#[trigger] assign_from(
                ctx,
                st,
                idents,
                vals,
                j,
                ann,
                ss,
                se,
            ).prompts[m]).span.outer == (Span { start: ctx.t[vals[q]].start as u32, end: ctx.t[vals[q]].end as u32 }),
    decreases q - j,
{
    let ident = idents[j];
    let st1 = if st.is_prompt(ident) && vals.len() > 0 {
        let v = if j < vals.len() { vals[j] } else { vals.last() };
        if go_string_node(ctx.t, v) {
            st.push(go_string_prompt(ctx, v, final_annotations(st, ident, ann), ss, se))
        } else {
            st
        }
    } else {
        st
    };
    assert(assign_from(ctx, st, idents, vals, j, ann, ss, se) == assign_from(ctx, st1, idents, vals, j + 1, ann, ss, se));
    assert(st1.scopes == st.scopes);
    if j == q {
        let n = st1.prompts.len() - 1;
        assert(st1.prompts[n].span.outer == Span { start: ctx.t[vals[q]].start as u32, end: ctx.t[vals[q]].end as u32 });
        lemma_assign_from_keeps(ctx, st1, idents, vals, j + 1, ann, ss, se);
        let r = assign_from(ctx, st1, idents, vals, j + 1, ann, ss, se);
        assert(r.prompts.subrange(0, st1.prompts.len() as int)[n] == r.prompts[n]);
    } else {
        lemma_assign_from_has(ctx, st1, idents, vals, j + 1, q, ann, ss, se);
    }
}

/// In an assignment to several prompt variables at once, every one of them
/// paired with a string value gives a prompt over that value, whatever its
/// position among the pairs.
pub proof fn law_assignment_pairs(
    ctx: DetectCtx,
    st: DetectState,
    idents: Seq<Seq<char>>,
    vals: Seq<int>,
    ann: Seq<AnnotationModel>,
    ss: u32,
    se: u32,
    q: int,
)
    requires
        st.scopes.len() >= 1,
        0 <= q < idents.len(),
        q < vals.len(),
        st.is_prompt(idents[q]),
        go_string_node(ctx.t, vals[q]),
    ensures
        exists|m: int|
            0 <= m < assign_from(ctx, st, idents, vals, 0, ann, ss, se).prompts.len() && (#[trigger] assign_from(
                ctx,
                st,
                idents,
                vals,
                0,
                ann,
                ss,
                se,
            ).prompts[m]).span.outer == (Span { start: ctx.t[vals[q]].start as u32, end: ctx.t[vals[q]].end as u32 }),
{
    lemma_assign_from_has(ctx, st, idents, vals, 0, q, ann, ss, se);
}

} // verus!

verus! {

/// Whether node `c` is reached by the element walk over the children of
/// node `i` from the `j`-th on: it is one of them, or it is reached inside
/// one that the walk enters, which is one that is no string, no identifier,
/// no call where calls are elements, and no delimiter.
pub open spec fn element_reached(t: Seq<SyntaxNode>, i: int, j: int, c: int, calls: bool) -> bool
    decreases i, t[i].children@.len() - j,
{
    if 0 <= i < t.len() && 0 <= j < t[i].children@.len() {
        let d = t[i].children@[j] as int;
        (0 <= d < i && (d == c || (!go_string_node(t, d) && t[d].kind@ != "identifier"@ && !(calls && t[d].kind@
            == "call_expression"@) && !is_delimiter(t, d) && element_reached(t, d, 0, c, calls)))) || element_reached(
            t,
            i,
            j + 1,
            c,
            calls,
        )
    } else {
        false
    }
}

proof fn lemma_elements_vars_extend(t: Seq<SyntaxNode>, b: Seq<u8>, i: int, j: int, calls: bool, joint: bool, acc: ElementsAcc)
    ensures
        elements_from(t, b, i, j, calls, joint, acc).vars.len() >= acc.vars.len(),
        elements_from(t, b, i, j, calls, joint, acc).vars.subrange(0, acc.vars.len() as int) == acc.vars,
    decreases i, t[i].children@.len() - j,
{
    if 0 <= i < t.len() && 0 <= j < t[i].children@.len() {
        let c = t[i].children@[j] as int;
        let acc2 = if !(0 <= c < i) {
            acc
        } else if go_string_node(t, c) {
            acc.emit(joint, PromptContentToken::Str { span: go_string_shape(t[c].start as int, t[c].end as int).inner })
        } else if is_element_var(t, c, calls) {
            let sp = Span { start: t[c].start as u32, end: t[c].end as u32 };
            let a = acc.emit(joint, PromptContentToken::Var { span: sp, index: 0 });
            ElementsAcc { vars: a.vars.push(VarModel { exp: node_text(t, c, b), span: SpanShape { outer: sp, inner: sp } }), ..a }
        } else if is_delimiter(t, c) {
            acc
        } else {
            elements_from(t, b, c, 0, calls, joint, acc)
        };
        if 0 <= c < i && !go_string_node(t, c) && !is_element_var(t, c, calls) && !is_delimiter(t, c) {
            lemma_elements_vars_extend(t, b, c, 0, calls, joint, acc);
        }
        assert(acc2.vars.len() >= acc.vars.len() && acc2.vars.subrange(0, acc.vars.len() as int) =~= acc.vars);
        lemma_elements_vars_extend(t, b, i, j + 1, calls, joint, acc2);
        let r = elements_from(t, b, i, j + 1, calls, joint, acc2);
        assert(r.vars.subrange(0, acc.vars.len() as int) =~= r.vars.subrange(0, acc2.vars.len() as int).subrange(
            0,
            acc.vars.len() as int,
        ));
    }
}

/// Every identifier element, and every call element where calls count, that
/// the element walk reaches gives a variable over that element's range with
/// its text.
pub proof fn law_elements_keep_variables(
    t: Seq<SyntaxNode>,
    b: Seq<u8>,
    i: int,
    j: int,
    calls: bool,
    joint: bool,
    acc: ElementsAcc,
    c: int,
)
    requires
        element_reached(t, i, j, c, calls),
        t[c].kind@ == "identifier"@ || (calls && t[c].kind@ == "call_expression"@),
    ensures
        exists|m: int|
            0 <= m < elements_from(t, b, i, j, calls, joint, acc).vars.len() && (#[trigger] elements_from(
                t,
                b,
                i,
                j,
                calls,
                joint,
                acc,
            ).vars[m]).span.inner == (Span { start: t[c].start as u32, end: t[c].end as u32 }) && elements_from(
                t,
                b,
                i,
                j,
                calls,
                joint,
                acc,
            ).vars[m].exp == node_text(t, c, b),
    decreases i, t[i].children@.len() - j,
{
    let d = t[i].children@[j] as int;
    let acc2 = if !(0 <= d < i) {
        acc
    } else if go_string_node(t, d) {
        acc.emit(joint, PromptContentToken::Str { span: go_string_shape(t[d].start as int, t[d].end as int).inner })
    } else if is_element_var(t, d, calls) {
        let sp = Span { start: t[d].start as u32, end: t[d].end as u32 };
        let a = acc.emit(joint, PromptContentToken::Var { span: sp, index: 0 });
        ElementsAcc { vars: a.vars.push(VarModel { exp: node_text(t, d, b), span: SpanShape { outer: sp, inner: sp } }), ..a }
    } else if is_delimiter(t, d) {
        acc
    } else {
        elements_from(t, b, d, 0, calls, joint, acc)
    };
    let r = elements_from(t, b, i, j + 1, calls, joint, acc2);
    assert(elements_from(t, b, i, j, calls, joint, acc) == r);
    if element_reached(t, i, j + 1, c, calls) {
        law_elements_keep_variables(t, b, i, j + 1, calls, joint, acc2, c);
    } else if d == c {
        assert(!go_string_node(t, c)) by {
            reveal_strlit("identifier");
            reveal_strlit("call_expression");
            reveal_strlit("interpreted_string_literal");
            reveal_strlit("raw_string_literal");
            assert("identifier"@.len() == 10 && "call_expression"@.len() == 15);
            assert("interpreted_string_literal"@.len() == 26 && "raw_string_literal"@.len() == 18);
        }
        assert(is_element_var(t, c, calls));
        let n = acc2.vars.len() - 1;
        lemma_elements_vars_extend(t, b, i, j + 1, calls, joint, acc2);
        assert(r.vars.subrange(0, acc2.vars.len() as int)[n] == r.vars[n]);
    } else {
        assert(!is_element_var(t, d, calls));
        law_elements_keep_variables(t, b, d, 0, calls, joint, acc, c);
        let m = choose|m: int|
            0 <= m < acc2.vars.len() && (#[trigger] acc2.vars[m]).span.inner == (Span {
                start: t[c].start as u32,
                end: t[c].end as u32,
            }) && acc2.vars[m].exp == node_text(t, c, b);
        lemma_elements_vars_extend(t, b, i, j + 1, calls, joint, acc2);
        assert(r.vars.subrange(0, acc2.vars.len() as int)[m] == r.vars[m]);
    }
}

} // verus!
