//! The Ruby prompt detector over a tree-sitter syntax tree.
//!
//! A prompt is a string, a heredoc or a `+` concatenation assigned to a
//! prompt variable: one whose name contains `prompt` (in any letter case),
//! whose statement carries a `@prompt` annotation, or that a scope marked
//! before, by an earlier assignment or an annotated bare identifier.
use crate::comments::{CommentNode, CommentTracker};
use crate::detect::{
    concat_operand,
    boundary_or_beyond, build_prompt, collect_statement_annotations, declare, declared, detect_ctx, detect_ready,
    detect_state, enclosure_start_exec, errors_message, final_annotations, final_annotations_exec,
    format_tree_sitter_error, initial_state, is_prompt_variable_exec, make_prompt, push_some, statement_annotations,
    ConcatSegment, DetectCtx, DetectState, keeps, lemma_declared_keeps, lemma_keeps_refl, lemma_keeps_trans, lemma_scoped_keeps,
    lemma_step_keeps,
};
use crate::concat::{
    build_concat_parts, has_other, has_text, operand_token, operand_vars, operands_acceptable, operands_ranged, operands_shape,
};
use crate::go::scope::ScopeTracker;
use crate::java::parser::{lead_ws_bytes, lead_ws_bytes_exec, line_bounds, min_indent_of_lines, min_line_indent, next_line};
use crate::php::parser::{create_prompt_from_range, range_prompt};
use crate::python::parser::{build_content_tokens, content_tokens, is_prompt_variable, result_view, sorted_comments_of, string_views};
use crate::ruby::spans::{
    extract_interpolation_vars, get_heredoc_info, heredoc_info, interpolation_vars, is_string_like, ruby_string_shape,
    span_shape_string_like, spec_is_string_like, HeredocInfo,
};
use crate::syntax::{children_precede, field_child, lemma_wf_children_precede, node_text, node_wf, SyntaxNode, SyntaxTree};
use crate::text::{lemma_find_byte_found, range_text, substr, text_eq, utf8, valid_range};
use crate::treesitter::{parse_tree, Grammar};
use crate::types::{
    annotation_models, empty_shape, prompt_models, var_models, AnnotationModel, ParseResult, Prompt, PromptAnnotation,
    PromptContentToken, PromptModel, PromptVar, Span, SpanShape, VarModel,
};
use crate::parser_core::VolumenParser;
use crate::treesitter::{node_models, parsed_models};
use vstd::prelude::*;
use vstd::string::StringExecFns;

verus! {

/// Whether node `k` is among the children of node `p`.
pub open spec fn has_child(t: Seq<SyntaxNode>, p: int, k: int) -> bool {
    exists|j: int| 0 <= j < t[p].children@.len() && t[p].children@[j] == k
}

/// The first node from the `p`-th on that holds node `k` as a child.
pub open spec fn parent_from(t: Seq<SyntaxNode>, k: int, p: int) -> Option<int>
    decreases t.len() - p,
{
    if 0 <= p < t.len() {
        if has_child(t, p, k) {
            Some(p)
        } else {
            parent_from(t, k, p + 1)
        }
    } else {
        None
    }
}

/// The nearest node of kind `string` among node `k` and its ancestors.
pub open spec fn string_ancestor(t: Seq<SyntaxNode>, k: int) -> Option<int>
    decreases t.len() - k,
{
    if !(0 <= k < t.len()) {
        None
    } else if t[k].kind@ == "string"@ {
        Some(k)
    } else {
        match parent_from(t, k, k + 1) {
            Some(p) => if k < p < t.len() {
                string_ancestor(t, p)
            } else {
                None
            },
            None => None,
        }
    }
}

/// The node whose span a prompt of string node `k` takes: for a heredoc
/// opener or body, its nearest enclosing `string` when there is one;
/// otherwise `k` itself.
pub open spec fn normalized_node(t: Seq<SyntaxNode>, k: int) -> int {
    if t[k].kind@ == "heredoc_beginning"@ || t[k].kind@ == "heredoc_body"@ {
        match string_ancestor(t, k) {
            Some(s) => s,
            None => k,
        }
    } else {
        k
    }
}

/// The parent of node `k`, found among the nodes after it.
fn parent_of(tree: &SyntaxTree, k: usize) -> (r: Option<usize>)
    requires
        k < tree.nodes@.len(),
    ensures
        r matches Some(p) ==> parent_from(tree.nodes@, k as int, k + 1) == Some(p as int) && k < p < tree.nodes@.len(),
        r is None ==> parent_from(tree.nodes@, k as int, k + 1) is None,
{
    let ghost t = tree.nodes@;
    let n = tree.nodes.len();
    let mut p = k + 1;
    while p < n
        invariant
            t == tree.nodes@,
            n == t.len(),
            k < p <= n,
            parent_from(t, k as int, k + 1) == parent_from(t, k as int, p as int),
        decreases n - p,
    {
        let m = tree.nodes[p].children.len();
        let mut j: usize = 0;
        while j < m
            invariant
                t == tree.nodes@,
                n == t.len(),
                k < p < n,
                parent_from(t, k as int, k + 1) == parent_from(t, k as int, p as int),
                m == t[p as int].children@.len(),
                j <= m,
                forall|q: int| 0 <= q < j ==> t[p as int].children@[q] != k,
            decreases m - j,
        {
            if tree.nodes[p].children[j] == k {
                assert(has_child(t, p as int, k as int));
                return Some(p);
            }
            j = j + 1;
        }
        assert(!has_child(t, p as int, k as int));
        p = p + 1;
    }
    None
}

/// The node whose span a prompt of string node `k` takes.
fn normalize_string_node(tree: &SyntaxTree, k: usize) -> (r: usize)
    requires
        k < tree.nodes@.len(),
    ensures
        r == normalized_node(tree.nodes@, k as int),
        r < tree.nodes@.len(),
{
    let ghost t = tree.nodes@;
    if !tree.kind_is(k, "heredoc_beginning") && !tree.kind_is(k, "heredoc_body") {
        return k;
    }
    let mut cur = k;
    loop
        invariant
            t == tree.nodes@,
            k < t.len(),
            cur < t.len(),
            t[k as int].kind@ == "heredoc_beginning"@ || t[k as int].kind@ == "heredoc_body"@,
            string_ancestor(t, k as int) == string_ancestor(t, cur as int),
        decreases t.len() - cur,
    {
        if tree.kind_is(cur, "string") {
            return cur;
        }
        match parent_of(tree, cur) {
            Some(p) => {
                cur = p;
            },
            None => {
                return k;
            },
        }
    }
}

/// The tokens of the line `[ts, te)` from the `j`-th variable on, the text
/// resuming at `pos`: each variable lying wholly within the line, with the
/// text before it, then the rest of the line.
pub open spec fn line_tokens_from(vs: Seq<VarModel>, j: int, pos: u32, ts: int, te: int) -> Seq<PromptContentToken>
    decreases vs.len() - j,
{
    if j >= vs.len() || j < 0 {
        if pos < te {
            seq![PromptContentToken::Str { span: Span { start: pos, end: te as u32 } }]
        } else {
            seq![]
        }
    } else {
        let v = vs[j].span.outer;
        if v.start >= ts && v.end <= te {
            let before = if pos < v.start {
                seq![PromptContentToken::Str { span: Span { start: pos, end: v.start } }]
            } else {
                seq![]
            };
            before + seq![PromptContentToken::Var { span: v, index: 0 }] + line_tokens_from(vs, j + 1, v.end, ts, te)
        } else {
            line_tokens_from(vs, j + 1, pos, ts, te)
        }
    }
}

/// The content tokens of the lines of a heredoc body `b[cur..be]`: each
/// line, line break included, less the first `inc` bytes of its leading
/// whitespace, split around the variables that lie wholly within it.
pub open spec fn heredoc_tokens(b: Seq<u8>, be: int, cur: int, inc: int, vs: Seq<VarModel>) -> Seq<PromptContentToken>
    decreases be - cur,
{
    if cur < 0 || cur >= be || be > b.len() {
        seq![]
    } else {
        proof {
            lemma_find_byte_found(b.subrange(0, be), 10u8, cur);
        }
        let (te, le) = line_bounds(b, be, cur);
        let ind = lead_ws_bytes(range_text(b, cur, te));
        let strip = if ind < inc {
            ind
        } else {
            inc
        };
        let ts = cur + strip;
        line_tokens_from(vs, 0, ts as u32, ts, le) + heredoc_tokens(b, be, le, inc, vs)
    }
}

/// The common indentation of a heredoc body `b[bs..be]`: the least leading
/// whitespace of its non-blank lines, or 0 when all are blank.
pub open spec fn heredoc_indent(b: Seq<u8>, bs: int, be: int) -> int {
    match min_line_indent(b, be, bs, None) {
        Some(x) => x,
        None => 0,
    }
}

/// The content tokens of a Ruby string with span `span` and variables
/// `vars`: a squiggly heredoc gives the tokens of its body lines less their
/// common indentation; any other string the text around its variables.
pub open spec fn rb_content(b: Seq<u8>, span: SpanShape, vars: Seq<VarModel>, info: Option<HeredocInfo>) -> Seq<PromptContentToken> {
    match info {
        Some(i) => if i.strips_whitespace {
            heredoc_tokens(b, i.body_end as int, i.body_start as int, heredoc_indent(b, i.body_start as int, i.body_end as int), vars)
        } else {
            content_tokens(span, vars)
        },
        None => content_tokens(span, vars),
    }
}

/// The prompt made of the string node `k`, taken at its normalized node:
/// that node's span shape, its interpolations, and its content tokens.
pub open spec fn rb_string_prompt(ctx: DetectCtx, k: int, ann: Seq<AnnotationModel>, ss: u32, se: u32) -> PromptModel {
    let n = normalized_node(ctx.t, k);
    let span = ruby_string_shape(ctx.t, n, ctx.b);
    let vars = interpolation_vars(ctx.t, n, ctx.b);
    make_prompt(ctx, span, vars, ann, rb_content(ctx.b, span, vars, heredoc_info(ctx.t, n, ctx.b)), empty_shape(), ss, se)
}

/// Calculate the common leading whitespace of the heredoc body
/// `source[body_start..body_end]`, skipping blank lines.
pub fn calculate_min_heredoc_indent(source: &str, body_start: usize, body_end: usize) -> (r: usize)
    requires
        valid_range(utf8(source@), body_start as int, body_end as int),
    ensures
        r == heredoc_indent(utf8(source@), body_start as int, body_end as int),
{
    match min_indent_of_lines(source, body_start, body_end) {
        Some(x) => x,
        None => 0,
    }
}

/// The tokens of the line `[ts, te)`: the variables of `vars` lying wholly
/// within it and the text around them.
fn line_tokens(vars: &Vec<PromptVar>, ts: u32, te: u32) -> (r: Vec<PromptContentToken>)
    ensures
        r@ == line_tokens_from(var_models(vars@), 0, ts, ts as int, te as int),
{
    let ghost vm = var_models(vars@);
    let mut tokens: Vec<PromptContentToken> = Vec::new();
    let mut pos = ts;
    let mut j: usize = 0;
    while j < vars.len()
        invariant
            vm == var_models(vars@),
            j <= vars@.len(),
            tokens@ + line_tokens_from(vm, j as int, pos, ts as int, te as int) == line_tokens_from(vm, 0, ts, ts as int, te as int),
        decreases vars@.len() - j,
    {
        let ghost before = tokens@;
        let ghost pos0 = pos;
        let v = vars[j].span.outer;
        assert(vm[j as int].span.outer == v);
        if v.start >= ts && v.end <= te {
            if pos < v.start {
                tokens.push(PromptContentToken::Str { span: Span { start: pos, end: v.start } });
            }
            tokens.push(PromptContentToken::Var { span: v, index: 0 });
            pos = v.end;
        }
        assert(tokens@ + line_tokens_from(vm, j + 1, pos, ts as int, te as int) =~= before + line_tokens_from(
            vm,
            j as int,
            pos0,
            ts as int,
            te as int,
        ));
        j = j + 1;
    }
    if pos < te {
        tokens.push(PromptContentToken::Str { span: Span { start: pos, end: te } });
    }
    assert(tokens@ =~= line_tokens_from(vm, 0, ts, ts as int, te as int));
    tokens
}

/// Build content tokens for squiggly heredocs with whitespace stripping.
/// Creates separate tokens for each line, starting after the stripped whitespace.
pub fn build_heredoc_tokens(vars: &Vec<PromptVar>, source: &str, info: &HeredocInfo) -> (r: Vec<PromptContentToken>)
    requires
        valid_range(utf8(source@), info.body_start as int, info.body_end as int),
        utf8(source@).len() < u32::MAX,
    ensures
        r@ == heredoc_tokens(
            utf8(source@),
            info.body_end as int,
            info.body_start as int,
            heredoc_indent(utf8(source@), info.body_start as int, info.body_end as int),
            var_models(vars@),
        ),
{
    let ghost b = utf8(source@);
    let ghost vm = var_models(vars@);
    proof {
        vstd::utf8::encode_utf8_valid_utf8(source@);
    }
    let body_start = info.body_start as usize;
    let body_end = info.body_end as usize;
    let min_indent = calculate_min_heredoc_indent(source, body_start, body_end);
    let mut tokens: Vec<PromptContentToken> = Vec::new();
    let mut cur = body_start;
    while cur < body_end
        invariant
            b == utf8(source@),
            vm == var_models(vars@),
            b.len() < u32::MAX,
            body_start <= cur <= body_end <= b.len(),
            vstd::utf8::is_char_boundary(b, cur as int),
            vstd::utf8::is_char_boundary(b, body_end as int),
            tokens@ + heredoc_tokens(b, body_end as int, cur as int, min_indent as int, vm) == heredoc_tokens(
                b,
                body_end as int,
                body_start as int,
                min_indent as int,
                vm,
            ),
        decreases body_end - cur,
    {
        let (te, le) = next_line(source, body_end, cur);
        let line = substr(source, cur, te);
        let ind = lead_ws_bytes_exec(line);
        let strip = if ind < min_indent {
            ind
        } else {
            min_indent
        };
        let ts = cur + strip;
        let ghost before = tokens@;
        let mut more = line_tokens(vars, ts as u32, le as u32);
        tokens.append(&mut more);
        assert(tokens@ + heredoc_tokens(b, body_end as int, le as int, min_indent as int, vm) =~= before + heredoc_tokens(
            b,
            body_end as int,
            cur as int,
            min_indent as int,
            vm,
        ));
        cur = le;
    }
    assert(tokens@ =~= heredoc_tokens(b, body_end as int, body_start as int, min_indent as int, vm));
    tokens
}

/// Build content tokens from span and variables, with the heredoc
/// information of the string when it has any.
fn build_rb_content_tokens(span: &SpanShape, vars: &Vec<PromptVar>, source: &str, heredoc: Option<HeredocInfo>) -> (r: Vec<
    PromptContentToken,
>)
    requires
        utf8(source@).len() < u32::MAX,
        heredoc matches Some(i) ==> valid_range(utf8(source@), i.body_start as int, i.body_end as int),
    ensures
        r@ == rb_content(utf8(source@), *span, var_models(vars@), heredoc),
{
    match heredoc {
        Some(info) => {
            if info.strips_whitespace {
                return build_heredoc_tokens(vars, source, &info);
            }
        },
        None => {},
    }
    build_content_tokens(span, vars)
}

/// Whether a node kind counts as a variable in a concatenation: a name, a
/// constant, an instance, class or global variable, or a call.
pub open spec fn is_rb_variable_kind(k: Seq<char>) -> bool {
    k == "identifier"@ || k == "constant"@ || k == "instance_variable"@ || k == "class_variable"@ || k
        == "global_variable"@ || k == "call"@ || k == "method_call"@
}

/// Whether a node kind is a number or boolean literal.
pub open spec fn is_rb_primitive_kind(k: Seq<char>) -> bool {
    k == "integer"@ || k == "float"@ || k == "true"@ || k == "false"@
}

/// The range of node `i`, as both outer and inner range.
pub open spec fn node_span(t: Seq<SyntaxNode>, i: int) -> SpanShape {
    let sp = Span { start: t[i].start as u32, end: t[i].end as u32 };
    SpanShape { outer: sp, inner: sp }
}

/// The first child of node `i`, from the `j`-th on, that is not a parenthesis.
pub open spec fn paren_child(t: Seq<SyntaxNode>, i: int, j: int) -> Option<int>
    decreases t[i].children@.len() - j,
{
    if 0 <= i < t.len() && 0 <= j < t[i].children@.len() {
        let c = t[i].children@[j] as int;
        if t[c].kind@ != "("@ && t[c].kind@ != ")"@ {
            Some(c)
        } else {
            paren_child(t, i, j + 1)
        }
    } else {
        None
    }
}

/// The segment of a single operand node `i`: a string is text, a variable
/// or call is a variable, a number or boolean a primitive; parentheses are
/// looked through; anything else (an array or hash among them) cannot be
/// part of a prompt.
pub open spec fn rb_classify(t: Seq<SyntaxNode>, b: Seq<u8>, i: int) -> Seq<ConcatSegment>
    decreases i,
{
    if !(0 <= i < t.len()) {
        seq![]
    } else {
        let kind = t[i].kind@;
        if kind == "string"@ || kind == "string_content"@ || kind == "heredoc_body"@ {
            seq![ConcatSegment::Text(ruby_string_shape(t, i, b))]
        } else if is_rb_variable_kind(kind) {
            seq![ConcatSegment::Variable(node_span(t, i))]
        } else if is_rb_primitive_kind(kind) {
            seq![ConcatSegment::Primitive(node_span(t, i))]
        } else if kind == "parenthesized_statements"@ {
            match paren_child(t, i, 0) {
                Some(c) => if 0 <= c < i {
                    rb_classify(t, b, c)
                } else {
                    seq![ConcatSegment::Other]
                },
                None => seq![ConcatSegment::Other],
            }
        } else {
            seq![ConcatSegment::Other]
        }
    }
}

/// The segments of the `+` concatenation rooted at node `i`: a `binary`
/// node with operator `+` gives the segments of its left then its right
/// operand; any other node is a single operand.
pub open spec fn rb_segments(t: Seq<SyntaxNode>, b: Seq<u8>, i: int) -> Seq<ConcatSegment>
    decreases i,
{
    if !(0 <= i < t.len()) {
        seq![]
    } else if t[i].kind@ != "binary"@ {
        rb_classify(t, b, i)
    } else {
        match field_child(t, i, "operator"@) {
            None => rb_classify(t, b, i),
            Some(op) => if !(0 <= op < t.len() && node_text(t, op, b) == "+"@) {
                rb_classify(t, b, i)
            } else {
                let l = match field_child(t, i, "left"@) {
                    Some(l) => if 0 <= l < i {
                        rb_segments(t, b, l)
                    } else {
                        seq![]
                    },
                    None => seq![],
                };
                let r = match field_child(t, i, "right"@) {
                    Some(r) => if 0 <= r < i {
                        rb_segments(t, b, r)
                    } else {
                        seq![]
                    },
                    None => seq![],
                };
                l + r
            },
        }
    }
}

/// The first child of node `i` that is not a parenthesis.
fn paren_child_exec(tree: &SyntaxTree, i: usize) -> (r: Option<usize>)
    requires
        children_precede(tree.nodes@),
        i < tree.nodes@.len(),
    ensures
        r matches Some(c) ==> paren_child(tree.nodes@, i as int, 0) == Some(c as int) && c < i,
        r is None ==> paren_child(tree.nodes@, i as int, 0) is None,
{
    let ghost t = tree.nodes@;
    let n = tree.nodes[i].children.len();
    let mut j: usize = 0;
    while j < n
        invariant
            t == tree.nodes@,
            children_precede(t),
            i < t.len(),
            n == t[i as int].children@.len(),
            j <= n,
            paren_child(t, i as int, 0) == paren_child(t, i as int, j as int),
        decreases n - j,
    {
        let c = tree.nodes[i].children[j];
        assert(c < i);
        if !tree.kind_is(c, "(") && !tree.kind_is(c, ")") {
            return Some(c);
        }
        j = j + 1;
    }
    None
}

/// Classify a single node as a segment
fn classify_single_node(tree: &SyntaxTree, i: usize, source: &str) -> (r: Vec<ConcatSegment>)
    requires
        tree.wf(utf8(source@)),
        i < tree.nodes@.len(),
    ensures
        r@ == rb_classify(tree.nodes@, utf8(source@), i as int),
        operands_ranged(r@, utf8(source@)),
    decreases i,
{
    let ghost t = tree.nodes@;
    let ghost b = utf8(source@);
    proof {
        lemma_wf_children_precede(tree, b);
        assert(node_wf(t, i as int, b));
    }
    if tree.kind_is(i, "string") || tree.kind_is(i, "string_content") || tree.kind_is(i, "heredoc_body") {
        let span = span_shape_string_like(tree, i, source);
        return vec![ConcatSegment::Text(span)];
    }
    let sp = Span { start: tree.nodes[i].start as u32, end: tree.nodes[i].end as u32 };
    if tree.kind_is(i, "identifier") || tree.kind_is(i, "constant") || tree.kind_is(i, "instance_variable")
        || tree.kind_is(i, "class_variable") || tree.kind_is(i, "global_variable") || tree.kind_is(i, "call")
        || tree.kind_is(i, "method_call") {
        return vec![ConcatSegment::Variable(SpanShape { outer: sp, inner: sp })];
    }
    if tree.kind_is(i, "integer") || tree.kind_is(i, "float") || tree.kind_is(i, "true") || tree.kind_is(i, "false") {
        return vec![ConcatSegment::Primitive(SpanShape { outer: sp, inner: sp })];
    }
    if tree.kind_is(i, "parenthesized_statements") {
        match paren_child_exec(tree, i) {
            Some(c) => {
                return classify_single_node(tree, c, source);
            },
            None => {
                return vec![ConcatSegment::Other];
            },
        }
    }
    vec![ConcatSegment::Other]
}

/// Extract segments from a concatenation expression
fn extract_concat_segments(tree: &SyntaxTree, i: usize, source: &str) -> (r: Vec<ConcatSegment>)
    requires
        tree.wf(utf8(source@)),
        i < tree.nodes@.len(),
    ensures
        r@ == rb_segments(tree.nodes@, utf8(source@), i as int),
        operands_ranged(r@, utf8(source@)),
    decreases i,
{
    let ghost t = tree.nodes@;
    let ghost b = utf8(source@);
    proof {
        lemma_wf_children_precede(tree, b);
    }
    if !tree.kind_is(i, "binary") {
        return classify_single_node(tree, i, source);
    }
    let op = match tree.child_by_field_name(i, "operator") {
        Some(op) => op,
        None => {
            return classify_single_node(tree, i, source);
        },
    };
    let op_text = tree.text_of(op, source);
    if !text_eq(op_text.as_str(), "+") {
        return classify_single_node(tree, i, source);
    }
    let mut segments: Vec<ConcatSegment> = Vec::new();
    match tree.child_by_field_name(i, "left") {
        Some(l) => {
            segments = extract_concat_segments(tree, l, source);
        },
        None => {},
    }
    let ghost left = segments@;
    match tree.child_by_field_name(i, "right") {
        Some(r) => {
            let mut more = extract_concat_segments(tree, r, source);
            let ghost right = more@;
            segments.append(&mut more);
            assert forall|q: int| 0 <= q < segments@.len() implies match #[trigger] segments@[q] {
                ConcatSegment::Variable(sp) => valid_range(b, sp.inner.start as int, sp.inner.end as int),
                ConcatSegment::Primitive(sp) => valid_range(b, sp.inner.start as int, sp.inner.end as int),
                _ => true,
            } by {
                if q < left.len() {
                    assert(segments@[q] == left[q]);
                } else {
                    assert(segments@[q] == right[q - left.len()]);
                }
            }
        },
        None => {},
    }
    segments
}

/// The prompt of the `+` concatenation at node `k`, if it is one: `None`
/// when the operator is not `+`, when no operand is a string or when an
/// operand cannot be part of a prompt; otherwise its inner range runs from
/// the first string's inner start to the last string's inner end.
pub open spec fn rb_concat_prompt(ctx: DetectCtx, k: int, ann: Seq<AnnotationModel>, ss: u32, se: u32) -> Option<PromptModel> {
    let t = ctx.t;
    let b = ctx.b;
    match field_child(t, k, "operator"@) {
        None => None,
        Some(op) => if !(0 <= op < t.len() && node_text(t, op, b) == "+"@) {
            None
        } else {
            let segs = rb_segments(t, b, k);
            if !has_text(segs) || has_other(segs) {
                None
            } else {
                let lo = t[k].start as u32;
                let hi = t[k].end as u32;
                Some(
                    make_prompt(
                        ctx,
                        operands_shape(segs, lo, hi),
                        operand_vars(segs, b, lo, hi, 0),
                        ann,
                        segs.map_values(|g: ConcatSegment| operand_token(g)),
                        empty_shape(),
                        ss,
                        se,
                    ),
                )
            }
        },
    }
}

/// Process a binary expression for string concatenation
fn process_concatenation(
    tree: &SyntaxTree,
    k: usize,
    source: &str,
    filename: &str,
    stmt_start: u32,
    stmt_end: u32,
    comments: &CommentTracker,
    annotations: &Vec<PromptAnnotation>,
) -> (r: Option<Prompt>)
    requires
        detect_ready(tree, source, comments),
        k < tree.nodes@.len(),
        boundary_or_beyond(utf8(source@), stmt_start),
    ensures
        r matches Some(p) ==> rb_concat_prompt(detect_ctx(tree, source, filename, comments), k as int, annotation_models(annotations@), stmt_start, stmt_end) == Some(p@),
        r is None ==> rb_concat_prompt(detect_ctx(tree, source, filename, comments), k as int, annotation_models(annotations@), stmt_start, stmt_end) is None,
{
    let ghost ctx = detect_ctx(tree, source, filename, comments);
    let ghost t = tree.nodes@;
    let ghost b = utf8(source@);
    proof {
        assert(node_wf(t, k as int, b));
    }
    let op = match tree.child_by_field_name(k, "operator") {
        Some(op) => op,
        None => {
            return None;
        },
    };
    let op_text = tree.text_of(op, source);
    if !text_eq(op_text.as_str(), "+") {
        return None;
    }
    let segments = extract_concat_segments(tree, k, source);
    if !operands_acceptable(&segments) {
        return None;
    }
    let outer = Span { start: tree.nodes[k].start as u32, end: tree.nodes[k].end as u32 };
    let (span, vars, content) = build_concat_parts(&segments, outer, source);
    let es = enclosure_start_exec(comments, stmt_start, Ghost(ctx));
    let joint = SpanShape { outer: Span { start: 0, end: 0 }, inner: Span { start: 0, end: 0 } };
    Some(build_prompt(source, filename, span, vars, annotations, content, joint, es, stmt_end))
}

/// Create a prompt from a string node.
fn create_prompt_from_string(
    tree: &SyntaxTree,
    k: usize,
    source: &str,
    filename: &str,
    stmt_start: u32,
    stmt_end: u32,
    comments: &CommentTracker,
    annotations: &Vec<PromptAnnotation>,
) -> (r: Prompt)
    requires
        detect_ready(tree, source, comments),
        k < tree.nodes@.len(),
        boundary_or_beyond(utf8(source@), stmt_start),
    ensures
        r@ == rb_string_prompt(detect_ctx(tree, source, filename, comments), k as int, annotation_models(annotations@), stmt_start, stmt_end),
{
    let ghost ctx = detect_ctx(tree, source, filename, comments);
    let node = normalize_string_node(tree, k);
    let span = span_shape_string_like(tree, node, source);
    let vars = extract_interpolation_vars(tree, node, source);
    let heredoc = get_heredoc_info(tree, node, source);
    let content = build_rb_content_tokens(&span, &vars, source, heredoc);
    let es = enclosure_start_exec(comments, stmt_start, Ghost(ctx));
    let joint = SpanShape { outer: Span { start: 0, end: 0 }, inner: Span { start: 0, end: 0 } };
    build_prompt(source, filename, span, vars, annotations, content, joint, es, stmt_end)
}


/// The texts of the `identifier` nodes of node `i`'s subtree, in pre-order.
pub open spec fn rb_identifiers_in(t: Seq<SyntaxNode>, i: int, b: Seq<u8>) -> Seq<Seq<char>>
    decreases i, t[i].children@.len() + 1,
{
    if 0 <= i < t.len() {
        if t[i].kind@ == "identifier"@ {
            seq![node_text(t, i, b)]
        } else {
            rb_identifiers_in_children(t, i, 0, b)
        }
    } else {
        seq![]
    }
}

/// The identifier texts of the subtrees of the children of `i`, from the `j`-th on.
pub open spec fn rb_identifiers_in_children(t: Seq<SyntaxNode>, i: int, j: int, b: Seq<u8>) -> Seq<Seq<char>>
    decreases i, t[i].children@.len() - j,
{
    if 0 <= i < t.len() && 0 <= j < t[i].children@.len() {
        let c = t[i].children@[j] as int;
        if 0 <= c < i {
            rb_identifiers_in(t, c, b) + rb_identifiers_in_children(t, i, j + 1, b)
        } else {
            rb_identifiers_in_children(t, i, j + 1, b)
        }
    } else {
        seq![]
    }
}

/// Extract identifiers from a left_assignment_list or similar pattern.
fn extract_identifiers(tree: &SyntaxTree, i: usize, source: &str, identifiers: &mut Vec<String>)
    requires
        tree.wf(utf8(source@)),
        i < tree.nodes@.len(),
    ensures
        string_views(final(identifiers)@) == string_views(old(identifiers)@) + rb_identifiers_in(tree.nodes@, i as int, utf8(source@)),
    decreases i,
{
    let ghost t = tree.nodes@;
    let ghost b = utf8(source@);
    if tree.kind_is(i, "identifier") {
        let name = tree.text_of(i, source);
        let ghost before = identifiers@;
        identifiers.push(name);
        assert(string_views(identifiers@) =~= string_views(before) + rb_identifiers_in(t, i as int, b));
        return;
    }
    let ghost base = string_views(identifiers@);
    let n = tree.nodes[i].children.len();
    let mut j: usize = 0;
    while j < n
        invariant
            tree.wf(b),
            b == utf8(source@),
            t == tree.nodes@,
            i < t.len(),
            t[i as int].kind@ != "identifier"@,
            n == t[i as int].children@.len(),
            j <= n,
            string_views(identifiers@) + rb_identifiers_in_children(t, i as int, j as int, b) == base + rb_identifiers_in_children(t, i as int, 0, b),
        decreases n - j,
    {
        let c = tree.nodes[i].children[j];
        proof {
            assert(node_wf(t, i as int, b));
        }
        let ghost before = string_views(identifiers@);
        extract_identifiers(tree, c, source, identifiers);
        assert(string_views(identifiers@) + rb_identifiers_in_children(t, i as int, j + 1, b) =~= before
            + rb_identifiers_in_children(t, i as int, j as int, b));
        j = j + 1;
    }
    assert(string_views(identifiers@) =~= base + rb_identifiers_in(t, i as int, b));
}

/// Whether node `k` is a plain string value.
pub open spec fn is_rb_value_string(t: Seq<SyntaxNode>, k: int) -> bool {
    t[k].kind@ == "string"@ || t[k].kind@ == "string_content"@
}

/// The string values on the right of a multi-assignment, rooted at `i`: a
/// string is one value; an array's children are all searched; of any other
/// node only the string-like children are.
pub open spec fn rb_value_nodes(t: Seq<SyntaxNode>, i: int) -> Seq<int>
    decreases i, t[i].children@.len() + 1,
{
    if 0 <= i < t.len() {
        if is_rb_value_string(t, i) {
            seq![i]
        } else {
            rb_value_nodes_children(t, i, 0, t[i].kind@ == "array"@)
        }
    } else {
        seq![]
    }
}

/// The values of the children of `i` from the `j`-th on; all children when
/// `all`, else the string-like ones.
pub open spec fn rb_value_nodes_children(t: Seq<SyntaxNode>, i: int, j: int, all: bool) -> Seq<int>
    decreases i, t[i].children@.len() - j,
{
    if 0 <= i < t.len() && 0 <= j < t[i].children@.len() {
        let c = t[i].children@[j] as int;
        let own = if 0 <= c < i && (all || spec_is_string_like(t[c].kind@)) {
            rb_value_nodes(t, c)
        } else {
            seq![]
        };
        own + rb_value_nodes_children(t, i, j + 1, all)
    } else {
        seq![]
    }
}

proof fn lemma_rb_value_nodes_bounded(t: Seq<SyntaxNode>, i: int)
    ensures
        forall|q: int| 0 <= q < rb_value_nodes(t, i).len() ==> 0 <= #[trigger] rb_value_nodes(t, i)[q] < t.len(),
    decreases i, t[i].children@.len() + 1,
{
    if 0 <= i < t.len() {
        if is_rb_value_string(t, i) {
            assert(rb_value_nodes(t, i) =~= seq![i]);
        } else {
            lemma_rb_value_nodes_children_bounded(t, i, 0, t[i].kind@ == "array"@);
            assert(rb_value_nodes(t, i) == rb_value_nodes_children(t, i, 0, t[i].kind@ == "array"@));
        }
    }
}

proof fn lemma_rb_value_nodes_children_bounded(t: Seq<SyntaxNode>, i: int, j: int, all: bool)
    ensures
        forall|q: int| 0 <= q < rb_value_nodes_children(t, i, j, all).len() ==> 0 <= #[trigger] rb_value_nodes_children(t, i, j, all)[q] < t.len(),
    decreases i, t[i].children@.len() - j,
{
    if 0 <= i < t.len() && 0 <= j < t[i].children@.len() {
        let c = t[i].children@[j] as int;
        lemma_rb_value_nodes_children_bounded(t, i, j + 1, all);
        if 0 <= c < i && (all || spec_is_string_like(t[c].kind@)) {
            lemma_rb_value_nodes_bounded(t, c);
        }
        let own = if 0 <= c < i && (all || spec_is_string_like(t[c].kind@)) {
            rb_value_nodes(t, c)
        } else {
            seq![]
        };
        let rest = rb_value_nodes_children(t, i, j + 1, all);
        assert forall|q: int| 0 <= q < (own + rest).len() implies 0 <= #[trigger] (own + rest)[q] < t.len() by {
            if q < own.len() {
                assert((own + rest)[q] == own[q]);
            } else {
                assert((own + rest)[q] == rest[q - own.len()]);
            }
        }
    }
}

/// Extract value ranges from the right side of an assignment.
fn extract_value_ranges(tree: &SyntaxTree, i: usize, values: &mut Vec<usize>)
    requires
        children_precede(tree.nodes@),
        i < tree.nodes@.len(),
    ensures
        final(values)@.map_values(|x: usize| x as int) == old(values)@.map_values(|x: usize| x as int) + rb_value_nodes(tree.nodes@, i as int),
    decreases i,
{
    let ghost t = tree.nodes@;
    if tree.kind_is(i, "string") || tree.kind_is(i, "string_content") {
        let ghost before = values@;
        values.push(i);
        assert(values@.map_values(|x: usize| x as int) =~= before.map_values(|x: usize| x as int) + rb_value_nodes(t, i as int));
        return;
    }
    let all = tree.kind_is(i, "array");
    let ghost base = values@.map_values(|x: usize| x as int);
    let n = tree.nodes[i].children.len();
    let mut j: usize = 0;
    while j < n
        invariant
            children_precede(t),
            t == tree.nodes@,
            i < t.len(),
            !is_rb_value_string(t, i as int),
            all == (t[i as int].kind@ == "array"@),
            n == t[i as int].children@.len(),
            j <= n,
            values@.map_values(|x: usize| x as int) + rb_value_nodes_children(t, i as int, j as int, all) == base + rb_value_nodes(t, i as int),
        decreases n - j,
    {
        let c = tree.nodes[i].children[j];
        assert(c < i);
        let ghost before = values@.map_values(|x: usize| x as int);
        if all || is_string_like(tree, c) {
            extract_value_ranges(tree, c, values);
        }
        assert(values@.map_values(|x: usize| x as int) + rb_value_nodes_children(t, i as int, j + 1, all) =~= before
            + rb_value_nodes_children(t, i as int, j as int, all));
        j = j + 1;
    }
    assert(values@.map_values(|x: usize| x as int) =~= base + rb_value_nodes(t, i as int));
}

/// The identifiers on the left sides along the chained assignment at node
/// `c` (`a = b = value`), outermost first.
pub open spec fn chain_idents(t: Seq<SyntaxNode>, b: Seq<u8>, c: int) -> Seq<Seq<char>>
    decreases c,
{
    if !(0 <= c < t.len()) {
        seq![]
    } else {
        let own = match field_child(t, c, "left"@) {
            Some(l) => if 0 <= l < c {
                rb_identifiers_in(t, l, b)
            } else {
                seq![]
            },
            None => seq![],
        };
        let rest = match field_child(t, c, "right"@) {
            Some(r) => if 0 <= r < c && t[r].kind@ == "assignment"@ {
                chain_idents(t, b, r)
            } else {
                seq![]
            },
            None => seq![],
        };
        own + rest
    }
}

/// The value at the end of the chained assignment at node `c`: the first
/// right side along the chain that is not itself an assignment.
pub open spec fn chain_value(t: Seq<SyntaxNode>, c: int) -> Option<int>
    decreases c,
{
    if !(0 <= c < t.len()) {
        None
    } else {
        match field_child(t, c, "right"@) {
            Some(r) => if 0 <= r < c && t[r].kind@ == "assignment"@ {
                chain_value(t, r)
            } else {
                Some(r)
            },
            None => None,
        }
    }
}

/// The chained assignment of the string node `v` to the identifiers
/// `idents`, from the `q`-th on: each prompt variable among them is marked
/// and gives a prompt of the string.
pub open spec fn chain_from(
    ctx: DetectCtx,
    st: DetectState,
    idents: Seq<Seq<char>>,
    v: int,
    q: int,
    has_ann: bool,
    ann: Seq<AnnotationModel>,
    ss: u32,
    se: u32,
) -> DetectState
    decreases idents.len() - q,
{
    if 0 <= q < idents.len() {
        let st1 = if is_prompt_variable(st.scopes, idents[q], has_ann) {
            st.mark(idents[q]).push(rb_string_prompt(ctx, v, ann, ss, se))
        } else {
            st
        };
        chain_from(ctx, st1, idents, v, q + 1, has_ann, ann, ss, se)
    } else {
        st
    }
}

/// The chained assignment at node `i`: when its final value is string-like,
/// each prompt variable along the chain gets a prompt of that string.
pub open spec fn chained(ctx: DetectCtx, st: DetectState, i: int, has_ann: bool, ann: Seq<AnnotationModel>, ss: u32, se: u32) -> DetectState {
    match chain_value(ctx.t, i) {
        Some(v) => if 0 <= v < ctx.t.len() && spec_is_string_like(ctx.t[v].kind@) {
            chain_from(ctx, st, chain_idents(ctx.t, ctx.b, i), v, 0, has_ann, ann, ss, se)
        } else {
            st
        },
        None => st,
    }
}

/// A simple assignment of the value node `r` to `ident`: when `ident` is a
/// prompt variable it is declared, and a string-like value or a `+`
/// concatenation gives a prompt with the statement's annotations, or else
/// those of the identifier's definition.
pub open spec fn rb_ident_assign(
    ctx: DetectCtx,
    st: DetectState,
    ident: Seq<char>,
    r: int,
    has_ann: bool,
    ann: Seq<AnnotationModel>,
    ss: u32,
    se: u32,
) -> DetectState {
    if !is_prompt_variable(st.scopes, ident, has_ann) {
        st
    } else {
        let st1 = declared(st, ident, has_ann, ann);
        let fa = final_annotations(st1, ident, ann);
        if spec_is_string_like(ctx.t[r].kind@) {
            st1.push(rb_string_prompt(ctx, r, fa, ss, se))
        } else if ctx.t[r].kind@ == "binary"@ {
            st1.push_some(rb_concat_prompt(ctx, r, fa, ss, se))
        } else {
            st1
        }
    }
}

/// The multi-assignment of the values `vals` to the identifiers `idents`,
/// from the `q`-th on: an identifier that is a prompt variable, paired with
/// a string, is marked and gives a prompt ranged by the string node.
pub open spec fn rb_multi_from(
    ctx: DetectCtx,
    st: DetectState,
    idents: Seq<Seq<char>>,
    vals: Seq<int>,
    q: int,
    has_ann: bool,
    ann: Seq<AnnotationModel>,
    ss: u32,
    se: u32,
) -> DetectState
    decreases idents.len() - q,
{
    if 0 <= q < idents.len() {
        let st1 = if q < vals.len() && is_prompt_variable(st.scopes, idents[q], has_ann) && is_rb_value_string(ctx.t, vals[q]) {
            st.mark(idents[q]).push(range_prompt(ctx, vals[q], ann, ss, se))
        } else {
            st
        };
        rb_multi_from(ctx, st1, idents, vals, q + 1, has_ann, ann, ss, se)
    } else {
        st
    }
}

/// The assignment at node `i`: a chained assignment, an assignment to an
/// identifier, or a multi-assignment to a `left_assignment_list`.
pub open spec fn rb_assignment(ctx: DetectCtx, st: DetectState, i: int) -> DetectState {
    let t = ctx.t;
    let ss = t[i].start as u32;
    let se = t[i].end as u32;
    let ann = statement_annotations(ctx, ss, se);
    let has_ann = ann.len() > 0;
    match (field_child(t, i, "left"@), field_child(t, i, "right"@)) {
        (Some(l), Some(r)) => if t[r].kind@ == "assignment"@ {
            chained(ctx, st, i, has_ann, ann, ss, se)
        } else if t[l].kind@ == "identifier"@ {
            rb_ident_assign(ctx, st, node_text(t, l, ctx.b), r, has_ann, ann, ss, se)
        } else if t[l].kind@ == "left_assignment_list"@ {
            rb_multi_from(ctx, st, rb_identifiers_in(t, l, ctx.b), rb_value_nodes(t, r), 0, has_ann, ann, ss, se)
        } else {
            st
        },
        _ => st,
    }
}

/// A bare identifier at node `i`: when its statement range carries
/// annotations, the identifier is declared a prompt variable with them.
pub open spec fn ident_declaration(ctx: DetectCtx, st: DetectState, i: int) -> DetectState {
    let ann = statement_annotations(ctx, ctx.t[i].start as u32, ctx.t[i].end as u32);
    if ann.len() == 0 {
        st
    } else {
        declared(st, node_text(ctx.t, i, ctx.b), true, ann)
    }
}

/// The walk of node `i`'s subtree: methods, classes and modules open a
/// scope around their children; assignments are processed and not walked
/// into; a bare identifier may declare a prompt variable; other nodes are
/// walked through.
pub open spec fn rb_traverse(ctx: DetectCtx, st: DetectState, i: int) -> DetectState
    decreases i, ctx.t[i].children@.len() + 1,
{
    let t = ctx.t;
    if 0 <= i < t.len() {
        let kind = t[i].kind@;
        if kind == "method"@ || kind == "class"@ || kind == "module"@ {
            rb_traverse_children(ctx, st.enter(), i, 0).exit()
        } else if kind == "assignment"@ {
            rb_assignment(ctx, st, i)
        } else if kind == "identifier"@ {
            rb_traverse_children(ctx, ident_declaration(ctx, st, i), i, 0)
        } else {
            rb_traverse_children(ctx, st, i, 0)
        }
    } else {
        st
    }
}

/// The walk of the subtrees of node `i`'s children, from the `j`-th on.
pub open spec fn rb_traverse_children(ctx: DetectCtx, st: DetectState, i: int, j: int) -> DetectState
    decreases i, ctx.t[i].children@.len() - j,
{
    let t = ctx.t;
    if 0 <= i < t.len() && 0 <= j < t[i].children@.len() {
        let c = t[i].children@[j] as int;
        if 0 <= c < i {
            rb_traverse_children(ctx, rb_traverse(ctx, st, c), i, j + 1)
        } else {
            rb_traverse_children(ctx, st, i, j + 1)
        }
    } else {
        st
    }
}


/// Process chained assignments (e.g., `a = b = "Hi"`).
fn process_chained_assignment(
    tree: &SyntaxTree,
    i: usize,
    source: &str,
    filename: &str,
    has_prompt_annotation: bool,
    annotations: &Vec<PromptAnnotation>,
    stmt_start: u32,
    stmt_end: u32,
    comments: &CommentTracker,
    scopes: &mut ScopeTracker,
    prompts: &mut Vec<Prompt>,
)
    requires
        detect_ready(tree, source, comments),
        old(scopes).wf(),
        i < tree.nodes@.len(),
        boundary_or_beyond(utf8(source@), stmt_start),
    ensures
        final(scopes).wf(),
        detect_state(*final(scopes), final(prompts)@) == chained(
            detect_ctx(tree, source, filename, comments),
            detect_state(*old(scopes), old(prompts)@),
            i as int,
            has_prompt_annotation,
            annotation_models(annotations@),
            stmt_start,
            stmt_end,
        ),
{
    let ghost ctx = detect_ctx(tree, source, filename, comments);
    let ghost t = tree.nodes@;
    let ghost b = utf8(source@);
    let ghost st0 = detect_state(*scopes, prompts@);
    proof {
        lemma_wf_children_precede(tree, b);
    }
    let mut idents: Vec<String> = Vec::new();
    let mut current = i;
    let mut value: Option<usize> = None;
    assert(string_views(idents@) =~= Seq::<Seq<char>>::empty());
    loop
        invariant_except_break
            value is None,
            string_views(idents@) + chain_idents(t, b, current as int) == chain_idents(t, b, i as int),
        invariant
            tree.wf(b),
            b == utf8(source@),
            t == tree.nodes@,
            children_precede(t),
            current < t.len(),
            chain_value(t, current as int) == chain_value(t, i as int),
        ensures
            string_views(idents@) == chain_idents(t, b, i as int),
            match value { Some(v) => Some(v as int), None => None } == chain_value(t, i as int),
            value matches Some(v) ==> v < t.len(),
        decreases current,
    {
        let ghost before = string_views(idents@);
        let ghost own = match field_child(t, current as int, "left"@) {
            Some(l) => if 0 <= l < current {
                rb_identifiers_in(t, l, b)
            } else {
                seq![]
            },
            None => seq![],
        };
        match tree.child_by_field_name(current, "left") {
            Some(l) => {
                extract_identifiers(tree, l, source, &mut idents);
            },
            None => {},
        }
        assert(string_views(idents@) == before + own);
        match tree.child_by_field_name(current, "right") {
            Some(r) => {
                if tree.kind_is(r, "assignment") {
                    assert(string_views(idents@) + chain_idents(t, b, r as int) =~= before + chain_idents(t, b, current as int));
                    current = r;
                } else {
                    value = Some(r);
                    assert(string_views(idents@) =~= before + chain_idents(t, b, current as int));
                    break;
                }
            },
            None => {
                assert(string_views(idents@) =~= before + chain_idents(t, b, current as int));
                break;
            },
        }
    }
    let v = match value {
        Some(v) => v,
        None => {
            return;
        },
    };
    if !is_string_like(tree, v) {
        return;
    }
    let ghost idv = string_views(idents@);
    let mut q: usize = 0;
    while q < idents.len()
        invariant
            ctx == detect_ctx(tree, source, filename, comments),
            detect_ready(tree, source, comments),
            t == tree.nodes@,
            b == utf8(source@),
            scopes.wf(),
            v < t.len(),
            string_views(idents@) == idv,
            q <= idents@.len(),
            boundary_or_beyond(b, stmt_start),
            chain_from(ctx, detect_state(*scopes, prompts@), idv, v as int, q as int, has_prompt_annotation, annotation_models(annotations@), stmt_start, stmt_end)
                == chain_from(ctx, st0, idv, v as int, 0, has_prompt_annotation, annotation_models(annotations@), stmt_start, stmt_end),
        decreases idents@.len() - q,
    {
        let ident = idents[q].as_str();
        assert(ident@ == idv[q as int]);
        if is_prompt_variable_exec(ident, has_prompt_annotation, scopes) {
            scopes.mark_prompt_ident(ident);
            let p = create_prompt_from_string(tree, v, source, filename, stmt_start, stmt_end, comments, annotations);
            push_some(prompts, Some(p));
        }
        q = q + 1;
    }
}

/// Process a simple identifier assignment.
fn process_identifier_assignment(
    tree: &SyntaxTree,
    ident_name: &str,
    r: usize,
    has_prompt_annotation: bool,
    annotations: &Vec<PromptAnnotation>,
    stmt_start: u32,
    stmt_end: u32,
    source: &str,
    filename: &str,
    comments: &CommentTracker,
    scopes: &mut ScopeTracker,
    prompts: &mut Vec<Prompt>,
)
    requires
        detect_ready(tree, source, comments),
        old(scopes).wf(),
        r < tree.nodes@.len(),
        boundary_or_beyond(utf8(source@), stmt_start),
    ensures
        final(scopes).wf(),
        detect_state(*final(scopes), final(prompts)@) == rb_ident_assign(
            detect_ctx(tree, source, filename, comments),
            detect_state(*old(scopes), old(prompts)@),
            ident_name@,
            r as int,
            has_prompt_annotation,
            annotation_models(annotations@),
            stmt_start,
            stmt_end,
        ),
{
    if !is_prompt_variable_exec(ident_name, has_prompt_annotation, scopes) {
        return;
    }
    declare(scopes, ident_name, has_prompt_annotation, annotations, Ghost(prompts@));
    if is_string_like(tree, r) {
        let fa = final_annotations_exec(scopes, ident_name, annotations);
        let p = create_prompt_from_string(tree, r, source, filename, stmt_start, stmt_end, comments, &fa);
        push_some(prompts, Some(p));
    } else if tree.kind_is(r, "binary") {
        let fa = final_annotations_exec(scopes, ident_name, annotations);
        let p = process_concatenation(tree, r, source, filename, stmt_start, stmt_end, comments, &fa);
        push_some(prompts, p);
    }
}

/// Process multi-assignment (destructuring).
fn process_multi_assignment(
    tree: &SyntaxTree,
    l: usize,
    r: usize,
    has_prompt_annotation: bool,
    annotations: &Vec<PromptAnnotation>,
    stmt_start: u32,
    stmt_end: u32,
    source: &str,
    filename: &str,
    comments: &CommentTracker,
    scopes: &mut ScopeTracker,
    prompts: &mut Vec<Prompt>,
)
    requires
        detect_ready(tree, source, comments),
        old(scopes).wf(),
        l < tree.nodes@.len(),
        r < tree.nodes@.len(),
        boundary_or_beyond(utf8(source@), stmt_start),
    ensures
        final(scopes).wf(),
        detect_state(*final(scopes), final(prompts)@) == rb_multi_from(
            detect_ctx(tree, source, filename, comments),
            detect_state(*old(scopes), old(prompts)@),
            rb_identifiers_in(tree.nodes@, l as int, utf8(source@)),
            rb_value_nodes(tree.nodes@, r as int),
            0,
            has_prompt_annotation,
            annotation_models(annotations@),
            stmt_start,
            stmt_end,
        ),
{
    let ghost ctx = detect_ctx(tree, source, filename, comments);
    let ghost t = tree.nodes@;
    let ghost b = utf8(source@);
    let ghost st0 = detect_state(*scopes, prompts@);
    proof {
        lemma_wf_children_precede(tree, b);
        lemma_rb_value_nodes_bounded(t, r as int);
    }
    let mut identifiers: Vec<String> = Vec::new();
    assert(string_views(identifiers@) =~= Seq::<Seq<char>>::empty());
    extract_identifiers(tree, l, source, &mut identifiers);
    let ghost idents = rb_identifiers_in(t, l as int, b);
    assert(string_views(identifiers@) =~= idents);
    let mut values: Vec<usize> = Vec::new();
    assert(values@.map_values(|x: usize| x as int) =~= Seq::<int>::empty());
    extract_value_ranges(tree, r, &mut values);
    let ghost vals = rb_value_nodes(t, r as int);
    assert(values@.map_values(|x: usize| x as int) =~= vals);
    let mut q: usize = 0;
    while q < identifiers.len()
        invariant
            ctx == detect_ctx(tree, source, filename, comments),
            detect_ready(tree, source, comments),
            t == tree.nodes@,
            b == utf8(source@),
            scopes.wf(),
            string_views(identifiers@) == idents,
            values@.map_values(|x: usize| x as int) == vals,
            forall|m: int| 0 <= m < vals.len() ==> 0 <= #[trigger] vals[m] < t.len(),
            q <= identifiers@.len(),
            boundary_or_beyond(b, stmt_start),
            rb_multi_from(ctx, detect_state(*scopes, prompts@), idents, vals, q as int, has_prompt_annotation, annotation_models(annotations@), stmt_start, stmt_end)
                == rb_multi_from(ctx, st0, idents, vals, 0, has_prompt_annotation, annotation_models(annotations@), stmt_start, stmt_end),
        decreases identifiers@.len() - q,
    {
        let ident = identifiers[q].as_str();
        assert(ident@ == idents[q as int]);
        if q < values.len() {
            let v = values[q];
            assert(v as int == vals[q as int]);
            if is_prompt_variable_exec(ident, has_prompt_annotation, scopes) && (tree.kind_is(v, "string") || tree.kind_is(v, "string_content")) {
                scopes.mark_prompt_ident(ident);
                let p = create_prompt_from_range(tree, v, source, filename, stmt_start, stmt_end, comments, annotations);
                push_some(prompts, Some(p));
            }
        }
        q = q + 1;
    }
}

/// Process an assignment node to extract prompts.
fn process_assignment(
    tree: &SyntaxTree,
    i: usize,
    source: &str,
    filename: &str,
    comments: &CommentTracker,
    scopes: &mut ScopeTracker,
    prompts: &mut Vec<Prompt>,
)
    requires
        detect_ready(tree, source, comments),
        old(scopes).wf(),
        i < tree.nodes@.len(),
    ensures
        final(scopes).wf(),
        detect_state(*final(scopes), final(prompts)@) == rb_assignment(detect_ctx(tree, source, filename, comments), detect_state(*old(scopes), old(prompts)@), i as int),
{
    let ghost ctx = detect_ctx(tree, source, filename, comments);
    let ghost t = tree.nodes@;
    let ghost b = utf8(source@);
    proof {
        lemma_wf_children_precede(tree, b);
        assert(node_wf(t, i as int, b));
    }
    let ss = tree.nodes[i].start as u32;
    let se = tree.nodes[i].end as u32;
    let all = collect_statement_annotations(comments, ss, se, Ghost(ctx));
    let has_ann = all.len() > 0;
    let l = match tree.child_by_field_name(i, "left") {
        Some(l) => l,
        None => {
            return;
        },
    };
    let r = match tree.child_by_field_name(i, "right") {
        Some(r) => r,
        None => {
            return;
        },
    };
    if tree.kind_is(r, "assignment") {
        process_chained_assignment(tree, i, source, filename, has_ann, &all, ss, se, comments, scopes, prompts);
    } else if tree.kind_is(l, "identifier") {
        let ident = tree.text_of(l, source);
        process_identifier_assignment(tree, ident.as_str(), r, has_ann, &all, ss, se, source, filename, comments, scopes, prompts);
    } else if tree.kind_is(l, "left_assignment_list") {
        process_multi_assignment(tree, l, r, has_ann, &all, ss, se, source, filename, comments, scopes, prompts);
    }
}

/// Mark annotated standalone identifiers as prompt definitions so later
/// assignments inherit them.
fn process_identifier_declaration(
    tree: &SyntaxTree,
    i: usize,
    source: &str,
    comments: &CommentTracker,
    scopes: &mut ScopeTracker,
    Ghost(filename): Ghost<&str>,
    Ghost(prompts): Ghost<Seq<Prompt>>,
)
    requires
        detect_ready(tree, source, comments),
        old(scopes).wf(),
        i < tree.nodes@.len(),
    ensures
        final(scopes).wf(),
        detect_state(*final(scopes), prompts) == ident_declaration(detect_ctx(tree, source, filename, comments), detect_state(*old(scopes), prompts), i as int),
{
    let ghost ctx = detect_ctx(tree, source, filename, comments);
    proof {
        assert(node_wf(tree.nodes@, i as int, utf8(source@)));
    }
    let ss = tree.nodes[i].start as u32;
    let se = tree.nodes[i].end as u32;
    let annotations = collect_statement_annotations(comments, ss, se, Ghost(ctx));
    if annotations.len() == 0 {
        return;
    }
    let name = tree.text_of(i, source);
    declare(scopes, name.as_str(), true, &annotations, Ghost(prompts));
}

/// Recursively traverse nodes to find assignments and manage scopes.
fn traverse_node(
    tree: &SyntaxTree,
    i: usize,
    source: &str,
    filename: &str,
    comments: &CommentTracker,
    scopes: &mut ScopeTracker,
    prompts: &mut Vec<Prompt>,
)
    requires
        detect_ready(tree, source, comments),
        old(scopes).wf(),
        i < tree.nodes@.len(),
    ensures
        final(scopes).wf(),
        detect_state(*final(scopes), final(prompts)@) == rb_traverse(detect_ctx(tree, source, filename, comments), detect_state(*old(scopes), old(prompts)@), i as int),
    decreases i, 1nat,
{
    proof {
        lemma_wf_children_precede(tree, utf8(source@));
    }
    if tree.kind_is(i, "method") || tree.kind_is(i, "class") || tree.kind_is(i, "module") {
        scopes.enter_scope();
        traverse_node_children(tree, i, source, filename, comments, scopes, prompts);
        scopes.exit_scope();
        return;
    }
    if tree.kind_is(i, "assignment") {
        process_assignment(tree, i, source, filename, comments, scopes, prompts);
        return;
    }
    if tree.kind_is(i, "identifier") {
        process_identifier_declaration(tree, i, source, comments, scopes, Ghost(filename), Ghost(prompts@));
    }
    traverse_node_children(tree, i, source, filename, comments, scopes, prompts);
}

/// Traverses the children of node `i`, in order.
fn traverse_node_children(
    tree: &SyntaxTree,
    i: usize,
    source: &str,
    filename: &str,
    comments: &CommentTracker,
    scopes: &mut ScopeTracker,
    prompts: &mut Vec<Prompt>,
)
    requires
        detect_ready(tree, source, comments),
        old(scopes).wf(),
        i < tree.nodes@.len(),
    ensures
        final(scopes).wf(),
        detect_state(*final(scopes), final(prompts)@) == rb_traverse_children(
            detect_ctx(tree, source, filename, comments),
            detect_state(*old(scopes), old(prompts)@),
            i as int,
            0,
        ),
    decreases i, 0nat,
{
    let ghost ctx = detect_ctx(tree, source, filename, comments);
    let ghost t = tree.nodes@;
    let ghost st0 = detect_state(*scopes, prompts@);
    proof {
        lemma_wf_children_precede(tree, utf8(source@));
    }
    let n = tree.nodes[i].children.len();
    let mut j: usize = 0;
    while j < n
        invariant
            ctx == detect_ctx(tree, source, filename, comments),
            detect_ready(tree, source, comments),
            children_precede(t),
            t == tree.nodes@,
            scopes.wf(),
            i < t.len(),
            n == t[i as int].children@.len(),
            j <= n,
            rb_traverse_children(ctx, detect_state(*scopes, prompts@), i as int, j as int) == rb_traverse_children(ctx, st0, i as int, 0),
        decreases n - j,
    {
        let c = tree.nodes[i].children[j];
        assert(c < i);
        traverse_node(tree, c, source, filename, comments, scopes, prompts);
        j = j + 1;
    }
}

/// What the detector finds in a well-formed tree with the sorted comment
/// list `cs`: the error message when the root has an error, otherwise the
/// prompts of a walk from the root.
pub open spec fn spec_detect_ruby(t: Seq<SyntaxNode>, root: int, b: Seq<u8>, file: Seq<char>, cs: Seq<CommentNode>) -> Result<Seq<PromptModel>, Seq<char>> {
    if t[root].has_error {
        Err(errors_message(t, b, root))
    } else {
        Ok(rb_traverse(DetectCtx { t, b, file, cs }, initial_state(), root).prompts)
    }
}

/// Detects the prompts of a parsed Ruby source.
pub fn detect_prompts(tree: &SyntaxTree, source: &str, filename: &str) -> (r: ParseResult)
    requires
        tree.wf(utf8(source@)),
    ensures
        exists|cs: Seq<CommentNode>| sorted_comments_of(tree.nodes@, tree.root as int, utf8(source@), cs)
            && result_view(r) == spec_detect_ruby(tree.nodes@, tree.root as int, utf8(source@), filename@, cs),
{
    let root = tree.root;
    let comments = CommentTracker::new(tree, source);
    let ghost cs = comments.comment_list();
    assert(sorted_comments_of(tree.nodes@, root as int, utf8(source@), cs));
    if tree.nodes[root].has_error {
        let error = format_tree_sitter_error(tree, root, source);
        let r = ParseResult::ParseResultError { error };
        assert(result_view(r) == spec_detect_ruby(tree.nodes@, root as int, utf8(source@), filename@, cs));
        return r;
    }
    let mut prompts: Vec<Prompt> = Vec::new();
    let mut scopes = ScopeTracker::new();
    assert(prompt_models(prompts@) =~= Seq::<PromptModel>::empty());
    assert(detect_state(scopes, prompts@) == initial_state());
    traverse_node(tree, root, source, filename, &comments, &mut scopes, &mut prompts);
    let r = ParseResult::ParseResultSuccess { prompts };
    assert(result_view(r) == spec_detect_ruby(tree.nodes@, root as int, utf8(source@), filename@, cs));
    r
}

/// The Ruby prompt parser over tree-sitter.
pub struct ParserRb {}

impl ParserRb {
    /// Parses the source with the tree-sitter Ruby grammar and detects its
    /// prompts. When no tree comes back, the result is the error "Failed to
    /// parse source"; otherwise it is what `detect_prompts` finds in that tree.
    pub fn parse(source: &str, filename: &str) -> (r: ParseResult)
        ensures
            parsed_models(Grammar::Ruby, source@) is None ==> (r matches ParseResult::ParseResultError { error } && error@
                == "Failed to parse source"@),
            parsed_models(Grammar::Ruby, source@) is Some ==> exists|t: SyntaxTree, cs: Seq<CommentNode>|
                node_models(t.nodes@) == parsed_models(Grammar::Ruby, source@).unwrap() && t.root + 1 == t.nodes@.len()
                    && t.wf(utf8(source@)) && sorted_comments_of(t.nodes@, t.root as int, utf8(source@), cs)
                    && result_view(r) == spec_detect_ruby(t.nodes@, t.root as int, utf8(source@), filename@, cs),
    {
        match parse_tree(Grammar::Ruby, source) {
            Some(tree) => detect_prompts(&tree, source, filename),
            None => ParseResult::ParseResultError { error: String::from_str("Failed to parse source") },
        }
    }
}

impl VolumenParser for ParserRb {
    fn parse(source: &str, filename: &str) -> (r: ParseResult)
        ensures
            parsed_models(Grammar::Ruby, source@) is None ==> (r matches ParseResult::ParseResultError { error } && error@
                == "Failed to parse source"@),
            parsed_models(Grammar::Ruby, source@) is Some ==> exists|t: SyntaxTree, cs: Seq<CommentNode>|
                node_models(t.nodes@) == parsed_models(Grammar::Ruby, source@).unwrap() && t.root + 1 == t.nodes@.len()
                    && t.wf(utf8(source@)) && sorted_comments_of(t.nodes@, t.root as int, utf8(source@), cs)
                    && result_view(r) == spec_detect_ruby(t.nodes@, t.root as int, utf8(source@), filename@, cs),
    {
        ParserRb::parse(source, filename)
    }
}

proof fn lemma_chain_from_keeps(
    ctx: DetectCtx,
    st: DetectState,
    idents: Seq<Seq<char>>,
    v: int,
    q: int,
    has_ann: bool,
    ann: Seq<AnnotationModel>,
    ss: u32,
    se: u32,
)
    requires
        st.scopes.len() >= 1,
    ensures
        keeps(st, chain_from(ctx, st, idents, v, q, has_ann, ann, ss, se)),
    decreases idents.len() - q,
{
    lemma_keeps_refl(st);
    if 0 <= q < idents.len() {
        let p = rb_string_prompt(ctx, v, ann, ss, se);
        let m = st.mark(idents[q]);
        lemma_step_keeps(st, idents[q], ann, p, None);
        lemma_step_keeps(m, idents[q], ann, p, None);
        lemma_keeps_trans(st, m, m.push(p));
        let st1 = if is_prompt_variable(st.scopes, idents[q], has_ann) {
            m.push(p)
        } else {
            st
        };
        lemma_chain_from_keeps(ctx, st1, idents, v, q + 1, has_ann, ann, ss, se);
        lemma_keeps_trans(st, st1, chain_from(ctx, st1, idents, v, q + 1, has_ann, ann, ss, se));
    }
}

proof fn lemma_rb_multi_from_keeps(
    ctx: DetectCtx,
    st: DetectState,
    idents: Seq<Seq<char>>,
    vals: Seq<int>,
    q: int,
    has_ann: bool,
    ann: Seq<AnnotationModel>,
    ss: u32,
    se: u32,
)
    requires
        st.scopes.len() >= 1,
    ensures
        keeps(st, rb_multi_from(ctx, st, idents, vals, q, has_ann, ann, ss, se)),
    decreases idents.len() - q,
{
    lemma_keeps_refl(st);
    if 0 <= q < idents.len() {
        let p = range_prompt(ctx, vals[q], ann, ss, se);
        let m = st.mark(idents[q]);
        lemma_step_keeps(st, idents[q], ann, p, None);
        lemma_step_keeps(m, idents[q], ann, p, None);
        lemma_keeps_trans(st, m, m.push(p));
        let st1 = if q < vals.len() && is_prompt_variable(st.scopes, idents[q], has_ann) && is_rb_value_string(ctx.t, vals[q]) {
            m.push(p)
        } else {
            st
        };
        lemma_rb_multi_from_keeps(ctx, st1, idents, vals, q + 1, has_ann, ann, ss, se);
        lemma_keeps_trans(st, st1, rb_multi_from(ctx, st1, idents, vals, q + 1, has_ann, ann, ss, se));
    }
}

proof fn lemma_rb_assignment_keeps(ctx: DetectCtx, st: DetectState, i: int)
    requires
        st.scopes.len() >= 1,
    ensures
        keeps(st, rb_assignment(ctx, st, i)),
{
    let t = ctx.t;
    let ss = t[i].start as u32;
    let se = t[i].end as u32;
    let ann = statement_annotations(ctx, ss, se);
    let has_ann = ann.len() > 0;
    lemma_keeps_refl(st);
    match (field_child(t, i, "left"@), field_child(t, i, "right"@)) {
        (Some(l), Some(r)) => {
            match chain_value(t, i) {
                Some(v) => {
                    lemma_chain_from_keeps(ctx, st, chain_idents(t, ctx.b, i), v, 0, has_ann, ann, ss, se);
                },
                None => {},
            }
            let ident = node_text(t, l, ctx.b);
            let d = declared(st, ident, has_ann, ann);
            let fa = final_annotations(d, ident, ann);
            lemma_declared_keeps(st, ident, has_ann, ann, rb_string_prompt(ctx, r, fa, ss, se), rb_concat_prompt(ctx, r, fa, ss, se));
            lemma_rb_multi_from_keeps(ctx, st, rb_identifiers_in(t, l, ctx.b), rb_value_nodes(t, r), 0, has_ann, ann, ss, se);
        },
        _ => {},
    }
}

/// A walk keeps the depth of the scope stack (every scope it enters it
/// leaves) and only ever appends prompts: those found before it are kept
/// unchanged, in order.
pub proof fn law_walk_keeps_scopes_and_prompts(ctx: DetectCtx, st: DetectState, i: int)
    requires
        st.scopes.len() >= 1,
    ensures
        keeps(st, rb_traverse(ctx, st, i)),
    decreases i, ctx.t[i].children@.len() + 1,
{
    let t = ctx.t;
    lemma_keeps_refl(st);
    if 0 <= i < t.len() {
        let kind = t[i].kind@;
        if kind == "method"@ || kind == "class"@ || kind == "module"@ {
            lemma_walk_children_keeps(ctx, st.enter(), i, 0);
            lemma_scoped_keeps(st, rb_traverse_children(ctx, st.enter(), i, 0));
        } else if kind == "assignment"@ {
            lemma_rb_assignment_keeps(ctx, st, i);
        } else if kind == "identifier"@ {
            let ann = statement_annotations(ctx, t[i].start as u32, t[i].end as u32);
            let d = ident_declaration(ctx, st, i);
            lemma_declared_keeps(st, node_text(t, i, ctx.b), true, ann, ctx.file_prompt(), None);
            lemma_walk_children_keeps(ctx, d, i, 0);
            lemma_keeps_trans(st, d, rb_traverse_children(ctx, d, i, 0));
        } else {
            lemma_walk_children_keeps(ctx, st, i, 0);
        }
    }
}

proof fn lemma_walk_children_keeps(ctx: DetectCtx, st: DetectState, i: int, j: int)
    requires
        st.scopes.len() >= 1,
    ensures
        keeps(st, rb_traverse_children(ctx, st, i, j)),
    decreases i, ctx.t[i].children@.len() - j,
{
    let t = ctx.t;
    lemma_keeps_refl(st);
    if 0 <= i < t.len() && 0 <= j < t[i].children@.len() {
        let c = t[i].children@[j] as int;
        if 0 <= c < i {
            law_walk_keeps_scopes_and_prompts(ctx, st, c);
            let s1 = rb_traverse(ctx, st, c);
            lemma_walk_children_keeps(ctx, s1, i, j + 1);
            lemma_keeps_trans(st, s1, rb_traverse_children(ctx, s1, i, j + 1));
        } else {
            lemma_walk_children_keeps(ctx, st, i, j + 1);
        }
    }
}

} // verus!

verus! {

proof fn lemma_mark_keeps_prompt_variable(st: DetectState, x: Seq<char>, k: Seq<char>, has_ann: bool)
    requires
        st.scopes.len() >= 1,
        is_prompt_variable(st.scopes, k, has_ann),
    ensures
        is_prompt_variable(st.mark(x).scopes, k, has_ann),
{
    if crate::python::scope::in_any_scope(st.scopes, k) {
        let i = choose|i: int| 0 <= i < st.scopes.len() && (#[trigger] st.scopes[i]).contains(k);
        assert(st.mark(x).scopes[i].contains(k));
    }
}

proof fn lemma_rb_multi_from_has(
    ctx: DetectCtx,
    st: DetectState,
    idents: Seq<Seq<char>>,
    vals: Seq<int>,
    j: int,
    q: int,
    has_ann: bool,
    ann: Seq<AnnotationModel>,
    ss: u32,
    se: u32,
)
    requires
        st.scopes.len() >= 1,
        0 <= j <= q < idents.len(),
        q < vals.len(),
        is_prompt_variable(st.scopes, idents[q], has_ann),
        is_rb_value_string(ctx.t, vals[q]),
    ensures
        exists|m: int|
            0 <= m < rb_multi_from(ctx, st, idents, vals, j, has_ann, ann, ss, se).prompts.len()
                && #[trigger] rb_multi_from(ctx, st, idents, vals, j, has_ann, ann, ss, se).prompts[m] == range_prompt(
                ctx,
                vals[q],
                ann,
                ss,
                se,
            ),
    decreases q - j,
{
    let p = range_prompt(ctx, vals[j], ann, ss, se);
    let st1 = if j < vals.len() && is_prompt_variable(st.scopes, idents[j], has_ann) && is_rb_value_string(ctx.t, vals[j]) {
        st.mark(idents[j]).push(p)
    } else {
        st
    };
    assert(rb_multi_from(ctx, st, idents, vals, j, has_ann, ann, ss, se) == rb_multi_from(ctx, st1, idents, vals, j + 1, has_ann, ann, ss, se));
    if j == q {
        let n = st1.prompts.len() - 1;
        assert(st1.prompts[n] == p);
        lemma_rb_multi_from_keeps(ctx, st1, idents, vals, j + 1, has_ann, ann, ss, se);
        let r = rb_multi_from(ctx, st1, idents, vals, j + 1, has_ann, ann, ss, se);
        assert(r.prompts.subrange(0, st1.prompts.len() as int)[n] == r.prompts[n]);
    } else {
        if j < vals.len() && is_prompt_variable(st.scopes, idents[j], has_ann) && is_rb_value_string(ctx.t, vals[j]) {
            lemma_mark_keeps_prompt_variable(st, idents[j], idents[q], has_ann);
        }
        lemma_rb_multi_from_has(ctx, st1, idents, vals, j + 1, q, has_ann, ann, ss, se);
    }
}

/// In a multi-assignment, every identifier that is a prompt variable and is
/// paired with a string value gives a prompt over that value, whatever its
/// position among the pairs.
pub proof fn law_multi_assignment_pairs(
    ctx: DetectCtx,
    st: DetectState,
    idents: Seq<Seq<char>>,
    vals: Seq<int>,
    has_ann: bool,
    ann: Seq<AnnotationModel>,
    ss: u32,
    se: u32,
    q: int,
)
    requires
        st.scopes.len() >= 1,
        0 <= q < idents.len(),
        q < vals.len(),
        is_prompt_variable(st.scopes, idents[q], has_ann),
        is_rb_value_string(ctx.t, vals[q]),
    ensures
        exists|m: int|
            0 <= m < rb_multi_from(ctx, st, idents, vals, 0, has_ann, ann, ss, se).prompts.len()
                && (#[trigger] rb_multi_from(ctx, st, idents, vals, 0, has_ann, ann, ss, se).prompts[m]).span.outer == (Span {
                start: ctx.t[vals[q]].start as u32,
                end: ctx.t[vals[q]].end as u32,
            }),
{
    lemma_rb_multi_from_has(ctx, st, idents, vals, 0, q, has_ann, ann, ss, se);
}

} // verus!

verus! {

/// Whether node `k` is an identifier, a constant, an instance, class or
/// global variable, or a call: an operand that a concatenation takes as a
/// variable.
pub open spec fn is_variable_operand(t: Seq<SyntaxNode>, k: int) -> bool {
    let kind = t[k].kind@;
    kind == "identifier"@ || kind == "constant"@ || kind == "instance_variable"@ || kind == "class_variable"@ || kind
        == "global_variable"@ || kind == "call"@ || kind == "method_call"@
}

/// Every variable or call operand of a `+` concatenation gives a variable
/// segment over that operand's range.
pub proof fn law_concat_operand_is_variable(t: Seq<SyntaxNode>, b: Seq<u8>, i: int, k: int)
    requires
        concat_operand(t, b, "binary"@, "+"@, i, k),
        is_variable_operand(t, k),
    ensures
        exists|q: int|
            0 <= q < rb_segments(t, b, i).len() && (#[trigger] rb_segments(t, b, i)[q] matches ConcatSegment::Variable(
                sp,
            ) && sp.inner == Span { start: t[k].start as u32, end: t[k].end as u32 }),
    decreases i,
{
    reveal_strlit("identifier");
    reveal_strlit("constant");
    reveal_strlit("instance_variable");
    reveal_strlit("class_variable");
    reveal_strlit("global_variable");
    reveal_strlit("call");
    reveal_strlit("method_call");
    reveal_strlit("binary");
    reveal_strlit("string");
    reveal_strlit("string_content");
    reveal_strlit("heredoc_body");
    let segs = rb_segments(t, b, i);
    if t[i].kind@ == "binary"@ && (field_child(t, i, "operator"@) matches Some(op) && 0 <= op < t.len()
        && node_text(t, op, b) == "+"@) {
        let ls = match field_child(t, i, "left"@) {
            Some(l) => if 0 <= l < i { rb_segments(t, b, l) } else { seq![] },
            None => seq![],
        };
        let rs = match field_child(t, i, "right"@) {
            Some(r) => if 0 <= r < i { rb_segments(t, b, r) } else { seq![] },
            None => seq![],
        };
        assert(segs == ls + rs);
        let lo = field_child(t, i, "left"@);
        if lo is Some && 0 <= lo.unwrap() < i && concat_operand(t, b, "binary"@, "+"@, lo.unwrap(), k) {
            let l = lo.unwrap();
            law_concat_operand_is_variable(t, b, l, k);
            let q = choose|q: int|
                0 <= q < rb_segments(t, b, l).len() && (#[trigger] rb_segments(t, b, l)[q] matches ConcatSegment::Variable(
                    sp,
                ) && sp.inner == Span { start: t[k].start as u32, end: t[k].end as u32 });
            assert(segs[q] == ls[q]);
        } else {
            let r = field_child(t, i, "right"@).unwrap();
            law_concat_operand_is_variable(t, b, r, k);
            let q = choose|q: int|
                0 <= q < rb_segments(t, b, r).len() && (#[trigger] rb_segments(t, b, r)[q] matches ConcatSegment::Variable(
                    sp,
                ) && sp.inner == Span { start: t[k].start as u32, end: t[k].end as u32 });
            assert(segs[ls.len() + q] == rs[q]);
        }
    } else {
        assert(k == i);
        assert("identifier"@.len() == 10 && "constant"@.len() == 8 && "instance_variable"@.len() == 17
            && "class_variable"@.len() == 14 && "global_variable"@.len() == 15 && "call"@.len() == 4
            && "method_call"@.len() == 11);
        assert("binary"@.len() == 6 && "string"@.len() == 6 && "string_content"@.len() == 14 && "heredoc_body"@.len() == 12);
        assert("class_variable"@[0] == 'c' && "string_content"@[0] == 's');
        assert(t[i].kind@ != "binary"@);
        assert(t[i].kind@ != "string_content"@) by {
            if t[i].kind@ == "string_content"@ {
                assert(t[i].kind@[0] == 's');
            }
        }
        assert(t[i].kind@ != "string"@ && t[i].kind@ != "heredoc_body"@);
        assert(is_rb_variable_kind(t[i].kind@));
        assert(rb_segments(t, b, i) == rb_classify(t, b, i));
        assert(rb_classify(t, b, i) == seq![ConcatSegment::Variable(node_span(t, i))]);
        assert(segs[0] == ConcatSegment::Variable(node_span(t, i)));
        assert(node_span(t, i).inner == Span { start: t[k].start as u32, end: t[k].end as u32 });
    }
}

/// A prompt made of a `+` concatenation holds, for each of its variable or
/// call operands, a variable with that operand's range and text, and a
/// variable token over that range.
pub proof fn law_concat_prompt_keeps_operands(ctx: DetectCtx, i: int, ann: Seq<AnnotationModel>, ss: u32, se: u32, k: int)
    requires
        concat_operand(ctx.t, ctx.b, "binary"@, "+"@, i, k),
        is_variable_operand(ctx.t, k),
    ensures
        rb_concat_prompt(ctx, i, ann, ss, se) matches Some(p) ==> exists|m: int|
            0 <= m < p.vars.len() && (#[trigger] p.vars[m]).span.inner == (Span {
                start: ctx.t[k].start as u32,
                end: ctx.t[k].end as u32,
            }) && p.vars[m].exp == range_text(ctx.b, p.vars[m].span.inner.start as int, p.vars[m].span.inner.end as int),
        rb_concat_prompt(ctx, i, ann, ss, se) matches Some(p) ==> exists|m: int|
            0 <= m < p.content.len() && (#[trigger] p.content[m] matches PromptContentToken::Var { span, .. } && span == (Span {
                start: ctx.t[k].start as u32,
                end: ctx.t[k].end as u32,
            })),
{
    let t = ctx.t;
    if rb_concat_prompt(ctx, i, ann, ss, se) is Some {
        let segs = rb_segments(t, ctx.b, i);
        let p = rb_concat_prompt(ctx, i, ann, ss, se).unwrap();
        let lo = t[i].start as u32;
        let hi = t[i].end as u32;
        assert(p.vars == operand_vars(segs, ctx.b, lo, hi, 0));
        law_concat_operand_is_variable(t, ctx.b, i, k);
        let q = choose|q: int|
            0 <= q < segs.len() && (#[trigger] segs[q] matches ConcatSegment::Variable(sp) && sp.inner == Span {
                start: t[k].start as u32,
                end: t[k].end as u32,
            });
        let sp = segs[q]->Variable_0;
        crate::concat::lemma_operand_vars_has(segs, ctx.b, lo, hi, 0, q, sp);
        let toks = segs.map_values(|g: ConcatSegment| operand_token(g));
        assert(p.content == crate::types::numbered(toks));
        assert(toks[q] == operand_token(segs[q]));
        crate::types::lemma_numbered_counts(toks);
        crate::types::lemma_numbered_var_at(toks, q, sp.inner);
        assert(p.content[q] matches PromptContentToken::Var { span, .. } && span == sp.inner);
    }
}

} // verus!
