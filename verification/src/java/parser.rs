//! The Java prompt detector over a tree-sitter syntax tree.
//!
//! A prompt is a string literal, a text block, a `+` concatenation or a
//! `String.format` call assigned to a prompt variable in a local variable or
//! field declaration: one whose name contains `prompt` (in any letter case),
//! whose declaration carries a `@prompt` annotation, or that a scope marked
//! before.
use crate::comments::{comment_models, sorted_by_start, subtree_comments, CommentKinds, CommentNode, CommentTracker};
use crate::detect::{
    concat_operand, boundary_or_beyond, build_prompt, collect_named_args, collect_statement_annotations, declare, declared, detect_ctx,
    detect_ready, detect_state, enclosure_start_exec, errors_message, final_annotations, final_annotations_exec,
    format_prompt, format_tree_sitter_error, initial_state, is_prompt_variable_exec, make_prompt, named_args,
    prompt_from_format, prompt_from_segments, push_some, segments_prompt, statement_annotations, variables_ranged,
    ConcatSegment, DetectCtx, DetectState, keeps, lemma_declared_keeps, lemma_keeps_refl, lemma_keeps_trans, lemma_scoped_keeps,
};
use crate::expr::{expand_around_operator, expanded_span};
use crate::go::scope::ScopeTracker;
use crate::java::spans::{get_text_block_info, java_string_shape, span_shape_string_like, spec_text_block_info, triple_quote, TextBlockInfo};
use crate::python::parser::{is_prompt_variable, result_view};
use crate::syntax::{children_precede, field_child, lemma_wf_children_precede, node_text, node_wf, SyntaxNode, SyntaxTree};
use crate::text::{
    all_whitespace, byte_range, bytes_find, find_byte, find_byte_exec, find_from, first_non_ws, first_non_ws_exec,
    is_blank, lemma_ascii_boundaries, lemma_find_byte_found, range_text, substr, text_eq, utf8, valid_range,
};
use crate::treesitter::{parse_tree, Grammar};
use crate::types::{
    annotation_models, empty_shape, prompt_models, var_models, AnnotationModel, ParseResult, Prompt, PromptAnnotation,
    PromptContentToken, PromptModel, PromptVar, Span, SpanShape, VarModel,
};
use crate::parser_core::VolumenParser;
use crate::treesitter::{node_models, parsed_models};
use vstd::prelude::*;
use vstd::string::{StrSliceExecFns, StringExecFns};

verus! {

/// The number of bytes of the whitespace that starts `t`.
pub open spec fn lead_ws_bytes(t: Seq<char>) -> int {
    utf8(t.subrange(0, first_non_ws(t, 0))).len() as int
}

/// The number of bytes of the whitespace that starts `s`.
pub(crate) fn lead_ws_bytes_exec(s: &str) -> (r: usize)
    ensures
        r == lead_ws_bytes(s@),
        r <= utf8(s@).len(),
{
    let k = first_non_ws_exec(s, 0);
    proof {
        crate::text::lemma_utf8_prefix_len(s@, k as int);
    }
    let head = s.substring_char(0, k);
    head.as_bytes().len()
}

/// The line of `b[..be]` that starts at `cur`: where its text ends (at its
/// line break, or at `be`) and where the next line starts.
pub open spec fn line_bounds(b: Seq<u8>, be: int, cur: int) -> (int, int) {
    match find_byte(b.subrange(0, be), 10u8, cur) {
        Some(p) => (p, p + 1),
        None => (be, be),
    }
}

/// The least leading-whitespace width, in bytes, of the lines of
/// `b[cur..be]` that are not blank, starting from `m`.
pub open spec fn min_line_indent(b: Seq<u8>, be: int, cur: int, m: Option<int>) -> Option<int>
    decreases be - cur,
{
    if cur < 0 || cur >= be || be > b.len() {
        m
    } else {
        proof {
            lemma_find_byte_found(b.subrange(0, be), 10u8, cur);
        }
        let (te, le) = line_bounds(b, be, cur);
        let l = range_text(b, cur, te);
        let m2 = if all_whitespace(l) {
            m
        } else {
            Some(
                match m {
                    Some(x) => if lead_ws_bytes(l) < x {
                        lead_ws_bytes(l)
                    } else {
                        x
                    },
                    None => lead_ws_bytes(l),
                },
            )
        };
        min_line_indent(b, be, le, m2)
    }
}

/// The incidental whitespace of a text block whose body is `b[bs..be]`: the
/// least indentation of its non-blank lines and of the text that leads up
/// to the closing `"""`.
pub open spec fn text_block_indent(b: Seq<u8>, bs: int, be: int) -> int {
    let m = min_line_indent(b, be, bs, None);
    let m2 = match find_from(b.subrange(be, b.len() as int), triple_quote(), 0) {
        Some(cp) => {
            let ci = lead_ws_bytes(range_text(b, be, be + cp));
            Some(
                match m {
                    Some(x) => if ci < x {
                        ci
                    } else {
                        x
                    },
                    None => ci,
                },
            )
        },
        None => m,
    };
    match m2 {
        Some(x) => x,
        None => 0,
    }
}

/// The content tokens of the lines of `b[cur..be]`: each line, line break
/// included, less the first `inc` bytes of its leading whitespace, when
/// anything is left.
pub open spec fn block_tokens(b: Seq<u8>, be: int, cur: int, inc: int) -> Seq<PromptContentToken>
    decreases be - cur,
{
    if cur < 0 || cur >= be || be > b.len() {
        seq![]
    } else {
        proof {
            lemma_find_byte_found(b.subrange(0, be), 10u8, cur);
        }
        let (te, le) = line_bounds(b, be, cur);
        let ind = lead_ws_bytes(range_text(b, cur, te));
        let strip = if ind < inc {
            ind
        } else {
            inc
        };
        let ts = cur + strip;
        (if ts < le {
            seq![PromptContentToken::Str { span: Span { start: ts as u32, end: le as u32 } }]
        } else {
            seq![]
        }) + block_tokens(b, be, le, inc)
    }
}

/// The next line of `source[..be]` from `cur`: its text end and the start of
/// the line after it, both character boundaries.
pub(crate) fn next_line(source: &str, be: usize, cur: usize) -> (r: (usize, usize))
    requires
        cur < be <= utf8(source@).len(),
        vstd::utf8::is_char_boundary(utf8(source@), cur as int),
        vstd::utf8::is_char_boundary(utf8(source@), be as int),
    ensures
        (r.0 as int, r.1 as int) == line_bounds(utf8(source@), be as int, cur as int),
        cur <= r.0 < r.1 <= be || (r.0 == be && r.1 == be),
        valid_range(utf8(source@), cur as int, r.0 as int),
        vstd::utf8::is_char_boundary(utf8(source@), r.1 as int),
{
    let ghost b = utf8(source@);
    proof {
        vstd::utf8::encode_utf8_valid_utf8(source@);
        lemma_find_byte_found(b.subrange(0, be as int), 10u8, cur as int);
    }
    let bytes = source.as_bytes();
    match find_byte_exec(bytes, be, 10u8, cur) {
        Some(p) => {
            proof {
                assert(b.subrange(0, be as int)[p as int] == b[p as int]);
                lemma_ascii_boundaries(b, p as int);
            }
            (p, p + 1)
        },
        None => (be, be),
    }
}

/// The least leading-whitespace width, in bytes, of the lines of
/// `source[body_start..body_end]` that are not blank.
pub(crate) fn min_indent_of_lines(source: &str, body_start: usize, body_end: usize) -> (r: Option<usize>)
    requires
        valid_range(utf8(source@), body_start as int, body_end as int),
    ensures
        match r { Some(x) => Some(x as int), None => None } == min_line_indent(utf8(source@), body_end as int, body_start as int, None),
{
    let ghost b = utf8(source@);
    proof {
        vstd::utf8::encode_utf8_valid_utf8(source@);
    }
    let mut m: Option<usize> = None;
    let mut cur = body_start;
    while cur < body_end
        invariant
            b == utf8(source@),
            vstd::utf8::valid_utf8(b),
            body_start <= cur <= body_end <= b.len(),
            vstd::utf8::is_char_boundary(b, cur as int),
            vstd::utf8::is_char_boundary(b, body_end as int),
            min_line_indent(b, body_end as int, body_start as int, None) == min_line_indent(
                b,
                body_end as int,
                cur as int,
                match m { Some(x) => Some(x as int), None => None },
            ),
        decreases body_end - cur,
    {
        let (te, le) = next_line(source, body_end, cur);
        let line = substr(source, cur, te);
        if !is_blank(line) {
            let ind = lead_ws_bytes_exec(line);
            m = Some(
                match m {
                    Some(x) => if ind < x {
                        ind
                    } else {
                        x
                    },
                    None => ind,
                },
            );
        }
        cur = le;
    }
    m
}

/// Calculate the incidental whitespace for Java text blocks
pub fn calculate_text_block_indent(source: &str, body_start: usize, body_end: usize) -> (r: usize)
    requires
        valid_range(utf8(source@), body_start as int, body_end as int),
    ensures
        r == text_block_indent(utf8(source@), body_start as int, body_end as int),
{
    let ghost b = utf8(source@);
    proof {
        vstd::utf8::encode_utf8_valid_utf8(source@);
    }
    let m = min_indent_of_lines(source, body_start, body_end);
    let bytes = source.as_bytes();
    let after = byte_range(bytes, body_end, bytes.len());
    let tq: [u8; 3] = [34u8, 34u8, 34u8];
    assert(tq@ =~= triple_quote());
    match bytes_find(after, tq.as_slice()) {
        Some(cp) => {
            proof {
                crate::text::lemma_find_from_found(after@, tq@, 0);
                assert(after@.subrange(cp as int, cp + 3)[0] == after@[cp as int]);
                assert(after@[cp as int] == b[body_end + cp]);
                lemma_ascii_boundaries(b, body_end + cp);
            }
            let closing = substr(source, body_end, body_end + cp);
            let ci = lead_ws_bytes_exec(closing);
            match m {
                Some(x) => if ci < x {
                    ci
                } else {
                    x
                },
                None => ci,
            }
        },
        None => match m {
            Some(x) => x,
            None => 0,
        },
    }
}

/// Build content tokens for text blocks with incidental whitespace stripping.
/// Creates separate tokens for each line, starting after the stripped whitespace.
pub fn build_text_block_tokens(source: &str, info: &TextBlockInfo) -> (r: Vec<PromptContentToken>)
    requires
        valid_range(utf8(source@), info.body_start as int, info.body_end as int),
        utf8(source@).len() < u32::MAX,
    ensures
        r@ == block_tokens(
            utf8(source@),
            info.body_end as int,
            info.body_start as int,
            text_block_indent(utf8(source@), info.body_start as int, info.body_end as int),
        ),
{
    let ghost b = utf8(source@);
    proof {
        vstd::utf8::encode_utf8_valid_utf8(source@);
    }
    let body_start = info.body_start as usize;
    let body_end = info.body_end as usize;
    let incidental = calculate_text_block_indent(source, body_start, body_end);
    let mut tokens: Vec<PromptContentToken> = Vec::new();
    let mut cur = body_start;
    while cur < body_end
        invariant
            b == utf8(source@),
            b.len() < u32::MAX,
            body_start <= cur <= body_end <= b.len(),
            vstd::utf8::is_char_boundary(b, cur as int),
            vstd::utf8::is_char_boundary(b, body_end as int),
            tokens@ + block_tokens(b, body_end as int, cur as int, incidental as int) == block_tokens(
                b,
                body_end as int,
                body_start as int,
                incidental as int,
            ),
        decreases body_end - cur,
    {
        let (te, le) = next_line(source, body_end, cur);
        let line = substr(source, cur, te);
        let ind = lead_ws_bytes_exec(line);
        let strip = if ind < incidental {
            ind
        } else {
            incidental
        };
        let ts = cur + strip;
        let ghost before = tokens@;
        if ts < le {
            tokens.push(PromptContentToken::Str { span: Span { start: ts as u32, end: le as u32 } });
        }
        assert(tokens@ + block_tokens(b, body_end as int, le as int, incidental as int) =~= before + block_tokens(
            b,
            body_end as int,
            cur as int,
            incidental as int,
        ));
        cur = le;
    }
    assert(tokens@ =~= block_tokens(b, body_end as int, body_start as int, incidental as int));
    tokens
}

/// Whether node `k` is a Java string literal or text block.
pub open spec fn java_string_node(t: Seq<SyntaxNode>, k: int) -> bool {
    0 <= k < t.len() && (t[k].kind@ == "string_literal"@ || t[k].kind@ == "text_block"@)
}

/// The content tokens of the string node `k` with span `span`: a text block
/// gives one token per body line, less its incidental whitespace; any other
/// string (or a text block whose body range is not one of whole characters)
/// one token over its inner range.
pub open spec fn java_string_content(t: Seq<SyntaxNode>, b: Seq<u8>, k: int, span: SpanShape) -> Seq<PromptContentToken> {
    let s = t[k].start as int;
    let e = t[k].end as int;
    match spec_text_block_info(b.subrange(s, e), s) {
        Some(info) => if info.strips_whitespace && valid_range(b, info.body_start as int, info.body_end as int) {
            block_tokens(b, info.body_end as int, info.body_start as int, text_block_indent(b, info.body_start as int, info.body_end as int))
        } else {
            seq![PromptContentToken::Str { span: span.inner }]
        },
        None => seq![PromptContentToken::Str { span: span.inner }],
    }
}

/// The prompt made of the string node `k`.
pub open spec fn java_string_prompt(ctx: DetectCtx, k: int, ann: Seq<AnnotationModel>, ss: u32, se: u32) -> PromptModel {
    let span = java_string_shape(ctx.b, ctx.t[k].kind@, ctx.t[k].start as int, ctx.t[k].end as int);
    make_prompt(ctx, span, seq![], ann, java_string_content(ctx.t, ctx.b, k, span), empty_shape(), ss, se)
}

/// Create a prompt from a string node.
fn create_prompt_from_string(
    tree: &SyntaxTree,
    k: usize,
    source: &str,
    filename: &str,
    stmt_start: u32,
    stmt_end: u32,
    comments: &CommentTracker,
    annotations: &Vec<PromptAnnotation>,
) -> (r: Prompt)
    requires
        detect_ready(tree, source, comments),
        k < tree.nodes@.len(),
        boundary_or_beyond(utf8(source@), stmt_start),
    ensures
        r@ == java_string_prompt(detect_ctx(tree, source, filename, comments), k as int, annotation_models(annotations@), stmt_start, stmt_end),
{
    let ghost ctx = detect_ctx(tree, source, filename, comments);
    let span = span_shape_string_like(tree, k, source);
    let vars: Vec<PromptVar> = Vec::new();
    assert(var_models(vars@) =~= Seq::<VarModel>::empty());
    let single = PromptContentToken::Str { span: span.inner };
    let content = match get_text_block_info(tree, k, source) {
        Some(info) => {
            let bs = info.body_start as usize;
            let be = info.body_end as usize;
            if info.strips_whitespace && bs <= be && be <= source.as_bytes().len() && source.is_char_boundary(bs)
                && source.is_char_boundary(be) {
                build_text_block_tokens(source, &info)
            } else {
                let v = vec![single];
                assert(v@ =~= seq![single]);
                v
            }
        },
        None => {
            let v = vec![single];
            assert(v@ =~= seq![single]);
            v
        },
    };
    let es = enclosure_start_exec(comments, stmt_start, Ghost(ctx));
    let joint = SpanShape { outer: Span { start: 0, end: 0 }, inner: Span { start: 0, end: 0 } };
    build_prompt(source, filename, span, vars, annotations, content, joint, es, stmt_end)
}

/// Widens `span` over the `+` operators and blanks around it.
pub fn expand_to_operators(span: Span, source: &str) -> (r: Span)
    requires
        utf8(source@).len() < u32::MAX,
    ensures
        r == expanded_span(utf8(source@), span.start, span.end, 43u8),
{
    expand_around_operator(span, source, 43u8)
}

/// The segments of the concatenation rooted at node `i`.
pub open spec fn concat_segments(t: Seq<SyntaxNode>, b: Seq<u8>, i: int) -> Seq<ConcatSegment>
    decreases i,
{
    if !(0 <= i < t.len()) {
        seq![]
    } else {
        let kind = t[i].kind@;
        let s = t[i].start as u32;
        let e = t[i].end as u32;
        if kind == "binary_expression"@ {
            match field_child(t, i, "operator"@) {
                Some(op) => if 0 <= op < t.len() && node_text(t, op, b) == "+"@ {
                    let l = match field_child(t, i, "left"@) {
                        Some(l) => if 0 <= l < i {
                            concat_segments(t, b, l)
                        } else {
                            seq![]
                        },
                        None => seq![],
                    };
                    let r = match field_child(t, i, "right"@) {
                        Some(r) => if 0 <= r < i {
                            concat_segments(t, b, r)
                        } else {
                            seq![]
                        },
                        None => seq![],
                    };
                    l + r
                } else {
                    seq![]
                },
                None => seq![],
            }
        } else if kind == "string_literal"@ || kind == "text_block"@ {
            seq![ConcatSegment::Text(java_string_shape(b, kind, s as int, e as int))]
        } else if kind == "identifier"@ || kind == "method_invocation"@ || kind == "field_access"@ || kind == "array_access"@ {
            seq![ConcatSegment::Variable(SpanShape { outer: expanded_span(b, s, e, 43u8), inner: Span { start: s, end: e } })]
        } else if kind == "decimal_integer_literal"@ || kind == "hex_integer_literal"@ || kind == "octal_integer_literal"@
            || kind == "binary_integer_literal"@ || kind == "decimal_floating_point_literal"@
            || kind == "hex_floating_point_literal"@ || kind == "true"@ || kind == "false"@ {
            seq![ConcatSegment::Primitive(SpanShape { outer: expanded_span(b, s, e, 43u8), inner: Span { start: s, end: e } })]
        } else if kind == "object_creation_expression"@ || kind == "array_creation_expression"@
            || kind == "array_initializer"@ {
            seq![ConcatSegment::Other]
        } else {
            seq![]
        }
    }
}

/// Extract the segments of the concatenation rooted at node `i`.
fn extract_concat_segments(tree: &SyntaxTree, i: usize, source: &str) -> (r: Vec<ConcatSegment>)
    requires
        tree.wf(utf8(source@)),
        i < tree.nodes@.len(),
    ensures
        r@ == concat_segments(tree.nodes@, utf8(source@), i as int),
        variables_ranged(r@, utf8(source@)),
    decreases i,
{
    let ghost t = tree.nodes@;
    let ghost b = utf8(source@);
    proof {
        assert(node_wf(t, i as int, b));
    }
    let s = tree.nodes[i].start as u32;
    let e = tree.nodes[i].end as u32;
    if tree.kind_is(i, "binary_expression") {
        match tree.child_by_field_name(i, "operator") {
            Some(op) => {
                proof {
                    assert(node_wf(t, op as int, b));
                }
                let op_text = tree.text_of(op, source);
                if text_eq(op_text.as_str(), "+") {
                    let mut segments: Vec<ConcatSegment> = Vec::new();
                    match tree.child_by_field_name(i, "left") {
                        Some(l) => {
                            segments = extract_concat_segments(tree, l, source);
                        },
                        None => {},
                    }
                    match tree.child_by_field_name(i, "right") {
                        Some(r) => {
                            let mut more = extract_concat_segments(tree, r, source);
                            segments.append(&mut more);
                        },
                        None => {},
                    }
                    return segments;
                }
                return Vec::new();
            },
            None => {
                return Vec::new();
            },
        }
    }
    if tree.kind_is(i, "string_literal") || tree.kind_is(i, "text_block") {
        let span = span_shape_string_like(tree, i, source);
        return vec![ConcatSegment::Text(span)];
    }
    if tree.kind_is(i, "identifier") || tree.kind_is(i, "method_invocation") || tree.kind_is(i, "field_access")
        || tree.kind_is(i, "array_access") {
        let outer = Span { start: s, end: e };
        let expanded = expand_to_operators(outer, source);
        return vec![ConcatSegment::Variable(SpanShape { outer: expanded, inner: outer })];
    }
    if tree.kind_is(i, "decimal_integer_literal") || tree.kind_is(i, "hex_integer_literal") || tree.kind_is(
        i,
        "octal_integer_literal",
    ) || tree.kind_is(i, "binary_integer_literal") || tree.kind_is(i, "decimal_floating_point_literal") || tree.kind_is(
        i,
        "hex_floating_point_literal",
    ) || tree.kind_is(i, "true") || tree.kind_is(i, "false") {
        let outer = Span { start: s, end: e };
        let expanded = expand_to_operators(outer, source);
        return vec![ConcatSegment::Primitive(SpanShape { outer: expanded, inner: outer })];
    }
    if tree.kind_is(i, "object_creation_expression") || tree.kind_is(i, "array_creation_expression") || tree.kind_is(
        i,
        "array_initializer",
    ) {
        return vec![ConcatSegment::Other];
    }
    Vec::new()
}

/// The prompt of the `+` concatenation at node `k`, if it is one: `None`
/// when the operator is not `+`, else as `segments_prompt` gives it.
pub open spec fn concat_prompt(ctx: DetectCtx, k: int, ann: Seq<AnnotationModel>, ss: u32, se: u32) -> Option<PromptModel> {
    let t = ctx.t;
    match field_child(t, k, "operator"@) {
        None => None,
        Some(op) => if !(0 <= op < t.len() && node_text(t, op, ctx.b) == "+"@) {
            None
        } else {
            segments_prompt(ctx, concat_segments(t, ctx.b, k), Span { start: t[k].start as u32, end: t[k].end as u32 }, ann, ss, se)
        },
    }
}

/// Builds a prompt from a string concatenation (`"Hello " + name + "!"`).
fn process_concatenation(
    tree: &SyntaxTree,
    k: usize,
    source: &str,
    filename: &str,
    stmt_start: u32,
    stmt_end: u32,
    comments: &CommentTracker,
    annotations: &Vec<PromptAnnotation>,
) -> (r: Option<Prompt>)
    requires
        detect_ready(tree, source, comments),
        k < tree.nodes@.len(),
        boundary_or_beyond(utf8(source@), stmt_start),
    ensures
        r matches Some(p) ==> concat_prompt(detect_ctx(tree, source, filename, comments), k as int, annotation_models(annotations@), stmt_start, stmt_end) == Some(p@),
        r is None ==> concat_prompt(detect_ctx(tree, source, filename, comments), k as int, annotation_models(annotations@), stmt_start, stmt_end) is None,
{
    let ghost ctx = detect_ctx(tree, source, filename, comments);
    let ghost t = tree.nodes@;
    let ghost b = utf8(source@);
    proof {
        assert(node_wf(t, k as int, b));
    }
    let op = match tree.child_by_field_name(k, "operator") {
        Some(op) => op,
        None => {
            return None;
        },
    };
    let op_text = tree.text_of(op, source);
    if !text_eq(op_text.as_str(), "+") {
        return None;
    }
    let segs = extract_concat_segments(tree, k, source);
    let outer = Span { start: tree.nodes[k].start as u32, end: tree.nodes[k].end as u32 };
    prompt_from_segments(segs, outer, source, filename, stmt_start, stmt_end, comments, annotations, Ghost(ctx))
}

/// The prompt of a `String.format` call at node `k`, if it is one: the
/// method is named `format`, its object is `String`, and its first argument
/// is the format string.
pub open spec fn string_format_prompt(ctx: DetectCtx, k: int, ann: Seq<AnnotationModel>, ss: u32, se: u32) -> Option<PromptModel> {
    let t = ctx.t;
    let b = ctx.b;
    match (field_child(t, k, "name"@), field_child(t, k, "object"@), field_child(t, k, "arguments"@)) {
        (Some(nm), Some(o), Some(a)) => if node_text(t, nm, b) != "format"@ || node_text(t, o, b) != "String"@ {
            None
        } else {
            let args = named_args(t, a, 0);
            if args.len() == 0 || !java_string_node(t, args[0]) {
                None
            } else {
                format_prompt(
                    ctx,
                    k,
                    java_string_shape(b, t[args[0]].kind@, t[args[0]].start as int, t[args[0]].end as int),
                    args,
                    ann,
                    ss,
                    se,
                )
            }
        },
        _ => None,
    }
}

/// Process String.format call: String.format("Hello %s", name)
fn process_string_format(
    tree: &SyntaxTree,
    k: usize,
    source: &str,
    filename: &str,
    stmt_start: u32,
    stmt_end: u32,
    comments: &CommentTracker,
    annotations: &Vec<PromptAnnotation>,
) -> (r: Option<Prompt>)
    requires
        detect_ready(tree, source, comments),
        k < tree.nodes@.len(),
        boundary_or_beyond(utf8(source@), stmt_start),
    ensures
        r matches Some(p) ==> string_format_prompt(detect_ctx(tree, source, filename, comments), k as int, annotation_models(annotations@), stmt_start, stmt_end) == Some(p@),
        r is None ==> string_format_prompt(detect_ctx(tree, source, filename, comments), k as int, annotation_models(annotations@), stmt_start, stmt_end) is None,
{
    let ghost t = tree.nodes@;
    let ghost b = utf8(source@);
    proof {
        lemma_wf_children_precede(tree, b);
    }
    let nm = match tree.child_by_field_name(k, "name") {
        Some(n) => n,
        None => {
            return None;
        },
    };
    let method_name = tree.text_of(nm, source);
    let o = match tree.child_by_field_name(k, "object") {
        Some(o) => o,
        None => {
            return None;
        },
    };
    let a = match tree.child_by_field_name(k, "arguments") {
        Some(a) => a,
        None => {
            return None;
        },
    };
    if !text_eq(method_name.as_str(), "format") {
        return None;
    }
    let object_text = tree.text_of(o, source);
    if !text_eq(object_text.as_str(), "String") {
        return None;
    }
    let args = collect_named_args(tree, a);
    let ghost ga = named_args(t, a as int, 0);
    if args.len() == 0 {
        return None;
    }
    let first = args[0];
    if !(tree.kind_is(first, "string_literal") || tree.kind_is(first, "text_block")) {
        return None;
    }
    let fs = span_shape_string_like(tree, first, source);
    assert(args@.map_values(|x: usize| x as int) =~= ga);
    prompt_from_format(tree, k, fs, &args, source, filename, stmt_start, stmt_end, comments, annotations)
}

/// A `variable_declarator` node `k` of a declaration with the given
/// annotations: when its name is a prompt variable, the name is declared and
/// a string, concatenation or `String.format` value gives a prompt.
pub open spec fn declarator(ctx: DetectCtx, st: DetectState, k: int, has_ann: bool, ann: Seq<AnnotationModel>, ss: u32, se: u32) -> DetectState {
    let t = ctx.t;
    match (field_child(t, k, "name"@), field_child(t, k, "value"@)) {
        (Some(nm), Some(v)) => {
            let ident = node_text(t, nm, ctx.b);
            if is_prompt_variable(st.scopes, ident, has_ann) {
                let st1 = declared(st, ident, has_ann, ann);
                let fa = final_annotations(st1, ident, ann);
                if java_string_node(t, v) {
                    st1.push(java_string_prompt(ctx, v, fa, ss, se))
                } else if t[v].kind@ == "binary_expression"@ {
                    st1.push_some(concat_prompt(ctx, v, fa, ss, se))
                } else if t[v].kind@ == "method_invocation"@ {
                    st1.push_some(string_format_prompt(ctx, v, fa, ss, se))
                } else {
                    st1
                }
            } else {
                st
            }
        },
        _ => st,
    }
}

/// The `variable_declarator` children of the declaration `i`, from the `j`-th on.
pub open spec fn declarators(ctx: DetectCtx, st: DetectState, i: int, j: int, has_ann: bool, ann: Seq<AnnotationModel>, ss: u32, se: u32) -> DetectState
    decreases ctx.t[i].children@.len() - j,
{
    let t = ctx.t;
    if 0 <= i < t.len() && 0 <= j < t[i].children@.len() {
        let c = t[i].children@[j] as int;
        let st1 = if 0 <= c < t.len() && t[c].kind@ == "variable_declarator"@ {
            declarator(ctx, st, c, has_ann, ann, ss, se)
        } else {
            st
        };
        declarators(ctx, st1, i, j + 1, has_ann, ann, ss, se)
    } else {
        st
    }
}

/// A local variable or field declaration at node `i`.
pub open spec fn declaration(ctx: DetectCtx, st: DetectState, i: int) -> DetectState {
    let ss = ctx.t[i].start as u32;
    let se = ctx.t[i].end as u32;
    let ann = statement_annotations(ctx, ss, se);
    declarators(ctx, st, i, 0, ann.len() > 0, ann, ss, se)
}

/// The walk of node `i`'s subtree: method, class, interface and constructor
/// declarations open a scope around their children; local variable and
/// field declarations are processed and not walked into; other nodes are
/// walked through.
pub open spec fn traverse(ctx: DetectCtx, st: DetectState, i: int) -> DetectState
    decreases i, ctx.t[i].children@.len() + 1,
{
    let t = ctx.t;
    if 0 <= i < t.len() {
        let kind = t[i].kind@;
        if kind == "method_declaration"@ || kind == "class_declaration"@ || kind == "interface_declaration"@ || kind
            == "constructor_declaration"@ {
            traverse_children(ctx, st.enter(), i, 0).exit()
        } else if kind == "local_variable_declaration"@ || kind == "field_declaration"@ {
            declaration(ctx, st, i)
        } else {
            traverse_children(ctx, st, i, 0)
        }
    } else {
        st
    }
}

/// The walk of the subtrees of node `i`'s children, from the `j`-th on.
pub open spec fn traverse_children(ctx: DetectCtx, st: DetectState, i: int, j: int) -> DetectState
    decreases i, ctx.t[i].children@.len() - j,
{
    let t = ctx.t;
    if 0 <= i < t.len() && 0 <= j < t[i].children@.len() {
        let c = t[i].children@[j] as int;
        if 0 <= c < i {
            traverse_children(ctx, traverse(ctx, st, c), i, j + 1)
        } else {
            traverse_children(ctx, st, i, j + 1)
        }
    } else {
        st
    }
}

/// Process a variable_declarator node.
fn process_variable_declarator(
    tree: &SyntaxTree,
    k: usize,
    has_prompt_annotation: bool,
    annotations: &Vec<PromptAnnotation>,
    stmt_start: u32,
    stmt_end: u32,
    source: &str,
    filename: &str,
    comments: &CommentTracker,
    scopes: &mut ScopeTracker,
    prompts: &mut Vec<Prompt>,
)
    requires
        detect_ready(tree, source, comments),
        old(scopes).wf(),
        k < tree.nodes@.len(),
        boundary_or_beyond(utf8(source@), stmt_start),
    ensures
        final(scopes).wf(),
        detect_state(*final(scopes), final(prompts)@) == declarator(
            detect_ctx(tree, source, filename, comments),
            detect_state(*old(scopes), old(prompts)@),
            k as int,
            has_prompt_annotation,
            annotation_models(annotations@),
            stmt_start,
            stmt_end,
        ),
{
    let ghost b = utf8(source@);
    proof {
        lemma_wf_children_precede(tree, b);
        assert(node_wf(tree.nodes@, k as int, b));
    }
    let name = match tree.child_by_field_name(k, "name") {
        Some(n) => n,
        None => {
            return;
        },
    };
    let ident_s = tree.text_of(name, source);
    let ident = ident_s.as_str();
    let v = match tree.child_by_field_name(k, "value") {
        Some(v) => v,
        None => {
            return;
        },
    };
    if !is_prompt_variable_exec(ident, has_prompt_annotation, scopes) {
        return;
    }
    declare(scopes, ident, has_prompt_annotation, annotations, Ghost(prompts@));
    let fa = final_annotations_exec(scopes, ident, annotations);
    if tree.kind_is(v, "string_literal") || tree.kind_is(v, "text_block") {
        let p = create_prompt_from_string(tree, v, source, filename, stmt_start, stmt_end, comments, &fa);
        push_some(prompts, Some(p));
    } else if tree.kind_is(v, "binary_expression") {
        let p = process_concatenation(tree, v, source, filename, stmt_start, stmt_end, comments, &fa);
        push_some(prompts, p);
    } else if tree.kind_is(v, "method_invocation") {
        let p = process_string_format(tree, v, source, filename, stmt_start, stmt_end, comments, &fa);
        push_some(prompts, p);
    }
}

/// Process a local variable or field declaration.
fn process_declaration(
    tree: &SyntaxTree,
    i: usize,
    source: &str,
    filename: &str,
    comments: &CommentTracker,
    scopes: &mut ScopeTracker,
    prompts: &mut Vec<Prompt>,
)
    requires
        detect_ready(tree, source, comments),
        old(scopes).wf(),
        i < tree.nodes@.len(),
    ensures
        final(scopes).wf(),
        detect_state(*final(scopes), final(prompts)@) == declaration(detect_ctx(tree, source, filename, comments), detect_state(*old(scopes), old(prompts)@), i as int),
{
    let ghost ctx = detect_ctx(tree, source, filename, comments);
    let ghost t = tree.nodes@;
    let ghost b = utf8(source@);
    proof {
        lemma_wf_children_precede(tree, b);
        assert(node_wf(t, i as int, b));
    }
    let ghost st0 = detect_state(*scopes, prompts@);
    let ss = tree.nodes[i].start as u32;
    let se = tree.nodes[i].end as u32;
    let all = collect_statement_annotations(comments, ss, se, Ghost(ctx));
    let has_ann = all.len() > 0;
    let ghost ann = annotation_models(all@);
    let n = tree.nodes[i].children.len();
    let mut j: usize = 0;
    while j < n
        invariant
            ctx == detect_ctx(tree, source, filename, comments),
            detect_ready(tree, source, comments),
            children_precede(t),
            t == tree.nodes@,
            b == utf8(source@),
            scopes.wf(),
            i < t.len(),
            n == t[i as int].children@.len(),
            j <= n,
            ann == annotation_models(all@),
            has_ann == (ann.len() > 0),
            ss == t[i as int].start as u32,
            se == t[i as int].end as u32,
            boundary_or_beyond(b, ss),
            declarators(ctx, detect_state(*scopes, prompts@), i as int, j as int, has_ann, ann, ss, se) == declarators(ctx, st0, i as int, 0, has_ann, ann, ss, se),
        decreases n - j,
    {
        let c = tree.nodes[i].children[j];
        assert(c < i);
        if tree.kind_is(c, "variable_declarator") {
            process_variable_declarator(tree, c, has_ann, &all, ss, se, source, filename, comments, scopes, prompts);
        }
        j = j + 1;
    }
}

/// Recursively traverse nodes to find declarations and manage scopes.
fn traverse_node(
    tree: &SyntaxTree,
    i: usize,
    source: &str,
    filename: &str,
    comments: &CommentTracker,
    scopes: &mut ScopeTracker,
    prompts: &mut Vec<Prompt>,
)
    requires
        detect_ready(tree, source, comments),
        old(scopes).wf(),
        i < tree.nodes@.len(),
    ensures
        final(scopes).wf(),
        detect_state(*final(scopes), final(prompts)@) == traverse(detect_ctx(tree, source, filename, comments), detect_state(*old(scopes), old(prompts)@), i as int),
    decreases i, 1nat,
{
    if tree.kind_is(i, "method_declaration") || tree.kind_is(i, "class_declaration") || tree.kind_is(i, "interface_declaration")
        || tree.kind_is(i, "constructor_declaration") {
        scopes.enter_scope();
        traverse_node_children(tree, i, source, filename, comments, scopes, prompts);
        scopes.exit_scope();
        return;
    }
    if tree.kind_is(i, "local_variable_declaration") || tree.kind_is(i, "field_declaration") {
        process_declaration(tree, i, source, filename, comments, scopes, prompts);
        return;
    }
    traverse_node_children(tree, i, source, filename, comments, scopes, prompts);
}

/// Traverses the children of node `i`, in order.
fn traverse_node_children(
    tree: &SyntaxTree,
    i: usize,
    source: &str,
    filename: &str,
    comments: &CommentTracker,
    scopes: &mut ScopeTracker,
    prompts: &mut Vec<Prompt>,
)
    requires
        detect_ready(tree, source, comments),
        old(scopes).wf(),
        i < tree.nodes@.len(),
    ensures
        final(scopes).wf(),
        detect_state(*final(scopes), final(prompts)@) == traverse_children(
            detect_ctx(tree, source, filename, comments),
            detect_state(*old(scopes), old(prompts)@),
            i as int,
            0,
        ),
    decreases i, 0nat,
{
    let ghost ctx = detect_ctx(tree, source, filename, comments);
    let ghost t = tree.nodes@;
    let ghost st0 = detect_state(*scopes, prompts@);
    proof {
        lemma_wf_children_precede(tree, utf8(source@));
    }
    let n = tree.nodes[i].children.len();
    let mut j: usize = 0;
    while j < n
        invariant
            ctx == detect_ctx(tree, source, filename, comments),
            detect_ready(tree, source, comments),
            children_precede(t),
            t == tree.nodes@,
            scopes.wf(),
            i < t.len(),
            n == t[i as int].children@.len(),
            j <= n,
            traverse_children(ctx, detect_state(*scopes, prompts@), i as int, j as int) == traverse_children(ctx, st0, i as int, 0),
        decreases n - j,
    {
        let c = tree.nodes[i].children[j];
        assert(c < i);
        traverse_node(tree, c, source, filename, comments, scopes, prompts);
        j = j + 1;
    }
}

/// Whether `cs` lists the line and block comments of the tree sorted by start.
pub open spec fn sorted_java_comments_of(t: Seq<SyntaxNode>, root: int, b: Seq<u8>, cs: Seq<CommentNode>) -> bool {
    sorted_by_start(cs) && comment_models(cs).to_multiset() == subtree_comments(t, root, b, CommentKinds::LineAndBlock).to_multiset()
}

/// What the detector finds in a well-formed tree with the sorted comment
/// list `cs`: the error message when the root has an error, otherwise the
/// prompts of a walk from the root.
pub open spec fn spec_detect_java(t: Seq<SyntaxNode>, root: int, b: Seq<u8>, file: Seq<char>, cs: Seq<CommentNode>) -> Result<Seq<PromptModel>, Seq<char>> {
    if t[root].has_error {
        Err(errors_message(t, b, root))
    } else {
        Ok(traverse(DetectCtx { t, b, file, cs }, initial_state(), root).prompts)
    }
}

/// Detects the prompts of a parsed Java source; its comments are the
/// `line_comment` and `block_comment` nodes.
pub fn detect_prompts(tree: &SyntaxTree, source: &str, filename: &str) -> (r: ParseResult)
    requires
        tree.wf(utf8(source@)),
    ensures
        exists|cs: Seq<CommentNode>| sorted_java_comments_of(tree.nodes@, tree.root as int, utf8(source@), cs)
            && result_view(r) == spec_detect_java(tree.nodes@, tree.root as int, utf8(source@), filename@, cs),
{
    let root = tree.root;
    let comments = CommentTracker::with_kinds(tree, source, CommentKinds::LineAndBlock);
    let ghost cs = comments.comment_list();
    assert(sorted_java_comments_of(tree.nodes@, root as int, utf8(source@), cs));
    if tree.nodes[root].has_error {
        let error = format_tree_sitter_error(tree, root, source);
        let r = ParseResult::ParseResultError { error };
        assert(result_view(r) == spec_detect_java(tree.nodes@, root as int, utf8(source@), filename@, cs));
        return r;
    }
    let mut prompts: Vec<Prompt> = Vec::new();
    let mut scopes = ScopeTracker::new();
    assert(prompt_models(prompts@) =~= Seq::<PromptModel>::empty());
    assert(detect_state(scopes, prompts@) == initial_state());
    traverse_node(tree, root, source, filename, &comments, &mut scopes, &mut prompts);
    let r = ParseResult::ParseResultSuccess { prompts };
    assert(result_view(r) == spec_detect_java(tree.nodes@, root as int, utf8(source@), filename@, cs));
    r
}

/// The Java prompt parser over tree-sitter.
pub struct ParserJava {}

impl ParserJava {
    /// Parses the source with the tree-sitter Java grammar and detects its
    /// prompts. When no tree comes back, the result is the error "Failed to
    /// parse source"; otherwise it is what `detect_prompts` finds in that tree.
    pub fn parse(source: &str, filename: &str) -> (r: ParseResult)
        ensures
            parsed_models(Grammar::Java, source@) is None ==> (r matches ParseResult::ParseResultError { error } && error@
                == "Failed to parse source"@),
            parsed_models(Grammar::Java, source@) is Some ==> exists|t: SyntaxTree, cs: Seq<CommentNode>|
                node_models(t.nodes@) == parsed_models(Grammar::Java, source@).unwrap() && t.root + 1 == t.nodes@.len()
                    && t.wf(utf8(source@)) && sorted_java_comments_of(t.nodes@, t.root as int, utf8(source@), cs)
                    && result_view(r) == spec_detect_java(t.nodes@, t.root as int, utf8(source@), filename@, cs),
    {
        match parse_tree(Grammar::Java, source) {
            Some(tree) => detect_prompts(&tree, source, filename),
            None => ParseResult::ParseResultError { error: String::from_str("Failed to parse source") },
        }
    }
}

impl VolumenParser for ParserJava {
    fn parse(source: &str, filename: &str) -> (r: ParseResult)
        ensures
            parsed_models(Grammar::Java, source@) is None ==> (r matches ParseResult::ParseResultError { error } && error@
                == "Failed to parse source"@),
            parsed_models(Grammar::Java, source@) is Some ==> exists|t: SyntaxTree, cs: Seq<CommentNode>|
                node_models(t.nodes@) == parsed_models(Grammar::Java, source@).unwrap() && t.root + 1 == t.nodes@.len()
                    && t.wf(utf8(source@)) && sorted_java_comments_of(t.nodes@, t.root as int, utf8(source@), cs)
                    && result_view(r) == spec_detect_java(t.nodes@, t.root as int, utf8(source@), filename@, cs),
    {
        ParserJava::parse(source, filename)
    }
}

proof fn lemma_declarators_keeps(ctx: DetectCtx, st: DetectState, i: int, j: int, has_ann: bool, ann: Seq<AnnotationModel>, ss: u32, se: u32)
    requires
        st.scopes.len() >= 1,
    ensures
        keeps(st, declarators(ctx, st, i, j, has_ann, ann, ss, se)),
    decreases ctx.t[i].children@.len() - j,
{
    let t = ctx.t;
    lemma_keeps_refl(st);
    if 0 <= i < t.len() && 0 <= j < t[i].children@.len() {
        let c = t[i].children@[j] as int;
        let st1 = if 0 <= c < t.len() && t[c].kind@ == "variable_declarator"@ {
            declarator(ctx, st, c, has_ann, ann, ss, se)
        } else {
            st
        };
        if 0 <= c < t.len() && t[c].kind@ == "variable_declarator"@ {
            match (field_child(t, c, "name"@), field_child(t, c, "value"@)) {
                (Some(nm), Some(v)) => {
                    let ident = node_text(t, nm, ctx.b);
                    let d = declared(st, ident, has_ann, ann);
                    let fa = final_annotations(d, ident, ann);
                    let o = if t[v].kind@ == "binary_expression"@ {
                        concat_prompt(ctx, v, fa, ss, se)
                    } else {
                        string_format_prompt(ctx, v, fa, ss, se)
                    };
                    lemma_declared_keeps(st, ident, has_ann, ann, java_string_prompt(ctx, v, fa, ss, se), o);
                },
                _ => {},
            }
        }
        lemma_declarators_keeps(ctx, st1, i, j + 1, has_ann, ann, ss, se);
        lemma_keeps_trans(st, st1, declarators(ctx, st1, i, j + 1, has_ann, ann, ss, se));
    }
}

/// A walk keeps the depth of the scope stack (every scope it enters it
/// leaves) and only ever appends prompts: those found before it are kept
/// unchanged, in order.
pub proof fn law_walk_keeps_scopes_and_prompts(ctx: DetectCtx, st: DetectState, i: int)
    requires
        st.scopes.len() >= 1,
    ensures
        keeps(st, traverse(ctx, st, i)),
    decreases i, ctx.t[i].children@.len() + 1,
{
    let t = ctx.t;
    lemma_keeps_refl(st);
    if 0 <= i < t.len() {
        let kind = t[i].kind@;
        if kind == "method_declaration"@ || kind == "class_declaration"@ || kind == "interface_declaration"@ || kind
            == "constructor_declaration"@ {
            lemma_walk_children_keeps(ctx, st.enter(), i, 0);
            lemma_scoped_keeps(st, traverse_children(ctx, st.enter(), i, 0));
        } else if kind == "local_variable_declaration"@ || kind == "field_declaration"@ {
            let ss = t[i].start as u32;
            let se = t[i].end as u32;
            let ann = statement_annotations(ctx, ss, se);
            lemma_declarators_keeps(ctx, st, i, 0, ann.len() > 0, ann, ss, se);
        } else {
            lemma_walk_children_keeps(ctx, st, i, 0);
        }
    }
}

proof fn lemma_walk_children_keeps(ctx: DetectCtx, st: DetectState, i: int, j: int)
    requires
        st.scopes.len() >= 1,
    ensures
        keeps(st, traverse_children(ctx, st, i, j)),
    decreases i, ctx.t[i].children@.len() - j,
{
    let t = ctx.t;
    lemma_keeps_refl(st);
    if 0 <= i < t.len() && 0 <= j < t[i].children@.len() {
        let c = t[i].children@[j] as int;
        if 0 <= c < i {
            law_walk_keeps_scopes_and_prompts(ctx, st, c);
            let s1 = traverse(ctx, st, c);
            lemma_walk_children_keeps(ctx, s1, i, j + 1);
            lemma_keeps_trans(st, s1, traverse_children(ctx, s1, i, j + 1));
        } else {
            lemma_walk_children_keeps(ctx, st, i, j + 1);
        }
    }
}

} // verus!

verus! {

/// Whether node `k` is an identifier, a method invocation, a field access
/// or an array access: an operand that a concatenation takes as a variable.
pub open spec fn is_variable_operand(t: Seq<SyntaxNode>, k: int) -> bool {
    t[k].kind@ == "identifier"@ || t[k].kind@ == "method_invocation"@ || t[k].kind@ == "field_access"@ || t[k].kind@
        == "array_access"@
}

/// Every identifier, method invocation, field access or array access
/// operand of a `+` concatenation gives a variable segment over that
/// operand's range.
pub proof fn law_concat_operand_is_variable(t: Seq<SyntaxNode>, b: Seq<u8>, i: int, k: int)
    requires
        concat_operand(t, b, "binary_expression"@, "+"@, i, k),
        is_variable_operand(t, k),
    ensures
        exists|q: int|
            0 <= q < concat_segments(t, b, i).len() && (#[trigger] concat_segments(t, b, i)[q] matches ConcatSegment::Variable(
                sp,
            ) && sp.inner == Span { start: t[k].start as u32, end: t[k].end as u32 }),
    decreases i,
{
    reveal_strlit("identifier");
    reveal_strlit("method_invocation");
    reveal_strlit("field_access");
    reveal_strlit("array_access");
    reveal_strlit("binary_expression");
    reveal_strlit("string_literal");
    reveal_strlit("text_block");
    let segs = concat_segments(t, b, i);
    if t[i].kind@ == "binary_expression"@ && (field_child(t, i, "operator"@) matches Some(op) && 0 <= op < t.len()
        && node_text(t, op, b) == "+"@) {
        let ls = match field_child(t, i, "left"@) {
            Some(l) => if 0 <= l < i { concat_segments(t, b, l) } else { seq![] },
            None => seq![],
        };
        let rs = match field_child(t, i, "right"@) {
            Some(r) => if 0 <= r < i { concat_segments(t, b, r) } else { seq![] },
            None => seq![],
        };
        assert(segs == ls + rs);
        let lo = field_child(t, i, "left"@);
        if lo is Some && 0 <= lo.unwrap() < i && concat_operand(t, b, "binary_expression"@, "+"@, lo.unwrap(), k) {
            let l = lo.unwrap();
            law_concat_operand_is_variable(t, b, l, k);
            let q = choose|q: int|
                0 <= q < concat_segments(t, b, l).len() && (#[trigger] concat_segments(t, b, l)[q] matches ConcatSegment::Variable(
                    sp,
                ) && sp.inner == Span { start: t[k].start as u32, end: t[k].end as u32 });
            assert(segs[q] == ls[q]);
        } else {
            let r = field_child(t, i, "right"@).unwrap();
            law_concat_operand_is_variable(t, b, r, k);
            let q = choose|q: int|
                0 <= q < concat_segments(t, b, r).len() && (#[trigger] concat_segments(t, b, r)[q] matches ConcatSegment::Variable(
                    sp,
                ) && sp.inner == Span { start: t[k].start as u32, end: t[k].end as u32 });
            assert(segs[ls.len() + q] == rs[q]);
        }
    } else {
        assert(k == i);
        let st = t[i].start as u32;
        let en = t[i].end as u32;
        let sp = SpanShape { outer: expanded_span(b, st, en, 43u8), inner: Span { start: st, end: en } };
        assert("identifier"@[0] == 'i' && "method_invocation"@[0] == 'm' && "field_access"@[0] == 'f' && "array_access"@[0] == 'a');
        assert("binary_expression"@[0] == 'b' && "string_literal"@[0] == 's' && "text_block"@[0] == 't');
        assert(t[i].kind@ != "binary_expression"@) by {
            if t[i].kind@ == "binary_expression"@ {
                assert(t[i].kind@[0] == 'b');
            }
        }
        assert(t[i].kind@ != "string_literal"@ && t[i].kind@ != "text_block"@) by {
            if t[i].kind@ == "string_literal"@ {
                assert(t[i].kind@[0] == 's');
            }
            if t[i].kind@ == "text_block"@ {
                assert(t[i].kind@[0] == 't');
            }
        }
        assert(segs =~= seq![ConcatSegment::Variable(sp)]);
        assert(segs[0] == ConcatSegment::Variable(sp));
    }
}

/// A prompt made of a `+` concatenation holds, for each of its identifier,
/// method invocation, field access or array access operands, a variable
/// with that operand's range and text.
pub proof fn law_concat_prompt_keeps_operands(ctx: DetectCtx, i: int, ann: Seq<AnnotationModel>, ss: u32, se: u32, k: int)
    requires
        concat_operand(ctx.t, ctx.b, "binary_expression"@, "+"@, i, k),
        is_variable_operand(ctx.t, k),
    ensures
        concat_prompt(ctx, i, ann, ss, se) matches Some(p) ==> exists|m: int|
            0 <= m < p.vars.len() && (#[trigger] p.vars[m]).span.inner == (Span {
                start: ctx.t[k].start as u32,
                end: ctx.t[k].end as u32,
            }) && p.vars[m].exp == range_text(ctx.b, p.vars[m].span.inner.start as int, p.vars[m].span.inner.end as int),
        concat_prompt(ctx, i, ann, ss, se) matches Some(p) ==> exists|m: int|
            0 <= m < p.content.len() && (#[trigger] p.content[m] matches PromptContentToken::Var { span, .. } && span == (Span {
                start: ctx.t[k].start as u32,
                end: ctx.t[k].end as u32,
            })),
{
    let t = ctx.t;
    if concat_prompt(ctx, i, ann, ss, se) is Some {
        let segs = concat_segments(t, ctx.b, i);
        let p = concat_prompt(ctx, i, ann, ss, se).unwrap();
        assert(p.vars == crate::detect::segment_vars(segs, ctx.b, 0));
        law_concat_operand_is_variable(t, ctx.b, i, k);
        let q = choose|q: int|
            0 <= q < segs.len() && (#[trigger] segs[q] matches ConcatSegment::Variable(sp) && sp.inner == Span {
                start: t[k].start as u32,
                end: t[k].end as u32,
            });
        let sp = segs[q]->Variable_0;
        crate::detect::lemma_segment_vars_has(segs, ctx.b, 0, q, sp);
        let toks = segs.map_values(|g: ConcatSegment| crate::detect::segment_token(g));
        assert(p.content == crate::types::numbered(toks));
        assert(toks[q] == crate::detect::segment_token(segs[q]));
        crate::types::lemma_numbered_counts(toks);
        crate::types::lemma_numbered_var_at(toks, q, sp.inner);
        assert(p.content[q] matches PromptContentToken::Var { span, .. } && span == sp.inner);
    }
}

} // verus!
