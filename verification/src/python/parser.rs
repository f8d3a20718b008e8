//! The Python prompt detector over a tree-sitter syntax tree.
//!
//! A prompt is a string assigned to an identifier that is a prompt
//! variable: its name contains `prompt` (in any letter case), the statement
//! carries a `@prompt` annotation, or an enclosing scope marked it before.
use crate::comments::{spec_adjacent_leading, spec_inline_prompt, CommentNode, CommentTracker};
use crate::python::scope::{in_any_scope, innermost_lookup, ScopeTracker};
use crate::python::spans::{
    extract_fstring_vars, first_quote, fstring_vars, py_string_shape, shape_from_quote, shape_with_quote,
    span_shape_string_like,
};
use crate::syntax::{
    children_precede, field_child, lemma_wf_children_precede, node_text, node_wf, SyntaxNode, SyntaxTree,
};
use crate::text::{span_string, span_text, 
    append_decimal, bytes_find, decimal, find_from, to_lowercase, lowercase, utf8, valid_range,
};
use crate::comments::{comment_models, sorted_by_start, subtree_comments, CommentKinds};
use crate::treesitter::{parse_tree, Grammar};
use crate::types::ParseResult;
use vstd::string::StringExecFns;
use crate::types::{
    annotation_models, empty_shape, prompt_models, AnnotationModel, Prompt, PromptAnnotation,
    PromptContentToken, PromptModel, PromptVar, Span, SpanShape, VarModel,
};
use crate::parser_core::VolumenParser;
use crate::treesitter::{node_models, parsed_models};
use vstd::prelude::*;

verus! {

/// What the detector reads: the tree, the source bytes, the file name and
/// the sorted comments.
pub struct PyCtx {
    pub t: Seq<SyntaxNode>,
    pub b: Seq<u8>,
    pub file: Seq<char>,
    pub cs: Seq<CommentNode>,
}

/// What the detector changes: the scope stacks, the type-annotated
/// identifiers and the prompts found so far.
pub struct PyState {
    pub scopes: Seq<Set<Seq<char>>>,
    pub defs: Seq<Map<Seq<char>, Seq<AnnotationModel>>>,
    pub annotated: Set<Seq<char>>,
    pub prompts: Seq<PromptModel>,
}

impl PyState {
    pub open spec fn enter(self) -> PyState {
        PyState { scopes: self.scopes.push(Set::empty()), defs: self.defs.push(Map::empty()), ..self }
    }

    pub open spec fn exit(self) -> PyState {
        PyState {
            scopes: if self.scopes.len() > 1 {
                self.scopes.drop_last()
            } else {
                self.scopes
            },
            defs: if self.defs.len() > 1 {
                self.defs.drop_last()
            } else {
                self.defs
            },
            ..self
        }
    }

    pub open spec fn mark(self, k: Seq<char>) -> PyState {
        PyState {
            scopes: self.scopes.update(self.scopes.len() - 1, self.scopes.last().insert(k)),
            ..self
        }
    }

    pub open spec fn store(self, k: Seq<char>, a: Seq<AnnotationModel>) -> PyState {
        PyState {
            defs: self.defs.update(self.defs.len() - 1, self.defs.last().insert(k, a)),
            annotated: self.annotated.insert(k),
            ..self
        }
    }

    pub open spec fn mark_annotated(self, k: Seq<char>) -> PyState {
        PyState { annotated: self.annotated.insert(k), ..self }
    }

    pub open spec fn push(self, p: PromptModel) -> PyState {
        PyState { prompts: self.prompts.push(p), ..self }
    }

    pub open spec fn is_prompt(self, k: Seq<char>) -> bool {
        in_any_scope(self.scopes, k)
    }

    pub open spec fn def_annotation(self, k: Seq<char>) -> Seq<AnnotationModel> {
        match innermost_lookup(self.defs, k, self.defs.len() as int) {
            Some(a) => a,
            None => seq![],
        }
    }
}

/// The state held by a scope tracker and a list of prompts.
pub open spec fn py_state(s: ScopeTracker, p: Seq<Prompt>) -> PyState {
    PyState { scopes: s.prompt_scopes(), defs: s.def_scopes(), annotated: s.annotated(), prompts: prompt_models(p) }
}

/// The bytes of `prompt`.
pub open spec fn prompt_word() -> Seq<u8> {
    seq![112u8, 114u8, 111u8, 109u8, 112u8, 116u8]
}

/// Whether an identifier's lowercase form contains `prompt`.
pub open spec fn names_prompt(ident: Seq<char>) -> bool {
    find_from(utf8(lowercase(ident)), prompt_word(), 0) is Some
}

/// Whether an identifier is a prompt variable: its name contains `prompt`,
/// the statement is annotated, or a scope marked it.
pub open spec fn is_prompt_variable(scopes: Seq<Set<Seq<char>>>, ident: Seq<char>, has_annotation: bool) -> bool {
    names_prompt(ident) || has_annotation || in_any_scope(scopes, ident)
}

/// Whether node `k` is a string or a concatenation of strings.
pub open spec fn string_like(t: Seq<SyntaxNode>, k: int) -> bool {
    0 <= k < t.len() && (t[k].kind@ == "string"@ || t[k].kind@ == "concatenated_string"@)
}

/// Whether the bytes at `s` open an f-string (`f...` or `rf...`).
pub open spec fn opens_fstring(b: Seq<u8>, s: int, e: int) -> bool {
    (s < e && b[s] == 102u8) || (s + 1 < e && b[s] == 114u8 && b[s + 1] == 102u8)
}

/// The content tokens of a prompt with the given span and variables: the
/// text around the variables and the variables themselves, in order; a
/// prompt without variables is one text token over its inner range.
pub open spec fn content_tokens(span: SpanShape, vars: Seq<VarModel>) -> Seq<PromptContentToken> {
    if vars.len() == 0 {
        seq![PromptContentToken::Str { span: span.inner }]
    } else {
        tokens_from(vars, 0, span.inner.start, span.inner.end)
    }
}

/// The tokens from the `j`-th variable on, the text resuming at `pos`.
pub open spec fn tokens_from(vars: Seq<VarModel>, j: int, pos: u32, inner_end: u32) -> Seq<PromptContentToken>
    decreases vars.len() - j,
{
    if j >= vars.len() || j < 0 {
        if pos < inner_end {
            seq![PromptContentToken::Str { span: Span { start: pos, end: inner_end } }]
        } else {
            seq![]
        }
    } else {
        let v = vars[j].span.outer;
        let before = if pos < v.start {
            seq![PromptContentToken::Str { span: Span { start: pos, end: v.start } }]
        } else {
            seq![]
        };
        before + seq![PromptContentToken::Var { span: v, index: j as u32 }] + tokens_from(vars, j + 1, v.end, inner_end)
    }
}

/// Where a statement's enclosure starts: at its merged leading annotation
/// when it has one, else at the statement.
pub open spec fn enclosure_start(ctx: PyCtx, stmt_start: u32) -> u32 {
    let lead = spec_adjacent_leading(ctx.cs, ctx.b, stmt_start as int);
    if lead.len() > 0 {
        lead[0].span.start
    } else {
        stmt_start
    }
}

/// A prompt over `span` with the given variables and annotations, in a
/// statement spanning `[stmt_start, stmt_end)`.
pub open spec fn make_prompt(
    ctx: PyCtx,
    span: SpanShape,
    vars: Seq<VarModel>,
    ann: Seq<AnnotationModel>,
    stmt_start: u32,
    stmt_end: u32,
) -> PromptModel {
    PromptModel {
        file: ctx.file,
        span,
        enclosure: Span { start: enclosure_start(ctx, stmt_start), end: stmt_end },
        exp: span_text(ctx.b, span.outer.start, span.outer.end),
        vars,
        annotations: ann,
        content: content_tokens(span, vars),
        joint: empty_shape(),
    }
}

/// The prompt made of the string node `k`.
pub open spec fn prompt_from_string(
    ctx: PyCtx,
    k: int,
    ann: Seq<AnnotationModel>,
    stmt_start: u32,
    stmt_end: u32,
) -> PromptModel {
    let s = ctx.t[k].start as int;
    let e = ctx.t[k].end as int;
    let vars = if opens_fstring(ctx.b, s, e) {
        fstring_vars(ctx.t, k, ctx.b, 0)
    } else {
        seq![]
    };
    make_prompt(ctx, py_string_shape(ctx.b, s, e), vars, ann, stmt_start, stmt_end)
}

/// Whether `c` is a quote, `f` or `r`.
pub open spec fn quote_or_prefix(c: u8) -> bool {
    c == 39 || c == 34 || c == 102 || c == 114
}

/// Whether `c` is `f` or `r`.
pub open spec fn is_prefix_letter(c: u8) -> bool {
    c == 102 || c == 114
}

/// The first offset in `[i, end)` that holds a quote, `f` or `r`, or `end`.
pub open spec fn first_quote_or_prefix(b: Seq<u8>, i: int, end: int) -> int
    decreases end - i,
{
    if i >= end {
        i
    } else if quote_or_prefix(b[i]) {
        i
    } else {
        first_quote_or_prefix(b, i + 1, end)
    }
}

/// Where the quote search resumes after an `f`/`r` prefix of up to two letters.
pub open spec fn after_prefix(b: Seq<u8>, s: int, e: int) -> int {
    let i = first_quote_or_prefix(b, s, e);
    if i < e && is_prefix_letter(b[i]) {
        if i + 1 < e && is_prefix_letter(b[i + 1]) {
            i + 2
        } else {
            i + 1
        }
    } else {
        i
    }
}

/// The span shape of a string value found by its byte range.
pub open spec fn range_shape(b: Seq<u8>, s: int, e: int) -> SpanShape {
    shape_from_quote(b, s, e, first_quote(b, after_prefix(b, s, e), e))
}

/// The prompt made of the string value over the bytes `[s, e)`.
pub open spec fn prompt_from_range(
    ctx: PyCtx,
    s: int,
    e: int,
    ann: Seq<AnnotationModel>,
    stmt_start: u32,
    stmt_end: u32,
) -> PromptModel {
    make_prompt(ctx, range_shape(ctx.b, s, e), seq![], ann, stmt_start, stmt_end)
}

/// The texts of the `identifier` nodes of node `i`'s subtree, in pre-order,
/// not looking inside an identifier.
pub open spec fn identifiers_in(t: Seq<SyntaxNode>, i: int, b: Seq<u8>) -> Seq<Seq<char>>
    decreases i, t[i].children@.len() + 1,
{
    if 0 <= i < t.len() {
        if t[i].kind@ == "identifier"@ {
            seq![node_text(t, i, b)]
        } else {
            identifiers_in_children(t, i, 0, b)
        }
    } else {
        seq![]
    }
}

pub open spec fn identifiers_in_children(t: Seq<SyntaxNode>, i: int, j: int, b: Seq<u8>) -> Seq<Seq<char>>
    decreases i, t[i].children@.len() - j,
{
    if 0 <= i < t.len() && 0 <= j < t[i].children@.len() {
        let c = t[i].children@[j] as int;
        if 0 <= c < i {
            identifiers_in(t, c, b) + identifiers_in_children(t, i, j + 1, b)
        } else {
            identifiers_in_children(t, i, j + 1, b)
        }
    } else {
        seq![]
    }
}

/// The byte ranges of the string values of node `i`'s subtree, in pre-order,
/// not looking inside a string value.
pub open spec fn string_ranges_in(t: Seq<SyntaxNode>, i: int) -> Seq<(int, int)>
    decreases i, t[i].children@.len() + 1,
{
    if 0 <= i < t.len() {
        if string_like(t, i) {
            seq![(t[i].start as int, t[i].end as int)]
        } else {
            string_ranges_in_children(t, i, 0)
        }
    } else {
        seq![]
    }
}

pub open spec fn string_ranges_in_children(t: Seq<SyntaxNode>, i: int, j: int) -> Seq<(int, int)>
    decreases i, t[i].children@.len() - j,
{
    if 0 <= i < t.len() && 0 <= j < t[i].children@.len() {
        let c = t[i].children@[j] as int;
        if 0 <= c < i {
            string_ranges_in(t, c) + string_ranges_in_children(t, i, j + 1)
        } else {
            string_ranges_in_children(t, i, j + 1)
        }
    } else {
        seq![]
    }
}

/// Pairs the identifiers of a multi-assignment with its string values, from
/// the `j`-th on: each prompt variable with a value is marked and yields a
/// prompt.
pub open spec fn multi_pairs(
    ctx: PyCtx,
    st: PyState,
    idents: Seq<Seq<char>>,
    ranges: Seq<(int, int)>,
    j: int,
    has_ann: bool,
    ann: Seq<AnnotationModel>,
    ss: u32,
    se: u32,
) -> PyState
    decreases idents.len() - j,
{
    if 0 <= j < idents.len() {
        let st1 = if j < ranges.len() && is_prompt_variable(st.scopes, idents[j], has_ann) {
            st.mark(idents[j]).push(prompt_from_range(ctx, ranges[j].0, ranges[j].1, ann, ss, se))
        } else {
            st
        };
        multi_pairs(ctx, st1, idents, ranges, j + 1, has_ann, ann, ss, se)
    } else {
        st
    }
}

/// A multi-assignment (`a, b = ...`) with target `left` and value `right`.
pub open spec fn multi_assignment(
    ctx: PyCtx,
    st: PyState,
    left: int,
    right: Option<int>,
    has_ann: bool,
    ann: Seq<AnnotationModel>,
    ss: u32,
    se: u32,
) -> PyState {
    match right {
        None => st,
        Some(r) => multi_pairs(
            ctx,
            st,
            identifiers_in(ctx.t, left, ctx.b),
            string_ranges_in(ctx.t, r),
            0,
            has_ann,
            ann,
            ss,
            se,
        ),
    }
}

/// An assignment of `right` to the identifier `ident`.
pub open spec fn identifier_assignment(
    ctx: PyCtx,
    st: PyState,
    ident: Seq<char>,
    right: Option<int>,
    has_type: bool,
    has_ann: bool,
    ann: Seq<AnnotationModel>,
    ss: u32,
    se: u32,
) -> PyState {
    match right {
        None => if has_type && has_ann {
            st.store(ident, ann).mark_annotated(ident).mark(ident)
        } else {
            st
        },
        Some(r) => if is_prompt_variable(st.scopes, ident, has_ann) {
            let st1 = st.mark(ident);
            let st2 = if has_type && has_ann {
                st1.store(ident, ann).mark_annotated(ident)
            } else {
                st1
            };
            if string_like(ctx.t, r) {
                let fin = if ann.len() > 0 {
                    ann
                } else {
                    st2.def_annotation(ident)
                };
                st2.push(prompt_from_string(ctx, r, fin, ss, se))
            } else {
                st2
            }
        } else {
            st
        },
    }
}

/// The value at the end of a chain of assignments `a = b = ... = value`,
/// starting from the inner assignment `cur`: `None` when an assignment of
/// the chain has no value.
pub open spec fn chain_value(t: Seq<SyntaxNode>, cur: int) -> Option<int>
    decreases cur,
{
    match field_child(t, cur, "right"@) {
        None => None,
        Some(r) => if 0 <= r < cur && r < t.len() && t[r].kind@ == "assignment"@ {
            chain_value(t, r)
        } else if 0 <= r < cur {
            Some(r)
        } else {
            None
        },
    }
}

/// The prompt of the first identifier of a chained assignment whose value
/// is found at the end of the chain.
pub open spec fn chain_prompt(
    ctx: PyCtx,
    st: PyState,
    ident: Seq<char>,
    r: int,
    has_type: bool,
    has_ann: bool,
    ann: Seq<AnnotationModel>,
    ss: u32,
    se: u32,
) -> PyState {
    match chain_value(ctx.t, r) {
        Some(v) => if is_prompt_variable(st.scopes, ident, has_ann) && string_like(ctx.t, v) {
            let st1 = st.mark(ident);
            let st2 = if has_type && has_ann {
                st1.store(ident, ann).mark_annotated(ident)
            } else {
                st1
            };
            st2.push(prompt_from_string(ctx, v, ann, ss, se))
        } else {
            st
        },
        None => st,
    }
}

/// The annotations of a statement spanning `[ss, se)`: its merged leading
/// annotation, then its inline `@prompt` comments.
pub open spec fn statement_annotations(ctx: PyCtx, ss: u32, se: u32) -> Seq<AnnotationModel> {
    spec_adjacent_leading(ctx.cs, ctx.b, ss as int) + spec_inline_prompt(ctx.cs, ss as int, se as int, ctx.cs.len() as int)
}

/// An assignment node `i`, with the annotations and statement bounds it
/// inherits from an enclosing chained assignment, if any.
pub open spec fn assignment(
    ctx: PyCtx,
    st: PyState,
    i: int,
    inherited: Option<Seq<AnnotationModel>>,
    bounds: Option<(u32, u32)>,
) -> PyState
    decreases i,
{
    let t = ctx.t;
    let (ss, se) = match bounds {
        Some(bd) => bd,
        None => (t[i].start as u32, t[i].end as u32),
    };
    let ann = match inherited {
        Some(a) => a,
        None => statement_annotations(ctx, ss, se),
    };
    let has_ann = ann.len() > 0;
    match field_child(t, i, "left"@) {
        None => st,
        Some(l) => {
            let right = field_child(t, i, "right"@);
            let has_type = field_child(t, i, "type"@) is Some;
            if 0 <= l < t.len() && t[l].kind@ == "identifier"@ {
                let ident = node_text(t, l, ctx.b);
                let st1 = identifier_assignment(ctx, st, ident, right, has_type, has_ann, ann, ss, se);
                match right {
                    Some(r) => if 0 <= r < i && t[r].kind@ == "assignment"@ {
                        let st2 = chain_prompt(ctx, st1, ident, r, has_type, has_ann, ann, ss, se);
                        assignment(ctx, st2, r, Some(ann), Some((ss, se)))
                    } else {
                        st1
                    },
                    None => st1,
                }
            } else if 0 <= l < t.len() && (t[l].kind@ == "pattern_list"@ || t[l].kind@ == "tuple_pattern"@
                || t[l].kind@ == "list_pattern"@) {
                multi_assignment(ctx, st, l, right, has_ann, ann, ss, se)
            } else {
                st
            }
        },
    }
}

/// The walk of node `i`'s subtree: function and class definitions open a
/// scope around their children; assignments, alone or as the first child of
/// an expression statement, are processed and not walked into; other nodes
/// are walked through.
pub open spec fn traverse(ctx: PyCtx, st: PyState, i: int) -> PyState
    decreases i, ctx.t[i].children@.len() + 1,
{
    let t = ctx.t;
    if 0 <= i < t.len() {
        let kind = t[i].kind@;
        if kind == "function_definition"@ || kind == "class_definition"@ {
            traverse_children(ctx, st.enter(), i, 0).exit()
        } else if kind == "expression_statement"@ && t[i].children@.len() > 0 && 0 <= t[i].children@[0] < t.len()
            && t[t[i].children@[0] as int].kind@ == "assignment"@ {
            assignment(ctx, st, t[i].children@[0] as int, None, None)
        } else if kind == "assignment"@ {
            assignment(ctx, st, i, None, None)
        } else {
            traverse_children(ctx, st, i, 0)
        }
    } else {
        st
    }
}

/// The walk of the subtrees of node `i`'s children, from the `j`-th on.
pub open spec fn traverse_children(ctx: PyCtx, st: PyState, i: int, j: int) -> PyState
    decreases i, ctx.t[i].children@.len() - j,
{
    let t = ctx.t;
    if 0 <= i < t.len() && 0 <= j < t[i].children@.len() {
        let c = t[i].children@[j] as int;
        if 0 <= c < i {
            traverse_children(ctx, traverse(ctx, st, c), i, j + 1)
        } else {
            traverse_children(ctx, st, i, j + 1)
        }
    } else {
        st
    }
}

/// The context of a detection run.
pub open spec fn py_ctx(tree: &SyntaxTree, source: &str, filename: &str, comments: &CommentTracker) -> PyCtx {
    PyCtx { t: tree.nodes@, b: utf8(source@), file: filename@, cs: comments.comment_list() }
}

/// Check if a variable should be considered a prompt.
fn is_prompt_variable_exec(ident: &str, has_annotation: bool, scopes: &ScopeTracker) -> (r: bool)
    ensures
        r == is_prompt_variable(scopes.prompt_scopes(), ident@, has_annotation),
{
    let lower = to_lowercase(ident);
    let word: [u8; 6] = [112u8, 114u8, 111u8, 109u8, 112u8, 116u8];
    assert(word@ =~= prompt_word());
    if bytes_find(lower.as_str().as_bytes(), word.as_slice()).is_some() {
        return true;
    }
    if has_annotation {
        return true;
    }
    scopes.is_prompt_ident(ident)
}

/// Check if a node is a string-like value.
fn is_string_like(tree: &SyntaxTree, k: usize) -> (r: bool)
    requires
        k < tree.nodes@.len(),
    ensures
        r == string_like(tree.nodes@, k as int),
{
    tree.kind_is(k, "string") || tree.kind_is(k, "concatenated_string")
}

/// Build content tokens from span and variables.
/// For prompts without variables, returns a single str token.
/// For prompts with variables, returns interleaved str and var tokens.
pub fn build_content_tokens(span: &SpanShape, vars: &Vec<PromptVar>) -> (r: Vec<PromptContentToken>)
    ensures
        r@ == content_tokens(*span, crate::types::var_models(vars@)),
{
    let ghost vm = crate::types::var_models(vars@);
    if vars.len() == 0 {
        return vec![PromptContentToken::Str { span: span.inner }];
    }
    let mut tokens: Vec<PromptContentToken> = Vec::new();
    let mut pos = span.inner.start;
    let mut j: usize = 0;
    while j < vars.len()
        invariant
            vm == crate::types::var_models(vars@),
            j <= vars@.len(),
            vars@.len() > 0,
            tokens@ + tokens_from(vm, j as int, pos, span.inner.end) == tokens_from(vm, 0, span.inner.start, span.inner.end),
        decreases vars@.len() - j,
    {
        let ghost before = tokens@;
        let ghost pos0 = pos;
        let v = vars[j].span.outer;
        assert(vm[j as int].span.outer == v);
        if pos < v.start {
            tokens.push(PromptContentToken::Str { span: Span { start: pos, end: v.start } });
        }
        tokens.push(PromptContentToken::Var { span: v, index: j as u32 });
        pos = v.end;
        assert(tokens@ + tokens_from(vm, j + 1, pos, span.inner.end) =~= before + tokens_from(vm, j as int, pos0, span.inner.end));
        j = j + 1;
    }
    if pos < span.inner.end {
        tokens.push(PromptContentToken::Str { span: Span { start: pos, end: span.inner.end } });
    }
    assert(tokens@ =~= tokens_from(vm, 0, span.inner.start, span.inner.end));
    tokens
}

/// Whether the string node `k` is an f-string.
fn is_fstring(tree: &SyntaxTree, k: usize, source: &str) -> (r: bool)
    requires
        tree.wf(utf8(source@)),
        k < tree.nodes@.len(),
    ensures
        r == opens_fstring(utf8(source@), tree.nodes@[k as int].start as int, tree.nodes@[k as int].end as int),
{
    proof {
        assert(node_wf(tree.nodes@, k as int, utf8(source@)));
    }
    let b = source.as_bytes();
    let s = tree.nodes[k].start;
    let e = tree.nodes[k].end;
    (s < e && b[s] == 102u8) || (s < e && e - s > 1 && b[s] == 114u8 && b[s + 1] == 102u8)
}

/// Where the enclosure of a statement starting at `stmt_start` begins.
fn enclosure_start_exec(comments: &CommentTracker, stmt_start: u32, Ghost(ctx): Ghost<PyCtx>) -> (r: u32)
    requires
        ctx.cs == comments.comment_list(),
        ctx.b == comments.src_bytes(),
        stmt_start as int <= ctx.b.len() ==> vstd::utf8::is_char_boundary(ctx.b, stmt_start as int),
    ensures
        r == enclosure_start(ctx, stmt_start),
{
    match comments.get_leading_start(stmt_start) {
        Some(x) => x,
        None => stmt_start,
    }
}

/// Appends a prompt built from a span, its variables and annotations.
fn push_prompt(
    source: &str,
    span: SpanShape,
    vars: Vec<PromptVar>,
    annotations: &Vec<PromptAnnotation>,
    filename: &str,
    enclosure_start: u32,
    stmt_end: u32,
    prompts: &mut Vec<Prompt>,
)
    ensures
        prompt_models(final(prompts)@) == prompt_models(old(prompts)@).push(PromptModel {
            file: filename@,
            span,
            enclosure: Span { start: enclosure_start, end: stmt_end },
            exp: span_text(utf8(source@), span.outer.start, span.outer.end),
            vars: crate::types::var_models(vars@),
            annotations: annotation_models(annotations@),
            content: content_tokens(span, crate::types::var_models(vars@)),
            joint: empty_shape(),
        }),
{
    let content = build_content_tokens(&span, &vars);
    let p = Prompt {
        file: filename.to_owned(),
        span,
        enclosure: Span { start: enclosure_start, end: stmt_end },
        exp: span_string(source, span.outer.start, span.outer.end),
        vars,
        annotations: crate::types::duplicate_annotations(annotations),
        content,
        joint: SpanShape { outer: Span { start: 0, end: 0 }, inner: Span { start: 0, end: 0 } },
    };
    let ghost before = prompts@;
    prompts.push(p);
    assert(prompt_models(prompts@) =~= prompt_models(before).push(p@));
}

/// Create a prompt from a string node.
fn create_prompt_from_string(
    tree: &SyntaxTree,
    k: usize,
    source: &str,
    filename: &str,
    stmt_start: u32,
    stmt_end: u32,
    comments: &CommentTracker,
    annotations: &Vec<PromptAnnotation>,
    prompts: &mut Vec<Prompt>,
)
    requires
        tree.wf(utf8(source@)),
        comments.source_text() == source@,
        k < tree.nodes@.len(),
        stmt_start as int <= utf8(source@).len() ==> vstd::utf8::is_char_boundary(utf8(source@), stmt_start as int),
    ensures
        prompt_models(final(prompts)@) == prompt_models(old(prompts)@).push(prompt_from_string(
            py_ctx(tree, source, filename, comments),
            k as int,
            annotation_models(annotations@),
            stmt_start,
            stmt_end,
        )),
{
    let ghost ctx = py_ctx(tree, source, filename, comments);
    let span = span_shape_string_like(tree, k, source);
    let vars = if is_fstring(tree, k, source) {
        extract_fstring_vars(tree, k, source)
    } else {
        let v: Vec<PromptVar> = Vec::new();
        assert(crate::types::var_models(v@) =~= Seq::<VarModel>::empty());
        v
    };
    let es = enclosure_start_exec(comments, stmt_start, Ghost(ctx));
    push_prompt(source, span, vars, annotations, filename, es, stmt_end, prompts);
    assert(prompt_models(prompts@).last() == prompt_from_string(ctx, k as int, annotation_models(annotations@), stmt_start, stmt_end));
}

/// Create a prompt from a byte range (for multi-assignment).
fn create_prompt_from_range(
    start: usize,
    end: usize,
    source: &str,
    filename: &str,
    stmt_start: u32,
    stmt_end: u32,
    comments: &CommentTracker,
    annotations: &Vec<PromptAnnotation>,
    prompts: &mut Vec<Prompt>,
    Ghost(ctx): Ghost<PyCtx>,
)
    requires
        start <= end <= utf8(source@).len() < u32::MAX,
        comments.source_text() == source@,
        ctx.b == utf8(source@),
        ctx.cs == comments.comment_list(),
        ctx.file == filename@,
        stmt_start as int <= utf8(source@).len() ==> vstd::utf8::is_char_boundary(utf8(source@), stmt_start as int),
    ensures
        prompt_models(final(prompts)@) == prompt_models(old(prompts)@).push(prompt_from_range(
            ctx,
            start as int,
            end as int,
            annotation_models(annotations@),
            stmt_start,
            stmt_end,
        )),
{
    let bytes = source.as_bytes();
    let ghost b = bytes@;
    let mut i = start;
    while i < end && !(bytes[i] == 39 || bytes[i] == 34 || bytes[i] == 102 || bytes[i] == 114)
        invariant
            start <= i <= end,
            end <= b.len(),
            b == bytes@,
            first_quote_or_prefix(b, start as int, end as int) == first_quote_or_prefix(b, i as int, end as int),
        decreases end - i,
    {
        i = i + 1;
    }
    if i < end && (bytes[i] == 102 || bytes[i] == 114) {
        i = i + 1;
        if i < end && (bytes[i] == 102 || bytes[i] == 114) {
            i = i + 1;
        }
    }
    assert(i as int == after_prefix(b, start as int, end as int));
    while i < end && !(bytes[i] == 39 || bytes[i] == 34)
        invariant
            start <= i <= end,
            end <= b.len(),
            b == bytes@,
            first_quote(b, after_prefix(b, start as int, end as int), end as int) == first_quote(b, i as int, end as int),
        decreases end - i,
    {
        i = i + 1;
    }
    proof {
        lemma_first_quote_or_prefix_bounds(b, start as int, end as int);
    }
    let span = shape_with_quote(source, start, end, i);
    let es = enclosure_start_exec(comments, stmt_start, Ghost(ctx));
    let vars: Vec<PromptVar> = Vec::new();
    assert(crate::types::var_models(vars@) =~= Seq::<VarModel>::empty());
    push_prompt(source, span, vars, annotations, filename, es, stmt_end, prompts);
}

proof fn lemma_first_quote_or_prefix_bounds(b: Seq<u8>, i: int, end: int)
    requires
        i <= end,
    ensures
        i <= first_quote_or_prefix(b, i, end) <= end,
    decreases end - i,
{
    if i < end && !quote_or_prefix(b[i]) {
        lemma_first_quote_or_prefix_bounds(b, i + 1, end);
    }
}

/// The characters of each string.
pub open spec fn string_views(s: Seq<String>) -> Seq<Seq<char>> {
    s.map_values(|x: String| x@)
}

/// The ranges as integers.
pub open spec fn range_views(s: Seq<(usize, usize)>) -> Seq<(int, int)> {
    s.map_values(|x: (usize, usize)| (x.0 as int, x.1 as int))
}

/// Extract identifiers from a pattern (tuple/list).
pub(crate) fn extract_identifiers(tree: &SyntaxTree, i: usize, source: &str, identifiers: &mut Vec<String>)
    requires
        tree.wf(utf8(source@)),
        i < tree.nodes@.len(),
    ensures
        string_views(final(identifiers)@) == string_views(old(identifiers)@) + identifiers_in(tree.nodes@, i as int, utf8(source@)),
    decreases i,
{
    let ghost t = tree.nodes@;
    let ghost b = utf8(source@);
    if tree.kind_is(i, "identifier") {
        let name = tree.text_of(i, source);
        let ghost before = identifiers@;
        identifiers.push(name);
        assert(string_views(identifiers@) =~= string_views(before) + identifiers_in(t, i as int, b));
        return;
    }
    let ghost base = string_views(identifiers@);
    let n = tree.nodes[i].children.len();
    let mut j: usize = 0;
    while j < n
        invariant
            tree.wf(b),
            b == utf8(source@),
            t == tree.nodes@,
            i < t.len(),
            t[i as int].kind@ != "identifier"@,
            n == t[i as int].children@.len(),
            j <= n,
            string_views(identifiers@) + identifiers_in_children(t, i as int, j as int, b) == base + identifiers_in_children(t, i as int, 0, b),
        decreases n - j,
    {
        let c = tree.nodes[i].children[j];
        proof {
            assert(node_wf(t, i as int, b));
        }
        let ghost before = string_views(identifiers@);
        extract_identifiers(tree, c, source, identifiers);
        assert(string_views(identifiers@) + identifiers_in_children(t, i as int, j + 1, b) =~= before + identifiers_in_children(t, i as int, j as int, b));
        j = j + 1;
    }
    assert(string_views(identifiers@) =~= base + identifiers_in(t, i as int, b));
}

/// Extract the ranges of the string values of a tuple/list, in order.
fn extract_value_ranges(tree: &SyntaxTree, i: usize, ranges: &mut Vec<(usize, usize)>)
    requires
        i < tree.nodes@.len(),
        children_precede(tree.nodes@),
    ensures
        range_views(final(ranges)@) == range_views(old(ranges)@) + string_ranges_in(tree.nodes@, i as int),
    decreases i,
{
    let ghost t = tree.nodes@;
    if is_string_like(tree, i) {
        let ghost before = ranges@;
        ranges.push((tree.nodes[i].start, tree.nodes[i].end));
        assert(range_views(ranges@) =~= range_views(before) + string_ranges_in(t, i as int));
        return;
    }
    let ghost base = range_views(ranges@);
    let n = tree.nodes[i].children.len();
    let mut j: usize = 0;
    while j < n
        invariant
            t == tree.nodes@,
            i < t.len(),
            children_precede(t),
            !string_like(t, i as int),
            n == t[i as int].children@.len(),
            j <= n,
            range_views(ranges@) + string_ranges_in_children(t, i as int, j as int) == base + string_ranges_in_children(t, i as int, 0),
        decreases n - j,
    {
        let c = tree.nodes[i].children[j];
        assert(c < i);
        let ghost before = range_views(ranges@);
        extract_value_ranges(tree, c, ranges);
        assert(range_views(ranges@) + string_ranges_in_children(t, i as int, j + 1) =~= before + string_ranges_in_children(t, i as int, j as int));
        j = j + 1;
    }
    assert(range_views(ranges@) =~= base + string_ranges_in(t, i as int));
}

proof fn lemma_string_ranges_bounded(t: Seq<SyntaxNode>, i: int, b: Seq<u8>)
    requires
        forall|q: int| 0 <= q < t.len() ==> node_wf(t, q, b),
    ensures
        forall|k: int| 0 <= k < string_ranges_in(t, i).len() ==> valid_range(b, #[trigger] string_ranges_in(t, i)[k].0, string_ranges_in(t, i)[k].1),
    decreases i, t[i].children@.len() + 1,
{
    if 0 <= i < t.len() {
        assert(node_wf(t, i, b));
        if !string_like(t, i) {
            lemma_string_ranges_bounded_children(t, i, 0, b);
            assert(string_ranges_in(t, i) == string_ranges_in_children(t, i, 0));
        } else {
            assert(string_ranges_in(t, i) == seq![(t[i].start as int, t[i].end as int)]);
            assert(valid_range(b, t[i].start as int, t[i].end as int));
        }
    }
}

proof fn lemma_string_ranges_bounded_children(t: Seq<SyntaxNode>, i: int, j: int, b: Seq<u8>)
    requires
        forall|q: int| 0 <= q < t.len() ==> node_wf(t, q, b),
    ensures
        forall|k: int| 0 <= k < string_ranges_in_children(t, i, j).len() ==> valid_range(b, #[trigger] string_ranges_in_children(t, i, j)[k].0, string_ranges_in_children(t, i, j)[k].1),
    decreases i, t[i].children@.len() - j,
{
    if 0 <= i < t.len() && 0 <= j < t[i].children@.len() {
        let c = t[i].children@[j] as int;
        lemma_string_ranges_bounded_children(t, i, j + 1, b);
        if 0 <= c < i {
            lemma_string_ranges_bounded(t, c, b);
            let x = string_ranges_in(t, c);
            let y = string_ranges_in_children(t, i, j + 1);
            assert(string_ranges_in_children(t, i, j) == x + y);
            assert forall|k: int| 0 <= k < (x + y).len() implies valid_range(b, #[trigger] (x + y)[k].0, (x + y)[k].1) by {
                if k < x.len() {
                    assert((x + y)[k] == x[k]);
                } else {
                    assert((x + y)[k] == y[k - x.len()]);
                }
            }
        } else {
            assert(string_ranges_in_children(t, i, j) == string_ranges_in_children(t, i, j + 1));
        }
    }
}

/// Process multi-assignment (tuple unpacking).
fn process_multi_assignment(
    tree: &SyntaxTree,
    left: usize,
    right_node: Option<usize>,
    has_prompt_annotation: bool,
    annotations: &Vec<PromptAnnotation>,
    stmt_start: u32,
    stmt_end: u32,
    source: &str,
    filename: &str,
    comments: &CommentTracker,
    scopes: &mut ScopeTracker,
    prompts: &mut Vec<Prompt>,
)
    requires
        tree.wf(utf8(source@)),
        comments.source_text() == source@,
        old(scopes).wf(),
        left < tree.nodes@.len(),
        right_node matches Some(r) ==> r < tree.nodes@.len(),
        stmt_start as int <= utf8(source@).len() ==> vstd::utf8::is_char_boundary(utf8(source@), stmt_start as int),
    ensures
        final(scopes).wf(),
        py_state(*final(scopes), final(prompts)@) == multi_assignment(
            py_ctx(tree, source, filename, comments),
            py_state(*old(scopes), old(prompts)@),
            left as int,
            match right_node { Some(r) => Some(r as int), None => None },
            has_prompt_annotation,
            annotation_models(annotations@),
            stmt_start,
            stmt_end,
        ),
{
    let ghost ctx = py_ctx(tree, source, filename, comments);
    let ghost ann = annotation_models(annotations@);
    let right = match right_node {
        Some(n) => n,
        None => {
            return;
        },
    };
    let mut identifiers: Vec<String> = Vec::new();
    extract_identifiers(tree, left, source, &mut identifiers);
    let mut value_ranges: Vec<(usize, usize)> = Vec::new();
    proof {
        lemma_wf_children_precede(tree, utf8(source@));
    }
    extract_value_ranges(tree, right, &mut value_ranges);
    assert(string_views(identifiers@) =~= identifiers_in(ctx.t, left as int, ctx.b));
    assert(range_views(value_ranges@) =~= string_ranges_in(ctx.t, right as int));
    proof {
        lemma_string_ranges_bounded(ctx.t, right as int, ctx.b);
    }
    let ghost idents = string_views(identifiers@);
    let ghost ranges = range_views(value_ranges@);
    let ghost st0 = py_state(*scopes, prompts@);
    let mut i: usize = 0;
    while i < identifiers.len()
        invariant
            ctx == py_ctx(tree, source, filename, comments),
            tree.wf(utf8(source@)),
            comments.source_text() == source@,
            scopes.wf(),
            ann == annotation_models(annotations@),
            idents == string_views(identifiers@),
            ranges == range_views(value_ranges@),
            forall|k: int| 0 <= k < ranges.len() ==> valid_range(ctx.b, #[trigger] ranges[k].0, ranges[k].1),
            i <= identifiers@.len(),
            stmt_start as int <= utf8(source@).len() ==> vstd::utf8::is_char_boundary(utf8(source@), stmt_start as int),
            multi_pairs(ctx, py_state(*scopes, prompts@), idents, ranges, i as int, has_prompt_annotation, ann, stmt_start, stmt_end)
                == multi_pairs(ctx, st0, idents, ranges, 0, has_prompt_annotation, ann, stmt_start, stmt_end),
        decreases identifiers@.len() - i,
    {
        let ghost st = py_state(*scopes, prompts@);
        if i < value_ranges.len() {
            let ident = identifiers[i].as_str();
            assert(idents[i as int] == ident@);
            if is_prompt_variable_exec(ident, has_prompt_annotation, scopes) {
                scopes.mark_prompt_ident(ident);
                let (s, e) = value_ranges[i];
                assert(ranges[i as int] == (s as int, e as int));
                assert(valid_range(ctx.b, s as int, e as int));
                create_prompt_from_range(s, e, source, filename, stmt_start, stmt_end, comments, annotations, prompts, Ghost(ctx));
                assert(py_state(*scopes, prompts@) =~= st.mark(ident@).push(prompt_from_range(ctx, s as int, e as int, ann, stmt_start, stmt_end)));
            }
        }
        i = i + 1;
    }
}

/// The common precondition of the detector's steps.
pub open spec fn py_ready(tree: &SyntaxTree, source: &str, comments: &CommentTracker) -> bool {
    tree.wf(utf8(source@)) && comments.source_text() == source@
}

/// Process a simple identifier assignment.
fn process_identifier_assignment(
    tree: &SyntaxTree,
    ident_name: &str,
    right_node: Option<usize>,
    has_type_annotation: bool,
    has_prompt_annotation: bool,
    annotations: &Vec<PromptAnnotation>,
    stmt_start: u32,
    stmt_end: u32,
    source: &str,
    filename: &str,
    comments: &CommentTracker,
    scopes: &mut ScopeTracker,
    prompts: &mut Vec<Prompt>,
)
    requires
        py_ready(tree, source, comments),
        old(scopes).wf(),
        right_node matches Some(r) ==> r < tree.nodes@.len(),
        stmt_start as int <= utf8(source@).len() ==> vstd::utf8::is_char_boundary(utf8(source@), stmt_start as int),
    ensures
        final(scopes).wf(),
        py_state(*final(scopes), final(prompts)@) == identifier_assignment(
            py_ctx(tree, source, filename, comments),
            py_state(*old(scopes), old(prompts)@),
            ident_name@,
            match right_node { Some(r) => Some(r as int), None => None },
            has_type_annotation,
            has_prompt_annotation,
            annotation_models(annotations@),
            stmt_start,
            stmt_end,
        ),
{
    let ghost ctx = py_ctx(tree, source, filename, comments);
    let ghost ann = annotation_models(annotations@);
    let ghost st = py_state(*scopes, prompts@);
    let right = match right_node {
        None => {
            if has_type_annotation && has_prompt_annotation {
                scopes.store_def_annotation(ident_name, crate::types::duplicate_annotations(annotations));
                scopes.mark_annotated(ident_name);
                scopes.mark_prompt_ident(ident_name);
                assert(py_state(*scopes, prompts@) =~= st.store(ident_name@, ann).mark_annotated(ident_name@).mark(ident_name@));
            }
            return;
        },
        Some(n) => n,
    };
    if is_prompt_variable_exec(ident_name, has_prompt_annotation, scopes) {
        scopes.mark_prompt_ident(ident_name);
        let ghost st1 = st.mark(ident_name@);
        assert(py_state(*scopes, prompts@) =~= st1);
        if has_type_annotation && has_prompt_annotation {
            scopes.store_def_annotation(ident_name, crate::types::duplicate_annotations(annotations));
            scopes.mark_annotated(ident_name);
            assert(py_state(*scopes, prompts@) =~= st1.store(ident_name@, ann).mark_annotated(ident_name@));
        }
        let ghost st2 = py_state(*scopes, prompts@);
        if is_string_like(tree, right) {
            let final_annotations = if annotations.len() > 0 {
                crate::types::duplicate_annotations(annotations)
            } else {
                match scopes.get_def_annotation(ident_name) {
                    Some(a) => a,
                    None => {
                        let v: Vec<PromptAnnotation> = Vec::new();
                        assert(annotation_models(v@) =~= Seq::<AnnotationModel>::empty());
                        v
                    },
                }
            };
            assert(annotation_models(final_annotations@) == (if ann.len() > 0 { ann } else { st2.def_annotation(ident_name@) }));
            create_prompt_from_string(tree, right, source, filename, stmt_start, stmt_end, comments, &final_annotations, prompts);
            assert(py_state(*scopes, prompts@) =~= st2.push(prompt_from_string(ctx, right as int, annotation_models(final_annotations@), stmt_start, stmt_end)));
        }
    }
}

/// The value at the end of a chain of assignments starting at `cur`.
fn find_chain_value(tree: &SyntaxTree, cur: usize, Ghost(src): Ghost<Seq<u8>>) -> (r: Option<usize>)
    requires
        tree.wf(src),
        cur < tree.nodes@.len(),
    ensures
        r matches Some(v) ==> chain_value(tree.nodes@, cur as int) == Some(v as int) && v < tree.nodes@.len(),
        r is None ==> chain_value(tree.nodes@, cur as int) is None,
    decreases cur,
{
    proof {
        lemma_wf_children_precede(tree, src);
        assert(node_wf(tree.nodes@, cur as int, src));
    }
    match tree.child_by_field_name(cur, "right") {
        None => None,
        Some(r) => {
            if tree.kind_is(r, "assignment") {
                find_chain_value(tree, r, Ghost(src))
            } else {
                Some(r)
            }
        },
    }
}

/// Process an assignment node with inherited annotations (for chained assignments).
fn process_assignment_with_annotations(
    tree: &SyntaxTree,
    node: usize,
    source: &str,
    filename: &str,
    comments: &CommentTracker,
    scopes: &mut ScopeTracker,
    prompts: &mut Vec<Prompt>,
    inherited_annotations: Option<Vec<PromptAnnotation>>,
    parent_stmt_bounds: Option<(u32, u32)>,
)
    requires
        py_ready(tree, source, comments),
        old(scopes).wf(),
        node < tree.nodes@.len(),
        parent_stmt_bounds matches Some(bd) ==> (bd.0 as int <= utf8(source@).len() ==> vstd::utf8::is_char_boundary(utf8(source@), bd.0 as int)),
    ensures
        final(scopes).wf(),
        py_state(*final(scopes), final(prompts)@) == assignment(
            py_ctx(tree, source, filename, comments),
            py_state(*old(scopes), old(prompts)@),
            node as int,
            match inherited_annotations { Some(a) => Some(annotation_models(a@)), None => None },
            parent_stmt_bounds,
        ),
    decreases node,
{
    let ghost ctx = py_ctx(tree, source, filename, comments);
    let ghost t = tree.nodes@;
    let ghost b = utf8(source@);
    proof {
        lemma_wf_children_precede(tree, b);
        assert(node_wf(t, node as int, b));
    }
    let (stmt_start, stmt_end) = match parent_stmt_bounds {
        Some(bd) => bd,
        None => (tree.nodes[node].start as u32, tree.nodes[node].end as u32),
    };
    let all_annotations = match inherited_annotations {
        Some(inherited) => inherited,
        None => {
            let mut all = comments.collect_adjacent_leading(stmt_start);
            let mut inline = comments.collect_inline_prompt(stmt_start, stmt_end);
            let ghost a1 = annotation_models(all@);
            let ghost a2 = annotation_models(inline@);
            all.append(&mut inline);
            assert(annotation_models(all@) =~= a1 + a2);
            all
        },
    };
    let ghost ann = annotation_models(all_annotations@);
    let has_prompt_annotation = all_annotations.len() > 0;
    let left = match tree.child_by_field_name(node, "left") {
        Some(n) => n,
        None => {
            return;
        },
    };
    let right_node = tree.child_by_field_name(node, "right");
    let has_type_annotation = tree.child_by_field_name(node, "type").is_some();
    if tree.kind_is(left, "identifier") {
        let ident_name = tree.text_of(left, source);
        process_identifier_assignment(
            tree,
            ident_name.as_str(),
            right_node,
            has_type_annotation,
            has_prompt_annotation,
            &all_annotations,
            stmt_start,
            stmt_end,
            source,
            filename,
            comments,
            scopes,
            prompts,
        );
        match right_node {
            Some(right) => {
                if tree.kind_is(right, "assignment") {
                    let ghost st1 = py_state(*scopes, prompts@);
                    match find_chain_value(tree, right, Ghost(b)) {
                        Some(inner_right) => {
                            if is_prompt_variable_exec(ident_name.as_str(), has_prompt_annotation, scopes) && is_string_like(tree, inner_right) {
                                scopes.mark_prompt_ident(ident_name.as_str());
                                if has_type_annotation && has_prompt_annotation {
                                    scopes.store_def_annotation(ident_name.as_str(), crate::types::duplicate_annotations(&all_annotations));
                                    scopes.mark_annotated(ident_name.as_str());
                                }
                                let ghost st_mid = py_state(*scopes, prompts@);
                                create_prompt_from_string(tree, inner_right, source, filename, stmt_start, stmt_end, comments, &all_annotations, prompts);
                                assert(py_state(*scopes, prompts@) =~= st_mid.push(prompt_from_string(ctx, inner_right as int, ann, stmt_start, stmt_end)));
                            }
                        },
                        None => {},
                    }
                    assert(py_state(*scopes, prompts@) =~= chain_prompt(ctx, st1, ident_name@, right as int, has_type_annotation, has_prompt_annotation, ann, stmt_start, stmt_end));
                    let inherited = crate::types::duplicate_annotations(&all_annotations);
                    process_assignment_with_annotations(
                        tree,
                        right,
                        source,
                        filename,
                        comments,
                        scopes,
                        prompts,
                        Some(inherited),
                        Some((stmt_start, stmt_end)),
                    );
                }
            },
            None => {},
        }
    } else if tree.kind_is(left, "pattern_list") || tree.kind_is(left, "tuple_pattern") || tree.kind_is(left, "list_pattern") {
        process_multi_assignment(
            tree,
            left,
            right_node,
            has_prompt_annotation,
            &all_annotations,
            stmt_start,
            stmt_end,
            source,
            filename,
            comments,
            scopes,
            prompts,
        );
    }
}

/// Recursively traverse nodes to find assignments and manage scopes.
fn traverse_node(
    tree: &SyntaxTree,
    i: usize,
    source: &str,
    filename: &str,
    comments: &CommentTracker,
    scopes: &mut ScopeTracker,
    prompts: &mut Vec<Prompt>,
)
    requires
        py_ready(tree, source, comments),
        old(scopes).wf(),
        i < tree.nodes@.len(),
    ensures
        final(scopes).wf(),
        py_state(*final(scopes), final(prompts)@) == traverse(
            py_ctx(tree, source, filename, comments),
            py_state(*old(scopes), old(prompts)@),
            i as int,
        ),
    decreases i, 1nat,
{
    let ghost ctx = py_ctx(tree, source, filename, comments);
    let ghost t = tree.nodes@;
    proof {
        lemma_wf_children_precede(tree, utf8(source@));
    }
    if tree.kind_is(i, "function_definition") || tree.kind_is(i, "class_definition") {
        scopes.enter_scope();
        traverse_node_children(tree, i, source, filename, comments, scopes, prompts);
        scopes.exit_scope();
        return;
    }
    if tree.kind_is(i, "expression_statement") && tree.nodes[i].children.len() > 0 {
        let c = tree.nodes[i].children[0];
        if tree.kind_is(c, "assignment") {
            process_assignment_with_annotations(tree, c, source, filename, comments, scopes, prompts, None, None);
            return;
        }
    }
    if tree.kind_is(i, "assignment") {
        process_assignment_with_annotations(tree, i, source, filename, comments, scopes, prompts, None, None);
        return;
    }
    traverse_node_children(tree, i, source, filename, comments, scopes, prompts);
}

/// Traverses the children of node `i`, in order.
fn traverse_node_children(
    tree: &SyntaxTree,
    i: usize,
    source: &str,
    filename: &str,
    comments: &CommentTracker,
    scopes: &mut ScopeTracker,
    prompts: &mut Vec<Prompt>,
)
    requires
        py_ready(tree, source, comments),
        old(scopes).wf(),
        i < tree.nodes@.len(),
    ensures
        final(scopes).wf(),
        py_state(*final(scopes), final(prompts)@) == traverse_children(
            py_ctx(tree, source, filename, comments),
            py_state(*old(scopes), old(prompts)@),
            i as int,
            0,
        ),
    decreases i, 0nat,
{
    let ghost ctx = py_ctx(tree, source, filename, comments);
    let ghost t = tree.nodes@;
    let ghost st0 = py_state(*scopes, prompts@);
    proof {
        lemma_wf_children_precede(tree, utf8(source@));
    }
    let n = tree.nodes[i].children.len();
    let mut j: usize = 0;
    while j < n
        invariant
            ctx == py_ctx(tree, source, filename, comments),
            py_ready(tree, source, comments),
            children_precede(t),
            t == tree.nodes@,
            scopes.wf(),
            i < t.len(),
            n == t[i as int].children@.len(),
            j <= n,
            traverse_children(ctx, py_state(*scopes, prompts@), i as int, j as int) == traverse_children(ctx, st0, i as int, 0),
        decreases n - j,
    {
        let c = tree.nodes[i].children[j];
        assert(c < i);
        traverse_node(tree, c, source, filename, comments, scopes, prompts);
        j = j + 1;
    }
}

/// The first node of node `i`'s subtree, in pre-order, that is an error or
/// a missing node.
pub open spec fn first_error(t: Seq<SyntaxNode>, i: int) -> Option<int>
    decreases i, t[i].children@.len() + 1,
{
    if 0 <= i < t.len() {
        if t[i].error || t[i].missing {
            Some(i)
        } else {
            first_error_children(t, i, 0)
        }
    } else {
        None
    }
}

pub open spec fn first_error_children(t: Seq<SyntaxNode>, i: int, j: int) -> Option<int>
    decreases i, t[i].children@.len() - j,
{
    if 0 <= i < t.len() && 0 <= j < t[i].children@.len() {
        let c = t[i].children@[j] as int;
        if 0 <= c < i && first_error(t, c) is Some {
            first_error(t, c)
        } else {
            first_error_children(t, i, j + 1)
        }
    } else {
        None
    }
}

/// The message for a syntax error at 0-based `row` and `column`.
pub open spec fn syntax_error_message(row: nat, column: nat) -> Seq<char> {
    "Syntax error at line "@ + decimal(row + 1) + ", column "@ + decimal(column + 1)
}

/// The message that describes the errors of node `i`'s subtree.
pub open spec fn error_message(t: Seq<SyntaxNode>, i: int) -> Seq<char> {
    match first_error(t, i) {
        Some(k) => syntax_error_message(t[k].row as nat, t[k].column as nat),
        None => "Unknown syntax error"@,
    }
}

/// Find the first error node of node `i`'s subtree.
fn find_error_node(tree: &SyntaxTree, i: usize) -> (r: Option<usize>)
    requires
        i < tree.nodes@.len(),
        children_precede(tree.nodes@),
    ensures
        r matches Some(k) ==> first_error(tree.nodes@, i as int) == Some(k as int) && k < tree.nodes@.len(),
        r is None ==> first_error(tree.nodes@, i as int) is None,
    decreases i,
{
    let ghost t = tree.nodes@;
    if tree.nodes[i].error || tree.nodes[i].missing {
        return Some(i);
    }
    let n = tree.nodes[i].children.len();
    let mut j: usize = 0;
    while j < n
        invariant
            t == tree.nodes@,
            children_precede(t),
            i < t.len(),
            !(t[i as int].error || t[i as int].missing),
            n == t[i as int].children@.len(),
            j <= n,
            first_error(t, i as int) == first_error_children(t, i as int, j as int),
        decreases n - j,
    {
        let c = tree.nodes[i].children[j];
        assert(c < i);
        match find_error_node(tree, c) {
            Some(k) => {
                return Some(k);
            },
            None => {},
        }
        j = j + 1;
    }
    None
}

/// Format the syntax-error message of a tree whose root has an error.
fn format_tree_sitter_error(tree: &SyntaxTree, root: usize) -> (r: String)
    requires
        root < tree.nodes@.len(),
        children_precede(tree.nodes@),
    ensures
        r@ == error_message(tree.nodes@, root as int),
{
    match find_error_node(tree, root) {
        Some(k) => {
            let mut msg = String::from_str("Syntax error at line ");
            append_decimal(&mut msg, tree.nodes[k].row as u128 + 1);
            msg.append(", column ");
            append_decimal(&mut msg, tree.nodes[k].column as u128 + 1);
            msg
        },
        None => String::from_str("Unknown syntax error"),
    }
}

/// The initial state: the global scope and no prompts.
pub open spec fn initial_state() -> PyState {
    PyState {
        scopes: seq![Set::empty()],
        defs: seq![Map::empty()],
        annotated: Set::empty(),
        prompts: seq![],
    }
}

/// What the detector finds in a well-formed tree with the sorted comment
/// list `cs`: an error naming the first error node when the root has an
/// error, otherwise the prompts of a walk from the root.
pub open spec fn spec_detect(t: Seq<SyntaxNode>, root: int, b: Seq<u8>, file: Seq<char>, cs: Seq<CommentNode>) -> Result<Seq<PromptModel>, Seq<char>> {
    if t[root].has_error {
        Err(error_message(t, root))
    } else {
        Ok(traverse(PyCtx { t, b, file, cs }, initial_state(), root).prompts)
    }
}

/// The value of a parse result: the prompts, or the error message.
pub open spec fn result_view(r: ParseResult) -> Result<Seq<PromptModel>, Seq<char>> {
    match r {
        ParseResult::ParseResultSuccess { prompts } => Ok(prompt_models(prompts@)),
        ParseResult::ParseResultError { error } => Err(error@),
    }
}

/// Whether `cs` lists the comments of the tree sorted by start.
pub open spec fn sorted_comments_of(t: Seq<SyntaxNode>, root: int, b: Seq<u8>, cs: Seq<CommentNode>) -> bool {
    sorted_by_start(cs) && comment_models(cs).to_multiset() == subtree_comments(t, root, b, CommentKinds::Comment).to_multiset()
}

/// Detects the prompts of a parsed Python source.
pub fn detect_prompts(tree: &SyntaxTree, source: &str, filename: &str) -> (r: ParseResult)
    requires
        tree.wf(utf8(source@)),
    ensures
        exists|cs: Seq<CommentNode>| sorted_comments_of(tree.nodes@, tree.root as int, utf8(source@), cs)
            && result_view(r) == spec_detect(tree.nodes@, tree.root as int, utf8(source@), filename@, cs),
{
    let root = tree.root;
    proof {
        lemma_wf_children_precede(tree, utf8(source@));
    }
    let comments = CommentTracker::new(tree, source);
    let ghost cs = comments.comment_list();
    assert(sorted_comments_of(tree.nodes@, root as int, utf8(source@), cs));
    if tree.nodes[root].has_error {
        let error = format_tree_sitter_error(tree, root);
        let r = ParseResult::ParseResultError { error };
        assert(result_view(r) == spec_detect(tree.nodes@, root as int, utf8(source@), filename@, cs));
        return r;
    }
    let mut prompts: Vec<Prompt> = Vec::new();
    let mut scopes = ScopeTracker::new();
    assert(prompt_models(prompts@) =~= Seq::<PromptModel>::empty());
    assert(py_state(scopes, prompts@) == initial_state());
    traverse_node(tree, root, source, filename, &comments, &mut scopes, &mut prompts);
    let r = ParseResult::ParseResultSuccess { prompts };
    assert(result_view(r) == spec_detect(tree.nodes@, root as int, utf8(source@), filename@, cs));
    r
}

/// The Python prompt parser over tree-sitter.
pub struct ParserPy {}

impl ParserPy {
    /// Parses the source with the tree-sitter Python grammar and detects its
    /// prompts. When tree-sitter gives no tree, the result is the error
    /// "Failed to parse source"; otherwise it is what `detect_prompts`
    /// finds in that tree.
    pub fn parse(source: &str, filename: &str) -> (r: ParseResult)
        ensures
            parsed_models(Grammar::Python, source@) is None ==> (r matches ParseResult::ParseResultError { error } && error@
                == "Failed to parse source"@),
            parsed_models(Grammar::Python, source@) is Some ==> exists|t: SyntaxTree, cs: Seq<CommentNode>|
                node_models(t.nodes@) == parsed_models(Grammar::Python, source@).unwrap() && t.root + 1 == t.nodes@.len()
                    && t.wf(utf8(source@)) && sorted_comments_of(t.nodes@, t.root as int, utf8(source@), cs)
                    && result_view(r) == spec_detect(t.nodes@, t.root as int, utf8(source@), filename@, cs),
    {
        match parse_tree(Grammar::Python, source) {
            Some(tree) => detect_prompts(&tree, source, filename),
            None => ParseResult::ParseResultError { error: String::from_str("Failed to parse source") },
        }
    }
}

impl VolumenParser for ParserPy {
    fn parse(source: &str, filename: &str) -> (r: ParseResult)
        ensures
            parsed_models(Grammar::Python, source@) is None ==> (r matches ParseResult::ParseResultError { error } && error@
                == "Failed to parse source"@),
            parsed_models(Grammar::Python, source@) is Some ==> exists|t: SyntaxTree, cs: Seq<CommentNode>|
                node_models(t.nodes@) == parsed_models(Grammar::Python, source@).unwrap() && t.root + 1 == t.nodes@.len()
                    && t.wf(utf8(source@)) && sorted_comments_of(t.nodes@, t.root as int, utf8(source@), cs)
                    && result_view(r) == spec_detect(t.nodes@, t.root as int, utf8(source@), filename@, cs),
    {
        ParserPy::parse(source, filename)
    }
}

/// Whether `st2` keeps the scope depth of `st` and extends its prompts.
pub open spec fn keeps(st: PyState, st2: PyState) -> bool {
    &&& st2.scopes.len() == st.scopes.len()
    &&& st2.defs.len() == st.defs.len()
    &&& st2.prompts.len() >= st.prompts.len()
    &&& st2.prompts.subrange(0, st.prompts.len() as int) == st.prompts
}

proof fn lemma_keeps_trans(a: PyState, b: PyState, c: PyState)
    requires
        keeps(a, b),
        keeps(b, c),
    ensures
        keeps(a, c),
{
    assert(c.prompts.subrange(0, a.prompts.len() as int) =~= c.prompts.subrange(0, b.prompts.len() as int).subrange(0, a.prompts.len() as int));
}

proof fn lemma_keeps_refl(a: PyState)
    ensures
        keeps(a, a),
{
    assert(a.prompts.subrange(0, a.prompts.len() as int) =~= a.prompts);
}

proof fn lemma_step_keeps(st: PyState, k: Seq<char>, a: Seq<AnnotationModel>, p: PromptModel)
    requires
        st.scopes.len() >= 1,
        st.defs.len() >= 1,
    ensures
        keeps(st, st.mark(k)),
        keeps(st, st.store(k, a)),
        keeps(st, st.mark_annotated(k)),
        keeps(st, st.push(p)),
{
    assert(st.push(p).prompts.subrange(0, st.prompts.len() as int) =~= st.prompts);
    lemma_keeps_refl(st);
}

proof fn lemma_multi_pairs_keeps(
    ctx: PyCtx,
    st: PyState,
    idents: Seq<Seq<char>>,
    ranges: Seq<(int, int)>,
    j: int,
    has_ann: bool,
    ann: Seq<AnnotationModel>,
    ss: u32,
    se: u32,
)
    requires
        st.scopes.len() >= 1,
        st.defs.len() >= 1,
    ensures
        keeps(st, multi_pairs(ctx, st, idents, ranges, j, has_ann, ann, ss, se)),
    decreases idents.len() - j,
{
    if 0 <= j < idents.len() {
        let st1 = if j < ranges.len() && is_prompt_variable(st.scopes, idents[j], has_ann) {
            st.mark(idents[j]).push(prompt_from_range(ctx, ranges[j].0, ranges[j].1, ann, ss, se))
        } else {
            st
        };
        lemma_step_keeps(st, idents[j], ann, prompt_from_range(ctx, ranges[j].0, ranges[j].1, ann, ss, se));
        lemma_step_keeps(st.mark(idents[j]), idents[j], ann, prompt_from_range(ctx, ranges[j].0, ranges[j].1, ann, ss, se));
        lemma_keeps_trans(st, st.mark(idents[j]), st.mark(idents[j]).push(prompt_from_range(ctx, ranges[j].0, ranges[j].1, ann, ss, se)));
        lemma_keeps_refl(st);
        lemma_multi_pairs_keeps(ctx, st1, idents, ranges, j + 1, has_ann, ann, ss, se);
        lemma_keeps_trans(st, st1, multi_pairs(ctx, st1, idents, ranges, j + 1, has_ann, ann, ss, se));
    } else {
        lemma_keeps_refl(st);
    }
}

proof fn lemma_marked_stored_keeps(st: PyState, k: Seq<char>, a: Seq<AnnotationModel>, store: bool, p: PromptModel)
    requires
        st.scopes.len() >= 1,
        st.defs.len() >= 1,
    ensures
        keeps(st, if store { st.mark(k).store(k, a).mark_annotated(k) } else { st.mark(k) }),
        keeps(st, (if store { st.mark(k).store(k, a).mark_annotated(k) } else { st.mark(k) }).push(p)),
{
    let s1 = st.mark(k);
    lemma_step_keeps(st, k, a, p);
    lemma_step_keeps(s1, k, a, p);
    let s2 = s1.store(k, a);
    lemma_step_keeps(s2, k, a, p);
    let s3 = s2.mark_annotated(k);
    lemma_step_keeps(s3, k, a, p);
    lemma_keeps_trans(st, s1, s2);
    lemma_keeps_trans(st, s2, s3);
    lemma_keeps_trans(st, s3, s3.push(p));
    lemma_keeps_trans(st, s1, s1.push(p));
}

proof fn lemma_assignment_keeps(
    ctx: PyCtx,
    st: PyState,
    i: int,
    inherited: Option<Seq<AnnotationModel>>,
    bounds: Option<(u32, u32)>,
)
    requires
        st.scopes.len() >= 1,
        st.defs.len() >= 1,
    ensures
        keeps(st, assignment(ctx, st, i, inherited, bounds)),
    decreases i,
{
    let t = ctx.t;
    let (ss, se) = match bounds {
        Some(bd) => bd,
        None => (t[i].start as u32, t[i].end as u32),
    };
    let ann = match inherited {
        Some(a) => a,
        None => statement_annotations(ctx, ss, se),
    };
    let has_ann = ann.len() > 0;
    lemma_keeps_refl(st);
    match field_child(t, i, "left"@) {
        None => {},
        Some(l) => {
            let right = field_child(t, i, "right"@);
            let has_type = field_child(t, i, "type"@) is Some;
            if 0 <= l < t.len() && t[l].kind@ == "identifier"@ {
                let ident = node_text(t, l, ctx.b);
                let st1 = identifier_assignment(ctx, st, ident, right, has_type, has_ann, ann, ss, se);
                match right {
                    None => {
                        let s1 = st.store(ident, ann);
                        let s2 = s1.mark_annotated(ident);
                        lemma_step_keeps(st, ident, ann, ctx.file_prompt());
                        lemma_step_keeps(s1, ident, ann, ctx.file_prompt());
                        lemma_step_keeps(s2, ident, ann, ctx.file_prompt());
                        lemma_keeps_trans(st, s1, s2);
                        lemma_keeps_trans(st, s2, s2.mark(ident));
                    },
                    Some(r) => {
                        let fin = if ann.len() > 0 { ann } else {
                            (if has_type && has_ann { st.mark(ident).store(ident, ann).mark_annotated(ident) } else { st.mark(ident) }).def_annotation(ident)
                        };
                        lemma_marked_stored_keeps(st, ident, ann, has_type && has_ann, prompt_from_string(ctx, r, fin, ss, se));
                        if 0 <= r < i && t[r].kind@ == "assignment"@ {
                            let st2 = chain_prompt(ctx, st1, ident, r, has_type, has_ann, ann, ss, se);
                            assert(st1.scopes.len() >= 1 && st1.defs.len() >= 1);
                            match chain_value(t, r) {
                                Some(v) => {
                                    lemma_marked_stored_keeps(st1, ident, ann, has_type && has_ann, prompt_from_string(ctx, v, ann, ss, se));
                                },
                                None => {},
                            }
                            lemma_keeps_refl(st1);
                            lemma_keeps_trans(st, st1, st2);
                            lemma_assignment_keeps(ctx, st2, r, Some(ann), Some((ss, se)));
                            lemma_keeps_trans(st, st2, assignment(ctx, st2, r, Some(ann), Some((ss, se))));
                        }
                    },
                }
            } else if 0 <= l < t.len() && (t[l].kind@ == "pattern_list"@ || t[l].kind@ == "tuple_pattern"@
                || t[l].kind@ == "list_pattern"@) {
                match right {
                    Some(r) => {
                        lemma_multi_pairs_keeps(ctx, st, identifiers_in(t, l, ctx.b), string_ranges_in(t, r), 0, has_ann, ann, ss, se);
                    },
                    None => {},
                }
            }
        },
    }
}

impl PyCtx {
    /// Some prompt of this file, used only to instantiate lemmas.
    pub open spec fn file_prompt(self) -> PromptModel {
        make_prompt(self, empty_shape(), seq![], seq![], 0, 0)
    }
}

/// A walk keeps the depth of the scope stacks (every scope it enters it
/// leaves) and only ever appends prompts: those found before it are kept
/// unchanged, in order.
pub proof fn law_walk_keeps_scopes_and_prompts(ctx: PyCtx, st: PyState, i: int)
    requires
        st.scopes.len() >= 1,
        st.defs.len() >= 1,
    ensures
        keeps(st, traverse(ctx, st, i)),
    decreases i, ctx.t[i].children@.len() + 1,
{
    let t = ctx.t;
    lemma_keeps_refl(st);
    if 0 <= i < t.len() {
        let kind = t[i].kind@;
        if kind == "function_definition"@ || kind == "class_definition"@ {
            let e = st.enter();
            lemma_walk_children_keeps(ctx, e, i, 0);
            let c = traverse_children(ctx, e, i, 0);
            assert(c.exit().prompts == c.prompts);
            assert(c.exit().scopes.len() == st.scopes.len());
            assert(c.exit().defs.len() == st.defs.len());
            assert(c.prompts.subrange(0, st.prompts.len() as int) =~= st.prompts);
        } else if kind == "expression_statement"@ && t[i].children@.len() > 0 && 0 <= t[i].children@[0] < t.len()
            && t[t[i].children@[0] as int].kind@ == "assignment"@ {
            lemma_assignment_keeps(ctx, st, t[i].children@[0] as int, None, None);
        } else if kind == "assignment"@ {
            lemma_assignment_keeps(ctx, st, i, None, None);
        } else {
            lemma_walk_children_keeps(ctx, st, i, 0);
        }
    }
}

proof fn lemma_walk_children_keeps(ctx: PyCtx, st: PyState, i: int, j: int)
    requires
        st.scopes.len() >= 1,
        st.defs.len() >= 1,
    ensures
        keeps(st, traverse_children(ctx, st, i, j)),
    decreases i, ctx.t[i].children@.len() - j,
{
    let t = ctx.t;
    lemma_keeps_refl(st);
    if 0 <= i < t.len() && 0 <= j < t[i].children@.len() {
        let c = t[i].children@[j] as int;
        if 0 <= c < i {
            law_walk_keeps_scopes_and_prompts(ctx, st, c);
            let s1 = traverse(ctx, st, c);
            lemma_walk_children_keeps(ctx, s1, i, j + 1);
            lemma_keeps_trans(st, s1, traverse_children(ctx, s1, i, j + 1));
        } else {
            lemma_walk_children_keeps(ctx, st, i, j + 1);
        }
    }
}

} // verus!

verus! {

proof fn lemma_multi_pairs_has(
    ctx: PyCtx,
    st: PyState,
    idents: Seq<Seq<char>>,
    ranges: Seq<(int, int)>,
    j: int,
    q: int,
    has_ann: bool,
    ann: Seq<AnnotationModel>,
    ss: u32,
    se: u32,
)
    requires
        st.scopes.len() >= 1,
        st.defs.len() >= 1,
        0 <= j <= q < idents.len(),
        q < ranges.len(),
        is_prompt_variable(st.scopes, idents[q], has_ann),
    ensures
        exists|m: int|
            0 <= m < multi_pairs(ctx, st, idents, ranges, j, has_ann, ann, ss, se).prompts.len() && #[trigger] multi_pairs(
                ctx,
                st,
                idents,
                ranges,
                j,
                has_ann,
                ann,
                ss,
                se,
            ).prompts[m] == prompt_from_range(ctx, ranges[q].0, ranges[q].1, ann, ss, se),
    decreases q - j,
{
    let cond = j < ranges.len() && is_prompt_variable(st.scopes, idents[j], has_ann);
    let p = prompt_from_range(ctx, ranges[j].0, ranges[j].1, ann, ss, se);
    let st1 = if cond { st.mark(idents[j]).push(p) } else { st };
    assert(multi_pairs(ctx, st, idents, ranges, j, has_ann, ann, ss, se) == multi_pairs(ctx, st1, idents, ranges, j + 1, has_ann, ann, ss, se));
    if j == q {
        let n = st1.prompts.len() - 1;
        assert(st1.prompts[n] == p);
        lemma_multi_pairs_keeps(ctx, st1, idents, ranges, j + 1, has_ann, ann, ss, se);
        let r = multi_pairs(ctx, st1, idents, ranges, j + 1, has_ann, ann, ss, se);
        assert(r.prompts.subrange(0, st1.prompts.len() as int)[n] == r.prompts[n]);
    } else {
        if cond && crate::python::scope::in_any_scope(st.scopes, idents[q]) {
            let i = choose|i: int| 0 <= i < st.scopes.len() && (#[trigger] st.scopes[i]).contains(idents[q]);
            assert(st1.scopes[i].contains(idents[q]));
        }
        lemma_multi_pairs_has(ctx, st1, idents, ranges, j + 1, q, has_ann, ann, ss, se);
    }
}

/// In a multi-assignment, every identifier that is a prompt variable and is
/// paired with a string value gives a prompt over that value, whatever its
/// position among the pairs.
pub proof fn law_multi_assignment_pairs(
    ctx: PyCtx,
    st: PyState,
    idents: Seq<Seq<char>>,
    ranges: Seq<(int, int)>,
    has_ann: bool,
    ann: Seq<AnnotationModel>,
    ss: u32,
    se: u32,
    q: int,
)
    requires
        st.scopes.len() >= 1,
        st.defs.len() >= 1,
        0 <= q < idents.len(),
        q < ranges.len(),
        is_prompt_variable(st.scopes, idents[q], has_ann),
    ensures
        exists|m: int|
            0 <= m < multi_pairs(ctx, st, idents, ranges, 0, has_ann, ann, ss, se).prompts.len() && (#[trigger] multi_pairs(
                ctx,
                st,
                idents,
                ranges,
                0,
                has_ann,
                ann,
                ss,
                se,
            ).prompts[m]).span.outer == (Span { start: ranges[q].0 as u32, end: ranges[q].1 as u32 }),
{
    lemma_multi_pairs_has(ctx, st, idents, ranges, 0, q, has_ann, ann, ss, se);
}

} // verus!
