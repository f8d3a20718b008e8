//! The Python prompt detector over a module held as plain statements and
//! expressions (see `python::ast`).
//!
//! Each statement is visited in order, nested statements included. Its
//! annotations are the merged leading `@prompt` comment block and the
//! inline `@prompt` comments inside it. An assignment to a prompt variable
//! gives a prompt when the value is a string, an f-string or t-string, a `+`
//! concatenation, a `join` or `format` call on a string, or a list.
use crate::comments::{spec_adjacent_leading, spec_inline_prompt, CommentNode, CommentTracker};
use crate::concat::{
    build_concat_parts, has_other, has_text, operand_token, operand_vars, operands_acceptable, operands_ranged, operands_shape,
};
use crate::detect::{is_prompt_variable_exec, printf_tokens, push_some, ConcatSegment, ElementsAcc};
use crate::go::scope::ScopeTracker;
use crate::identsets::{list_contains, list_insert, string_set};
use crate::python::ast::{node_range, range_of, PyModule, PyNode};
use crate::python::parser::{build_content_tokens, content_tokens, is_prompt_variable};
use crate::python::spans::{py_string_shape, sat_sub, string_shape_of_range};
use crate::text::{span_text, first_char, range_string, range_text, text_eq, utf8, valid_range};
use crate::types::{
    annotation_models, duplicate_annotations, empty_shape, prompt_models, var_models, AnnotationModel, Prompt, PromptAnnotation,
    PromptContentToken, PromptModel, PromptVar, Span, SpanShape, VarModel, numbered,
};
use vstd::prelude::*;
use vstd::string::StrSliceExecFns;

verus! {

/// What the visitor reads: the module's nodes, the source bytes, the file
/// name and the sorted comments.
pub struct VisitCtx {
    pub m: Seq<PyNode>,
    pub b: Seq<u8>,
    pub file: Seq<char>,
    pub cs: Seq<CommentNode>,
}

/// What the visitor changes: the scope stack of prompt identifiers, the
/// definition-time annotations, the type-annotated identifiers and the
/// prompts found so far.
pub struct VisitState {
    pub scopes: Seq<Set<Seq<char>>>,
    pub defs: Map<Seq<char>, Seq<AnnotationModel>>,
    pub annotated: Set<Seq<char>>,
    pub prompts: Seq<PromptModel>,
}

impl VisitState {
    pub open spec fn enter(self) -> VisitState {
        VisitState { scopes: self.scopes.push(Set::empty()), ..self }
    }

    pub open spec fn exit(self) -> VisitState {
        VisitState {
            scopes: if self.scopes.len() > 1 {
                self.scopes.drop_last()
            } else {
                self.scopes
            },
            ..self
        }
    }

    pub open spec fn mark(self, k: Seq<char>) -> VisitState {
        VisitState { scopes: self.scopes.update(self.scopes.len() - 1, self.scopes.last().insert(k)), ..self }
    }

    pub open spec fn store(self, k: Seq<char>, a: Seq<AnnotationModel>) -> VisitState {
        VisitState { defs: self.defs.insert(k, a), ..self }
    }

    pub open spec fn annotate(self, k: Seq<char>) -> VisitState {
        VisitState { annotated: self.annotated.insert(k), ..self }
    }

    pub open spec fn push(self, p: PromptModel) -> VisitState {
        VisitState { prompts: self.prompts.push(p), ..self }
    }

    pub open spec fn push_some(self, p: Option<PromptModel>) -> VisitState {
        match p {
            Some(x) => self.push(x),
            None => self,
        }
    }
}

/// The state held by a scope tracker, a list of type-annotated identifiers
/// and a list of prompts.
pub open spec fn visit_state(s: ScopeTracker, annotated: Seq<String>, p: Seq<Prompt>) -> VisitState {
    VisitState { scopes: s.prompt_scopes(), defs: s.defs(), annotated: string_set(annotated), prompts: prompt_models(p) }
}

/// The context of a visit.
pub open spec fn visit_ctx(module: &PyModule, source: &str, filename: &str, comments: &CommentTracker) -> VisitCtx {
    VisitCtx { m: module.nodes@, b: utf8(source@), file: filename@, cs: comments.comment_list() }
}

/// Whether the module is well formed over the source and the comments are the source's.
pub open spec fn visit_ready(module: &PyModule, source: &str, comments: &CommentTracker) -> bool {
    module.wf(utf8(source@)) && comments.source_text() == source@
}

/// What a statement contributes to its prompts: its annotations, where its
/// leading annotation block starts, if it has one, and its range.
pub struct StmtInfo {
    pub ann: Seq<AnnotationModel>,
    pub lead: Option<u32>,
    pub range: Span,
}

/// The information of statement `i`: the merged leading `@prompt` block
/// and the inline `@prompt` comments inside it.
pub open spec fn stmt_info(ctx: VisitCtx, i: int) -> StmtInfo {
    let r = range_of(ctx.m[i]);
    let leading = spec_adjacent_leading(ctx.cs, ctx.b, r.start as int);
    StmtInfo {
        ann: leading + spec_inline_prompt(ctx.cs, r.start as int, r.end as int, ctx.cs.len() as int),
        lead: if leading.len() > 0 {
            Some(leading[0].span.start)
        } else {
            None
        },
        range: r,
    }
}

/// The annotations of a prompt of `ident` in a statement: the statement's,
/// or else those stored when a type-annotated `ident` was defined.
pub open spec fn resolved_annotations(st: VisitState, si: StmtInfo, ident: Seq<char>) -> Seq<AnnotationModel> {
    if si.ann.len() > 0 {
        si.ann
    } else if st.annotated.contains(ident) && st.defs.contains_key(ident) {
        st.defs[ident]
    } else {
        seq![]
    }
}

/// A prompt found in a statement: its enclosure runs from the statement's
/// leading annotation block, or else from the statement, to its end.
pub open spec fn visit_prompt(
    ctx: VisitCtx,
    si: StmtInfo,
    span: SpanShape,
    vars: Seq<VarModel>,
    ann: Seq<AnnotationModel>,
    content: Seq<PromptContentToken>,
    joint: SpanShape,
) -> PromptModel {
    PromptModel {
        file: ctx.file,
        span,
        enclosure: Span {
            start: match si.lead {
                Some(x) => x,
                None => si.range.start,
            },
            end: si.range.end,
        },
        exp: span_text(ctx.b, span.outer.start, span.outer.end),
        vars,
        annotations: ann,
        content: numbered(content),
        joint,
    }
}

/// The variables of interpolations over the ranges `v`: the text of each,
/// its inner range dropping the braces.
pub open spec fn interpolation_vars_of(b: Seq<u8>, v: Seq<Span>) -> Seq<VarModel> {
    v.map_values(
        |sp: Span|
            VarModel {
                exp: range_text(b, sp.start as int, sp.end as int),
                span: SpanShape { outer: sp, inner: Span { start: (sp.start + 1) as u32, end: sat_sub(sp.end as int, 1) } },
            },
    )
}

/// The prompt of a string of `ident` over `range` with variables `vars`,
/// when `ident` is a prompt variable: it is named so, a scope marked it,
/// or it has annotations.
pub open spec fn range_prompt(ctx: VisitCtx, st: VisitState, si: StmtInfo, ident: Seq<char>, range: Span, vars: Seq<VarModel>) -> Option<
    PromptModel,
> {
    let ann = resolved_annotations(st, si, ident);
    if !is_prompt_variable(st.scopes, ident, ann.len() > 0) {
        None
    } else {
        let span = py_string_shape(ctx.b, range.start as int, range.end as int);
        Some(visit_prompt(ctx, si, span, vars, ann, content_tokens(span, vars), empty_shape()))
    }
}

/// The segment of a single operand node `k`.
pub open spec fn py_classify(m: Seq<PyNode>, b: Seq<u8>, k: int) -> Seq<ConcatSegment> {
    let r = range_of(m[k]);
    match m[k] {
        PyNode::StringLiteral { .. } => seq![ConcatSegment::Text(py_string_shape(b, r.start as int, r.end as int))],
        PyNode::FString { .. } => seq![ConcatSegment::Text(py_string_shape(b, r.start as int, r.end as int))],
        PyNode::TString { .. } => seq![ConcatSegment::Text(py_string_shape(b, r.start as int, r.end as int))],
        PyNode::Name { .. } => seq![ConcatSegment::Variable(SpanShape { outer: r, inner: r })],
        PyNode::Call { .. } => seq![ConcatSegment::Variable(SpanShape { outer: r, inner: r })],
        PyNode::Attribute { .. } => seq![ConcatSegment::Variable(SpanShape { outer: r, inner: r })],
        PyNode::Primitive { .. } => seq![ConcatSegment::Primitive(SpanShape { outer: r, inner: r })],
        _ => seq![ConcatSegment::Other],
    }
}

/// The segments of the `+` concatenation rooted at node `k`.
pub open spec fn py_segments(m: Seq<PyNode>, b: Seq<u8>, k: int) -> Seq<ConcatSegment>
    decreases k,
{
    if !(0 <= k < m.len()) {
        seq![]
    } else {
        match m[k] {
            PyNode::BinOp { left, add, right, .. } => if add {
                (if left < k {
                    py_segments(m, b, left as int)
                } else {
                    seq![]
                }) + (if right < k {
                    py_segments(m, b, right as int)
                } else {
                    seq![]
                })
            } else {
                py_classify(m, b, k)
            },
            _ => py_classify(m, b, k),
        }
    }
}

/// The prompt of the `+` concatenation at node `k` assigned to `ident`:
/// `None` unless the operator is `+`, `ident` is a prompt variable, some
/// operand is a string and every operand is a string, a variable, a call,
/// an attribute or a number or boolean.
pub open spec fn concat_prompt(ctx: VisitCtx, st: VisitState, si: StmtInfo, ident: Seq<char>, k: int) -> Option<PromptModel> {
    match ctx.m[k] {
        PyNode::BinOp { range, add, .. } => {
            let ann = resolved_annotations(st, si, ident);
            let segs = py_segments(ctx.m, ctx.b, k);
            if !add || !is_prompt_variable(st.scopes, ident, ann.len() > 0) || !has_text(segs) || has_other(segs) {
                None
            } else {
                Some(
                    visit_prompt(
                        ctx,
                        si,
                        operands_shape(segs, range.start, range.end),
                        operand_vars(segs, ctx.b, range.start, range.end, 0),
                        ann,
                        segs.map_values(|g: ConcatSegment| operand_token(g)),
                        empty_shape(),
                    ),
                )
            }
        },
        _ => None,
    }
}

/// The first `c` at or after `i` lies between `i` and the end.
pub proof fn lemma_first_char_bounds(t: Seq<char>, c: char, i: int)
    requires
        0 <= i <= t.len(),
    ensures
        i <= first_char(t, c, i) <= t.len(),
    decreases t.len() - i,
{
    if i < t.len() && t[i] != c {
        lemma_first_char_bounds(t, c, i + 1);
    }
}

/// The placeholders `{...}` of a format string `c`, from the `i`-th
/// character on, as character ranges: `{{` and `}}` are escapes; a `{`
/// without a closing `}` ends the scan.
pub open spec fn format_placeholders(c: Seq<char>, i: int) -> Seq<(int, int)>
    decreases c.len() - i,
{
    if i < 0 || i >= c.len() {
        seq![]
    } else if c[i] == '{' {
        if i + 1 < c.len() && c[i + 1] == '{' {
            format_placeholders(c, i + 2)
        } else {
            proof {
                lemma_first_char_bounds(c, '}', i + 1);
            }
            let j = first_char(c, '}', i + 1);
            if j < c.len() {
                if j + 1 < c.len() && c[j + 1] == '}' {
                    format_placeholders(c, j + 2)
                } else {
                    seq![(i, j + 1)] + format_placeholders(c, j + 1)
                }
            } else {
                seq![]
            }
        }
    } else {
        format_placeholders(c, i + 1)
    }
}

/// Every placeholder found from the `i`-th character on lies within
/// `[i, c.len())`, and is not empty.
pub proof fn lemma_format_placeholders_bounds(c: Seq<char>, i: int)
    requires
        0 <= i,
    ensures
        forall|q: int| 0 <= q < format_placeholders(c, i).len() ==> i <= #[trigger] format_placeholders(c, i)[q].0 < format_placeholders(c, i)[q].1 <= c.len(),
    decreases c.len() - i,
{
    if i < c.len() {
        if c[i] == '{' {
            if i + 1 < c.len() && c[i + 1] == '{' {
                lemma_format_placeholders_bounds(c, i + 2);
                assert(format_placeholders(c, i) == format_placeholders(c, i + 2));
            } else {
                lemma_first_char_bounds(c, '}', i + 1);
                let j = first_char(c, '}', i + 1);
                if j < c.len() {
                    if j + 1 < c.len() && c[j + 1] == '}' {
                        lemma_format_placeholders_bounds(c, j + 2);
                        assert(format_placeholders(c, i) == format_placeholders(c, j + 2));
                    } else {
                        lemma_format_placeholders_bounds(c, j + 1);
                        let rest = format_placeholders(c, j + 1);
                        assert forall|q: int| 0 <= q < format_placeholders(c, i).len() implies i <= #[trigger] format_placeholders(c, i)[q].0
                            < format_placeholders(c, i)[q].1 <= c.len() by {
                            if q > 0 {
                                assert(format_placeholders(c, i)[q] == rest[q - 1]);
                            }
                        }
                    }
                }
            }
        } else {
            lemma_format_placeholders_bounds(c, i + 1);
            assert(format_placeholders(c, i) == format_placeholders(c, i + 1));
        }
    }
}

/// The variable of an argument or element node `a`: its text, over its
/// range on both sides.
pub open spec fn node_var(m: Seq<PyNode>, b: Seq<u8>, a: int) -> VarModel {
    let r = range_of(m[a]);
    VarModel { exp: range_text(b, r.start as int, r.end as int), span: SpanShape { outer: r, inner: r } }
}

/// The prompt of a `"...".format(args)` call at node `k` assigned to
/// `ident`: `None` unless the call is a `format` method call on a string
/// literal and `ident` is a prompt variable; the first arguments, up to the
/// number of placeholders, are the variables, and the string's text and
/// placeholders (character positions in its value, taken as byte offsets
/// after the opening quote) the content.
pub open spec fn format_prompt(ctx: VisitCtx, st: VisitState, si: StmtInfo, ident: Seq<char>, k: int) -> Option<PromptModel> {
    let m = ctx.m;
    match m[k] {
        PyNode::Call { range, func, args } => match m[func as int] {
            PyNode::Attribute { value, attr, .. } => match m[value as int] {
                PyNode::StringLiteral { range: fr, value: fv } => if attr@ != "format"@ || !is_prompt_variable(
                    st.scopes,
                    ident,
                    si.ann.len() > 0,
                ) {
                    None
                } else {
                    let ph = format_placeholders(fv@, 0);
                    let nv = if args@.len() < ph.len() {
                        args@.len() as int
                    } else {
                        ph.len() as int
                    };
                    let fis = fr.start + 1;
                    let fie = sat_sub(fr.end as int, 1);
                    Some(
                        visit_prompt(
                            ctx,
                            si,
                            SpanShape { outer: range, inner: Span { start: fis as u32, end: fie } },
                            Seq::new(nv as nat, |q: int| node_var(m, ctx.b, args@[q] as int)),
                            si.ann,
                            printf_tokens(ph, 0, 0, nv, fis, fie as int, utf8(fv@).len() as int),
                            empty_shape(),
                        ),
                    )
                },
                _ => None,
            },
            _ => None,
        },
        _ => None,
    }
}

/// The walk over the elements `elts` of a list, from the `j`-th on: a
/// string literal adds a text token over its inner range, any other element
/// a variable over its range; with `joint`, a joint token separates
/// elements.
pub open spec fn list_elements_from(m: Seq<PyNode>, b: Seq<u8>, elts: Seq<usize>, j: int, joint: bool, acc: ElementsAcc) -> ElementsAcc
    decreases elts.len() - j,
{
    if 0 <= j < elts.len() {
        let e = elts[j] as int;
        let r = range_of(m[e]);
        let acc2 = match m[e] {
            PyNode::StringLiteral { .. } => acc.emit(
                joint,
                PromptContentToken::Str { span: py_string_shape(b, r.start as int, r.end as int).inner },
            ),
            _ => {
                let a = acc.emit(joint, PromptContentToken::Var { span: r, index: 0 });
                ElementsAcc { vars: a.vars.push(node_var(m, b, e)), ..a }
            },
        };
        list_elements_from(m, b, elts, j + 1, joint, acc2)
    } else {
        acc
    }
}

/// The walk over all elements of a list, from an empty start.
pub open spec fn list_elements(m: Seq<PyNode>, b: Seq<u8>, elts: Seq<usize>, joint: bool) -> ElementsAcc {
    list_elements_from(m, b, elts, 0, joint, ElementsAcc { vars: seq![], content: seq![], first: true })
}

/// The prompt of a list display at node `k` assigned to `ident`, when
/// `ident` is a prompt variable: its inner range drops the brackets.
pub open spec fn array_prompt(ctx: VisitCtx, st: VisitState, si: StmtInfo, ident: Seq<char>, k: int) -> Option<PromptModel> {
    match ctx.m[k] {
        PyNode::List { range, elts } => if !is_prompt_variable(st.scopes, ident, si.ann.len() > 0) {
            None
        } else {
            let acc = list_elements(ctx.m, ctx.b, elts@, false);
            Some(
                visit_prompt(
                    ctx,
                    si,
                    SpanShape { outer: range, inner: Span { start: (range.start + 1) as u32, end: sat_sub(range.end as int, 1) } },
                    acc.vars,
                    si.ann,
                    acc.content,
                    empty_shape(),
                ),
            )
        },
        _ => None,
    }
}

/// The prompt of a `"sep".join([...])` call at node `k` assigned to
/// `ident`: `None` unless the call is a `join` method call on a string
/// literal whose first argument is a list display and `ident` is a prompt
/// variable; the separator's span is the joint, and joint tokens separate
/// the elements when that span is not empty.
pub open spec fn join_prompt(ctx: VisitCtx, st: VisitState, si: StmtInfo, ident: Seq<char>, k: int) -> Option<PromptModel> {
    let m = ctx.m;
    match m[k] {
        PyNode::Call { range, func, args } => match m[func as int] {
            PyNode::Attribute { value, attr, .. } => match m[value as int] {
                PyNode::StringLiteral { range: sr, .. } => if attr@ != "join"@ || args@.len() == 0 {
                    None
                } else {
                    match m[args@[0] as int] {
                        PyNode::List { range: lr, elts } => if !is_prompt_variable(st.scopes, ident, si.ann.len() > 0) {
                            None
                        } else {
                            let js = py_string_shape(ctx.b, sr.start as int, sr.end as int);
                            let acc = list_elements(ctx.m, ctx.b, elts@, js.outer.start != 0 || js.outer.end != 0);
                            Some(
                                visit_prompt(
                                    ctx,
                                    si,
                                    SpanShape { outer: range, inner: Span { start: (lr.start + 1) as u32, end: sat_sub(lr.end as int, 1) } },
                                    acc.vars,
                                    si.ann,
                                    acc.content,
                                    js,
                                ),
                            )
                        },
                        _ => None,
                    }
                },
                _ => None,
            },
            _ => None,
        },
        _ => None,
    }
}

/// A statement's information held as values.
pub struct StmtData {
    pub annotations: Vec<PromptAnnotation>,
    pub lead: Option<u32>,
    pub range: Span,
}

/// The information a `StmtData` holds.
pub open spec fn stmt_view(d: &StmtData) -> StmtInfo {
    StmtInfo { ann: annotation_models(d.annotations@), lead: d.lead, range: d.range }
}

/// The annotations of a prompt of `ident` in the statement `si`.
fn resolve_annotations(scopes: &ScopeTracker, annotated: &Vec<String>, si: &StmtData, ident: &str) -> (r: Vec<PromptAnnotation>)
    ensures
        annotation_models(r@) == resolved_annotations(visit_state(*scopes, annotated@, seq![]), stmt_view(si), ident@),
{
    if si.annotations.len() > 0 {
        return duplicate_annotations(&si.annotations);
    }
    if list_contains(annotated, ident) {
        match scopes.get_def_annotation(ident) {
            Some(a) => {
                return a;
            },
            None => {},
        }
    }
    let v: Vec<PromptAnnotation> = Vec::new();
    assert(annotation_models(v@) =~= Seq::<AnnotationModel>::empty());
    v
}

/// Where the enclosure of a prompt of statement `si` starts.
fn enclosure_start_of(si: &StmtData) -> (r: u32)
    ensures
        r == match si.lead {
            Some(x) => x,
            None => si.range.start,
        },
{
    match si.lead {
        Some(x) => x,
        None => si.range.start,
    }
}

/// The variables of the interpolations of an f-string or t-string.
fn parse_interpolation_vars(interpolations: &Vec<Span>, source: &str) -> (r: Vec<PromptVar>)
    requires
        forall|j: int| 0 <= j < interpolations@.len() ==> valid_range(utf8(source@), #[trigger] interpolations@[j].start as int, interpolations@[j].end as int),
        utf8(source@).len() < u32::MAX,
    ensures
        var_models(r@) == interpolation_vars_of(utf8(source@), interpolations@),
{
    let ghost b = utf8(source@);
    let mut vars: Vec<PromptVar> = Vec::new();
    let mut j: usize = 0;
    while j < interpolations.len()
        invariant
            b == utf8(source@),
            b.len() < u32::MAX,
            j <= interpolations@.len(),
            forall|q: int| 0 <= q < interpolations@.len() ==> valid_range(b, #[trigger] interpolations@[q].start as int, interpolations@[q].end as int),
            var_models(vars@) == interpolation_vars_of(b, interpolations@.subrange(0, j as int)),
        decreases interpolations@.len() - j,
    {
        let sp = interpolations[j];
        assert(valid_range(b, interpolations@[j as int].start as int, interpolations@[j as int].end as int));
        let exp = range_string(source, sp.start as usize, sp.end as usize);
        let v = PromptVar { exp, span: SpanShape { outer: sp, inner: Span { start: sp.start + 1, end: sp.end.saturating_sub(1) } } };
        assert(v@ == interpolation_vars_of(b, interpolations@.subrange(0, j + 1))[j as int]);
        let ghost before = var_models(vars@);
        vars.push(v);
        assert(var_models(vars@) =~= before.push(v@));
        assert(interpolations@.subrange(0, j + 1) =~= interpolations@.subrange(0, j as int).push(sp));
        assert(var_models(vars@) =~= interpolation_vars_of(b, interpolations@.subrange(0, j + 1)));
        j = j + 1;
    }
    assert(interpolations@.subrange(0, j as int) =~= interpolations@);
    vars
}

/// Process a string of `ident` over `range` with variables `vars`.
fn process_range(
    module: &PyModule,
    ident: &str,
    range: Span,
    vars: Vec<PromptVar>,
    source: &str,
    filename: &str,
    comments: &CommentTracker,
    scopes: &ScopeTracker,
    annotated: &Vec<String>,
    si: &StmtData,
) -> (r: Option<Prompt>)
    requires
        visit_ready(module, source, comments),
        valid_range(utf8(source@), range.start as int, range.end as int),
    ensures
        r matches Some(p) ==> range_prompt(visit_ctx(module, source, filename, comments), visit_state(*scopes, annotated@, seq![]), stmt_view(si), ident@, range, var_models(vars@)) == Some(p@),
        r is None ==> range_prompt(visit_ctx(module, source, filename, comments), visit_state(*scopes, annotated@, seq![]), stmt_view(si), ident@, range, var_models(vars@)) is None,
{
    let ann = resolve_annotations(scopes, annotated, si, ident);
    if !is_prompt_variable_exec(ident, ann.len() > 0, scopes) {
        return None;
    }
    let span = string_shape_of_range(source, range.start as usize, range.end as usize);
    let content = build_content_tokens(&span, &vars);
    let es = enclosure_start_of(si);
    let joint = SpanShape { outer: Span { start: 0, end: 0 }, inner: Span { start: 0, end: 0 } };
    Some(crate::detect::build_prompt(source, filename, span, vars, &ann, content, joint, es, si.range.end))
}

/// Classify a single node as a segment
fn classify_single_node(module: &PyModule, k: usize, source: &str) -> (r: Vec<ConcatSegment>)
    requires
        module.wf(utf8(source@)),
        k < module.nodes@.len(),
    ensures
        r@ == py_classify(module.nodes@, utf8(source@), k as int),
        operands_ranged(r@, utf8(source@)),
{
    let ghost b = utf8(source@);
    let node = &module.nodes[k];
    let r = node_range(node);
    assert(crate::python::ast::ranges_ok(module.nodes@[k as int], b));
    match node {
        PyNode::StringLiteral { .. } | PyNode::FString { .. } | PyNode::TString { .. } => {
            vec![ConcatSegment::Text(string_shape_of_range(source, r.start as usize, r.end as usize))]
        },
        PyNode::Name { .. } | PyNode::Call { .. } | PyNode::Attribute { .. } => {
            vec![ConcatSegment::Variable(SpanShape { outer: r, inner: r })]
        },
        PyNode::Primitive { .. } => vec![ConcatSegment::Primitive(SpanShape { outer: r, inner: r })],
        _ => vec![ConcatSegment::Other],
    }
}

/// Extract segments from a concatenation expression
fn extract_concat_segments(module: &PyModule, k: usize, source: &str) -> (r: Vec<ConcatSegment>)
    requires
        module.wf(utf8(source@)),
        k < module.nodes@.len(),
    ensures
        r@ == py_segments(module.nodes@, utf8(source@), k as int),
        operands_ranged(r@, utf8(source@)),
    decreases k,
{
    let ghost b = utf8(source@);
    assert(crate::python::ast::refs_precede(module.nodes@[k as int], k as int));
    match &module.nodes[k] {
        PyNode::BinOp { left, add, right, .. } => {
            if *add {
                let mut segments = extract_concat_segments(module, *left, source);
                let ghost l = segments@;
                let mut more = extract_concat_segments(module, *right, source);
                let ghost rr = more@;
                segments.append(&mut more);
                assert forall|q: int| 0 <= q < segments@.len() implies match #[trigger] segments@[q] {
                    ConcatSegment::Variable(sp) => valid_range(b, sp.inner.start as int, sp.inner.end as int),
                    ConcatSegment::Primitive(sp) => valid_range(b, sp.inner.start as int, sp.inner.end as int),
                    _ => true,
                } by {
                    if q < l.len() {
                        assert(segments@[q] == l[q]);
                    } else {
                        assert(segments@[q] == rr[q - l.len()]);
                    }
                }
                segments
            } else {
                classify_single_node(module, k, source)
            }
        },
        _ => classify_single_node(module, k, source),
    }
}

/// Process a binary operator for string concatenation
fn process_concatenation(
    module: &PyModule,
    ident: &str,
    k: usize,
    source: &str,
    filename: &str,
    comments: &CommentTracker,
    scopes: &ScopeTracker,
    annotated: &Vec<String>,
    si: &StmtData,
) -> (r: Option<Prompt>)
    requires
        visit_ready(module, source, comments),
        k < module.nodes@.len(),
    ensures
        r matches Some(p) ==> concat_prompt(visit_ctx(module, source, filename, comments), visit_state(*scopes, annotated@, seq![]), stmt_view(si), ident@, k as int) == Some(p@),
        r is None ==> concat_prompt(visit_ctx(module, source, filename, comments), visit_state(*scopes, annotated@, seq![]), stmt_view(si), ident@, k as int) is None,
{
    let range = match &module.nodes[k] {
        PyNode::BinOp { range, add, .. } => {
            if !*add {
                return None;
            }
            *range
        },
        _ => {
            return None;
        },
    };
    let ann = resolve_annotations(scopes, annotated, si, ident);
    if !is_prompt_variable_exec(ident, ann.len() > 0, scopes) {
        return None;
    }
    let segments = extract_concat_segments(module, k, source);
    if !operands_acceptable(&segments) {
        return None;
    }
    let (span, vars, content) = build_concat_parts(&segments, range, source);
    let es = enclosure_start_of(si);
    let joint = SpanShape { outer: Span { start: 0, end: 0 }, inner: Span { start: 0, end: 0 } };
    Some(crate::detect::build_prompt(source, filename, span, vars, &ann, content, joint, es, si.range.end))
}

/// Parse format string placeholders: {}, {0}, {1}, {name}, etc.
/// Returns the (start, end) character positions in the string.
pub fn parse_format_placeholders(format_str: &str) -> (r: Vec<(usize, usize)>)
    ensures
        r@.len() == format_placeholders(format_str@, 0).len(),
        forall|q: int| 0 <= q < r@.len() ==> (#[trigger] r@[q]).0 as int == format_placeholders(format_str@, 0)[q].0
            && r@[q].1 as int == format_placeholders(format_str@, 0)[q].1,
{
    let ghost c = format_str@;
    let n = format_str.unicode_len();
    let mut placeholders: Vec<(usize, usize)> = Vec::new();
    let mut i: usize = 0;
    while i < n
        invariant
            c == format_str@,
            n == c.len(),
            i <= n,
            placeholders@.len() + format_placeholders(c, i as int).len() == format_placeholders(c, 0).len(),
            forall|q: int| 0 <= q < placeholders@.len() ==> (#[trigger] placeholders@[q]).0 as int == format_placeholders(c, 0)[q].0
                && placeholders@[q].1 as int == format_placeholders(c, 0)[q].1,
            forall|q: int| 0 <= q < format_placeholders(c, i as int).len() ==> #[trigger] format_placeholders(c, i as int)[q]
                == format_placeholders(c, 0)[placeholders@.len() + q],
        decreases n - i,
    {
        let ghost i0 = i as int;
        let ghost np = placeholders@.len();
        if format_str.get_char(i) == '{' {
            if i + 1 < n && format_str.get_char(i + 1) == '{' {
                i = i + 2;
            } else {
                let mut j = i + 1;
                while j < n && format_str.get_char(j) != '}'
                    invariant
                        c == format_str@,
                        n == c.len(),
                        i + 1 <= j <= n,
                        first_char(c, '}', i + 1) == first_char(c, '}', j as int),
                    decreases n - j,
                {
                    j = j + 1;
                }
                if j < n {
                    if j + 1 < n && format_str.get_char(j + 1) == '}' {
                        i = j + 2;
                    } else {
                        proof {
                            assert(format_placeholders(c, i0) == seq![(i0, j + 1)] + format_placeholders(c, j + 1));
                            assert(format_placeholders(c, i0)[0] == format_placeholders(c, 0)[np as int]);
                            assert forall|q: int| 0 <= q < format_placeholders(c, j + 1).len() implies #[trigger] format_placeholders(c, j + 1)[q]
                                == format_placeholders(c, 0)[np + 1 + q] by {
                                assert(format_placeholders(c, j + 1)[q] == format_placeholders(c, i0)[q + 1]);
                            }
                        }
                        placeholders.push((i, j + 1));
                        i = j + 1;
                    }
                } else {
                    i = n;
                }
            }
        } else {
            i = i + 1;
        }
    }
    placeholders
}

/// Process format method call: "Hello {}".format(name)
fn process_format_call(
    module: &PyModule,
    ident: &str,
    k: usize,
    source: &str,
    filename: &str,
    comments: &CommentTracker,
    scopes: &ScopeTracker,
    annotated: &Vec<String>,
    si: &StmtData,
) -> (r: Option<Prompt>)
    requires
        visit_ready(module, source, comments),
        k < module.nodes@.len(),
    ensures
        r matches Some(p) ==> format_prompt(visit_ctx(module, source, filename, comments), visit_state(*scopes, annotated@, seq![]), stmt_view(si), ident@, k as int) == Some(p@),
        r is None ==> format_prompt(visit_ctx(module, source, filename, comments), visit_state(*scopes, annotated@, seq![]), stmt_view(si), ident@, k as int) is None,
{
    let ghost m = module.nodes@;
    let ghost b = utf8(source@);
    assert(crate::python::ast::refs_precede(m[k as int], k as int));
    let (range, func, args) = match &module.nodes[k] {
        PyNode::Call { range, func, args } => (*range, *func, args),
        _ => {
            return None;
        },
    };
    assert(crate::python::ast::refs_precede(m[func as int], func as int));
    let (value, attr) = match &module.nodes[func] {
        PyNode::Attribute { value, attr, .. } => (*value, attr),
        _ => {
            return None;
        },
    };
    let (fr, fv) = match &module.nodes[value] {
        PyNode::StringLiteral { range, value } => (*range, value),
        _ => {
            return None;
        },
    };
    if !text_eq(attr.as_str(), "format") || !is_prompt_variable_exec(ident, si.annotations.len() > 0, scopes) {
        return None;
    }
    assert(crate::python::ast::ranges_ok(m[value as int], b));
    let ghost fc = fv@;
    let placeholders = parse_format_placeholders(fv.as_str());
    let ghost ph = format_placeholders(fc, 0);
    proof {
        lemma_format_placeholders_bounds(fc, 0);
        crate::text::lemma_chars_le_bytes(fc);
    }
    let mut vars: Vec<PromptVar> = Vec::new();
    let mut q: usize = 0;
    while q < args.len() && q < placeholders.len()
        invariant
            module.wf(b),
            b == utf8(source@),
            m == module.nodes@,
            q <= args@.len(),
            q <= placeholders@.len(),
            k < m.len(),
            crate::python::ast::all_below(args@, k as int),
            var_models(vars@) == Seq::new(q as nat, |w: int| node_var(m, b, args@[w] as int)),
        decreases args@.len() - q,
    {
        let a = args[q];
        assert(crate::python::ast::ranges_ok(m[a as int], b));
        let sp = node_range(&module.nodes[a]);
        let exp = range_string(source, sp.start as usize, sp.end as usize);
        let ghost before = var_models(vars@);
        vars.push(PromptVar { exp, span: SpanShape { outer: sp, inner: sp } });
        assert(var_models(vars@) =~= before.push(node_var(m, b, a as int)));
        assert(var_models(vars@) =~= Seq::new((q + 1) as nat, |w: int| node_var(m, b, args@[w] as int)));
        q = q + 1;
    }
    let nv = vars.len();
    let fis = fr.start as usize + 1;
    let fie = fr.end.saturating_sub(1);
    let blen = fv.as_str().as_bytes().len();
    let mut content: Vec<PromptContentToken> = Vec::new();
    let mut pos: usize = 0;
    let mut j: usize = 0;
    while j < placeholders.len()
        invariant
            j <= ph.len(),
            placeholders@.len() == ph.len(),
            forall|w: int| 0 <= w < placeholders@.len() ==> (#[trigger] placeholders@[w]).0 as int == ph[w].0 && placeholders@[w].1 as int == ph[w].1,
            forall|w: int| 0 <= w < ph.len() ==> 0 <= #[trigger] ph[w].0 < ph[w].1 <= fc.len(),
            fc.len() <= blen,
            blen <= fr.end - fr.start,
            fis == fr.start + 1,
            fr.end <= b.len(),
            b.len() < u32::MAX,
            pos <= fc.len(),
            content@ + printf_tokens(ph, j as int, pos as int, nv as int, fis as int, fie as int, blen as int) == printf_tokens(
                ph,
                0,
                0,
                nv as int,
                fis as int,
                fie as int,
                blen as int,
            ),
        decreases ph.len() - j,
    {
        let (s, e) = placeholders[j];
        let ghost before = content@;
        let ghost pos0 = pos;
        if pos < s {
            content.push(PromptContentToken::Str { span: Span { start: (fis + pos) as u32, end: (fis + s) as u32 } });
        }
        if j < nv {
            content.push(PromptContentToken::Var { span: Span { start: (fis + s) as u32, end: (fis + e) as u32 }, index: 0 });
        }
        pos = e;
        assert(content@ + printf_tokens(ph, j + 1, pos as int, nv as int, fis as int, fie as int, blen as int) =~= before
            + printf_tokens(ph, j as int, pos0 as int, nv as int, fis as int, fie as int, blen as int));
        j = j + 1;
    }
    if pos < blen {
        content.push(PromptContentToken::Str { span: Span { start: (fis + pos) as u32, end: fie } });
    }
    assert(content@ =~= printf_tokens(ph, 0, 0, nv as int, fis as int, fie as int, blen as int));
    let es = enclosure_start_of(si);
    let joint = SpanShape { outer: Span { start: 0, end: 0 }, inner: Span { start: 0, end: 0 } };
    let span = SpanShape { outer: range, inner: Span { start: fis as u32, end: fie } };
    Some(crate::detect::build_prompt(source, filename, span, vars, &si.annotations, content, joint, es, si.range.end))
}

/// The variables and content tokens of the elements `elts` of a list.
fn collect_list_elements(module: &PyModule, elts: &Vec<usize>, source: &str, joint: bool) -> (r: (Vec<PromptVar>, Vec<PromptContentToken>))
    requires
        module.wf(utf8(source@)),
        forall|q: int| 0 <= q < elts@.len() ==> #[trigger] elts@[q] < module.nodes@.len(),
    ensures
        var_models(r.0@) == list_elements(module.nodes@, utf8(source@), elts@, joint).vars,
        r.1@ == list_elements(module.nodes@, utf8(source@), elts@, joint).content,
{
    let ghost m = module.nodes@;
    let ghost b = utf8(source@);
    let mut vars: Vec<PromptVar> = Vec::new();
    let mut content: Vec<PromptContentToken> = Vec::new();
    let mut first = true;
    assert(var_models(vars@) =~= Seq::<VarModel>::empty());
    let mut j: usize = 0;
    while j < elts.len()
        invariant
            module.wf(b),
            b == utf8(source@),
            m == module.nodes@,
            j <= elts@.len(),
            forall|q: int| 0 <= q < elts@.len() ==> #[trigger] elts@[q] < m.len(),
            list_elements_from(m, b, elts@, j as int, joint, ElementsAcc { vars: var_models(vars@), content: content@, first })
                == list_elements(m, b, elts@, joint),
        decreases elts@.len() - j,
    {
        let e = elts[j];
        assert(elts@[j as int] < m.len());
        assert(crate::python::ast::ranges_ok(m[e as int], b));
        let r = node_range(&module.nodes[e]);
        if !first && joint {
            content.push(PromptContentToken::Joint);
        }
        first = false;
        match &module.nodes[e] {
            PyNode::StringLiteral { .. } => {
                let span = string_shape_of_range(source, r.start as usize, r.end as usize);
                content.push(PromptContentToken::Str { span: span.inner });
            },
            _ => {
                let exp = range_string(source, r.start as usize, r.end as usize);
                let ghost before = var_models(vars@);
                vars.push(PromptVar { exp, span: SpanShape { outer: r, inner: r } });
                assert(var_models(vars@) =~= before.push(node_var(m, b, e as int)));
                content.push(PromptContentToken::Var { span: r, index: 0 });
            },
        }
        j = j + 1;
    }
    (vars, content)
}

/// Process an array/list assignment: ["Hello ", user, "!"]
fn process_array(
    module: &PyModule,
    ident: &str,
    k: usize,
    source: &str,
    filename: &str,
    comments: &CommentTracker,
    scopes: &ScopeTracker,
    annotated: &Vec<String>,
    si: &StmtData,
) -> (r: Option<Prompt>)
    requires
        visit_ready(module, source, comments),
        k < module.nodes@.len(),
    ensures
        r matches Some(p) ==> array_prompt(visit_ctx(module, source, filename, comments), visit_state(*scopes, annotated@, seq![]), stmt_view(si), ident@, k as int) == Some(p@),
        r is None ==> array_prompt(visit_ctx(module, source, filename, comments), visit_state(*scopes, annotated@, seq![]), stmt_view(si), ident@, k as int) is None,
{
    let ghost m = module.nodes@;
    let ghost b = utf8(source@);
    assert(crate::python::ast::refs_precede(m[k as int], k as int));
    assert(crate::python::ast::ranges_ok(m[k as int], b));
    let (range, elts) = match &module.nodes[k] {
        PyNode::List { range, elts } => (*range, elts),
        _ => {
            return None;
        },
    };
    if !is_prompt_variable_exec(ident, si.annotations.len() > 0, scopes) {
        return None;
    }
    let (vars, content) = collect_list_elements(module, elts, source, false);
    let es = enclosure_start_of(si);
    let joint = SpanShape { outer: Span { start: 0, end: 0 }, inner: Span { start: 0, end: 0 } };
    let span = SpanShape { outer: range, inner: Span { start: range.start + 1, end: range.end.saturating_sub(1) } };
    Some(crate::detect::build_prompt(source, filename, span, vars, &si.annotations, content, joint, es, si.range.end))
}

/// Process a join call: "\n".join(["Hello", user, "!"])
fn process_join_call(
    module: &PyModule,
    ident: &str,
    k: usize,
    source: &str,
    filename: &str,
    comments: &CommentTracker,
    scopes: &ScopeTracker,
    annotated: &Vec<String>,
    si: &StmtData,
) -> (r: Option<Prompt>)
    requires
        visit_ready(module, source, comments),
        k < module.nodes@.len(),
    ensures
        r matches Some(p) ==> join_prompt(visit_ctx(module, source, filename, comments), visit_state(*scopes, annotated@, seq![]), stmt_view(si), ident@, k as int) == Some(p@),
        r is None ==> join_prompt(visit_ctx(module, source, filename, comments), visit_state(*scopes, annotated@, seq![]), stmt_view(si), ident@, k as int) is None,
{
    let ghost m = module.nodes@;
    let ghost b = utf8(source@);
    assert(crate::python::ast::refs_precede(m[k as int], k as int));
    let (range, func, args) = match &module.nodes[k] {
        PyNode::Call { range, func, args } => (*range, *func, args),
        _ => {
            return None;
        },
    };
    assert(crate::python::ast::refs_precede(m[func as int], func as int));
    let (value, attr) = match &module.nodes[func] {
        PyNode::Attribute { value, attr, .. } => (*value, attr),
        _ => {
            return None;
        },
    };
    let sr = match &module.nodes[value] {
        PyNode::StringLiteral { range, .. } => *range,
        _ => {
            return None;
        },
    };
    if !text_eq(attr.as_str(), "join") || args.len() == 0 {
        return None;
    }
    let l = args[0];
    assert(args@[0] < k);
    assert(crate::python::ast::refs_precede(m[l as int], l as int));
    let (lr, elts) = match &module.nodes[l] {
        PyNode::List { range, elts } => (*range, elts),
        _ => {
            return None;
        },
    };
    if !is_prompt_variable_exec(ident, si.annotations.len() > 0, scopes) {
        return None;
    }
    assert(crate::python::ast::ranges_ok(m[value as int], b));
    assert(crate::python::ast::ranges_ok(m[l as int], b));
    let joint = string_shape_of_range(source, sr.start as usize, sr.end as usize);
    let (vars, content) = collect_list_elements(module, elts, source, joint.outer.start != 0 || joint.outer.end != 0);
    let es = enclosure_start_of(si);
    let span = SpanShape { outer: range, inner: Span { start: lr.start + 1, end: lr.end.saturating_sub(1) } };
    Some(crate::detect::build_prompt(source, filename, span, vars, &si.annotations, content, joint, es, si.range.end))
}

/// The assignment of the value node `val`, if any, to the name `ident`:
/// the name is marked in the innermost scope when the statement is
/// annotated; a string, f-string, t-string, `+` concatenation, `join` or
/// `format` call or list display gives a prompt when `ident` is a prompt
/// variable.
pub open spec fn assign_name(ctx: VisitCtx, st: VisitState, si: StmtInfo, is_prompt: bool, ident: Seq<char>, val: Option<int>) -> VisitState {
    let st1 = if is_prompt {
        st.mark(ident)
    } else {
        st
    };
    match val {
        None => st1,
        Some(v) => match ctx.m[v] {
            PyNode::FString { range, interpolations } => st1.push_some(
                range_prompt(ctx, st1, si, ident, range, interpolation_vars_of(ctx.b, interpolations@)),
            ),
            PyNode::StringLiteral { range, .. } => st1.push_some(range_prompt(ctx, st1, si, ident, range, seq![])),
            PyNode::TString { range, interpolations } => st1.push_some(
                range_prompt(ctx, st1, si, ident, range, interpolation_vars_of(ctx.b, interpolations@)),
            ),
            PyNode::BinOp { .. } => st1.push_some(concat_prompt(ctx, st1, si, ident, v)),
            PyNode::Call { .. } => match join_prompt(ctx, st1, si, ident, v) {
                Some(p) => st1.push(p),
                None => st1.push_some(format_prompt(ctx, st1, si, ident, v)),
            },
            PyNode::List { .. } => st1.push_some(array_prompt(ctx, st1, si, ident, v)),
            _ => st1,
        },
    }
}

/// The assignment of the values `vals`, if any, to the name nodes among
/// `idents`, from the `i`-th on, pairing them by position.
pub open spec fn assign_names(
    ctx: VisitCtx,
    st: VisitState,
    si: StmtInfo,
    is_prompt: bool,
    idents: Seq<usize>,
    vals: Option<Seq<usize>>,
    i: int,
) -> VisitState
    decreases idents.len() - i,
{
    if 0 <= i < idents.len() {
        let val = match vals {
            Some(vs) => if i < vs.len() {
                Some(vs[i] as int)
            } else {
                None
            },
            None => None,
        };
        let st1 = match ctx.m[idents[i] as int] {
            PyNode::Name { id, .. } => assign_name(ctx, st, si, is_prompt, id@, val),
            _ => st,
        };
        assign_names(ctx, st1, si, is_prompt, idents, vals, i + 1)
    } else {
        st
    }
}

/// The assignment of `val`, if any, to a tuple or list of targets
/// `idents`: a tuple or list value is paired with them element by element,
/// a missing value leaves each without one, and any other value does
/// nothing.
pub open spec fn assign_sequence(ctx: VisitCtx, st: VisitState, si: StmtInfo, is_prompt: bool, idents: Seq<usize>, val: Option<int>) -> VisitState {
    match val {
        None => assign_names(ctx, st, si, is_prompt, idents, None, 0),
        Some(v) => match ctx.m[v] {
            PyNode::Tuple { elts, .. } => assign_names(ctx, st, si, is_prompt, idents, Some(elts@), 0),
            PyNode::List { elts, .. } => assign_names(ctx, st, si, is_prompt, idents, Some(elts@), 0),
            _ => st,
        },
    }
}

/// The assignment of `val`, if any, to the target node `target`: a name,
/// or a tuple or list of them.
pub open spec fn assign_target(ctx: VisitCtx, st: VisitState, si: StmtInfo, is_prompt: bool, target: int, val: Option<int>) -> VisitState {
    match ctx.m[target] {
        PyNode::Name { id, .. } => assign_name(ctx, st, si, is_prompt, id@, val),
        PyNode::Tuple { elts, .. } => assign_sequence(ctx, st, si, is_prompt, elts@, val),
        PyNode::List { elts, .. } => assign_sequence(ctx, st, si, is_prompt, elts@, val),
        _ => st,
    }
}

/// The assignment of `value` to each of the targets, from the `j`-th on.
pub open spec fn assign_targets(ctx: VisitCtx, st: VisitState, si: StmtInfo, is_prompt: bool, targets: Seq<usize>, value: int, j: int) -> VisitState
    decreases targets.len() - j,
{
    if 0 <= j < targets.len() {
        assign_targets(ctx, assign_target(ctx, st, si, is_prompt, targets[j] as int, Some(value)), si, is_prompt, targets, value, j + 1)
    } else {
        st
    }
}

/// The statements nested in a node.
pub open spec fn body_of(n: PyNode) -> Seq<usize> {
    match n {
        PyNode::FunctionDef { body, .. } => body@,
        PyNode::ClassDef { body, .. } => body@,
        PyNode::OtherStmt { body, .. } => body@,
        _ => seq![],
    }
}

/// The visit of statement `i`: an assignment is processed with the
/// statement's annotations (an annotated assignment to a name records the
/// name as type-annotated, with the annotations when there are any); then
/// the nested statements are visited, in a new scope for a function or
/// class definition.
pub open spec fn visit_stmt(ctx: VisitCtx, st: VisitState, i: int) -> VisitState
    decreases i, body_of(ctx.m[i]).len() + 1,
{
    if !(0 <= i < ctx.m.len()) {
        st
    } else {
        let si = stmt_info(ctx, i);
        let is_prompt = si.ann.len() > 0;
        let st1 = match ctx.m[i] {
            PyNode::Assign { targets, value, .. } => assign_targets(ctx, st, si, is_prompt, targets@, value as int, 0),
            PyNode::AnnAssign { target, value, .. } => {
                let st0 = match ctx.m[target as int] {
                    PyNode::Name { id, .. } => if is_prompt {
                        st.annotate(id@).store(id@, si.ann)
                    } else {
                        st.annotate(id@)
                    },
                    _ => st,
                };
                assign_target(
                    ctx,
                    st0,
                    si,
                    is_prompt,
                    target as int,
                    match value {
                        Some(v) => Some(v as int),
                        None => None,
                    },
                )
            },
            _ => st,
        };
        match ctx.m[i] {
            PyNode::FunctionDef { .. } => visit_body(ctx, st1.enter(), i, 0).exit(),
            PyNode::ClassDef { .. } => visit_body(ctx, st1.enter(), i, 0).exit(),
            PyNode::OtherStmt { .. } => visit_body(ctx, st1, i, 0),
            _ => st1,
        }
    }
}

/// The visit of the statements nested in node `i`, from the `j`-th on.
pub open spec fn visit_body(ctx: VisitCtx, st: VisitState, i: int, j: int) -> VisitState
    decreases i, body_of(ctx.m[i]).len() - j,
{
    if 0 <= i < ctx.m.len() && 0 <= j < body_of(ctx.m[i]).len() {
        let c = body_of(ctx.m[i])[j] as int;
        if c < i {
            visit_body(ctx, visit_stmt(ctx, st, c), i, j + 1)
        } else {
            visit_body(ctx, st, i, j + 1)
        }
    } else {
        st
    }
}

/// The visit of the top-level statements `body`, from the `j`-th on.
pub open spec fn visit_top(ctx: VisitCtx, st: VisitState, body: Seq<usize>, j: int) -> VisitState
    decreases body.len() - j,
{
    if 0 <= j < body.len() {
        visit_top(ctx, visit_stmt(ctx, st, body[j] as int), body, j + 1)
    } else {
        st
    }
}

/// The state a visit starts from: one empty scope and nothing recorded.
pub open spec fn initial_visit_state() -> VisitState {
    VisitState { scopes: seq![Set::empty()], defs: Map::empty(), annotated: Set::empty(), prompts: seq![] }
}

/// The comments over the byte ranges `ranges`, with their text.
pub open spec fn comments_of_ranges(b: Seq<u8>, ranges: Seq<Span>) -> Seq<(u32, u32, Seq<char>)> {
    ranges.map_values(|sp: Span| (sp.start, sp.end, range_text(b, sp.start as int, sp.end as int)))
}

/// The information of statement `i`.
fn stmt_data(module: &PyModule, i: usize, comments: &CommentTracker, Ghost(ctx): Ghost<VisitCtx>) -> (r: StmtData)
    requires
        ctx.m == module.nodes@,
        ctx.cs == comments.comment_list(),
        ctx.b == comments.src_bytes(),
        module.wf(ctx.b),
        i < module.nodes@.len(),
    ensures
        stmt_view(&r) == stmt_info(ctx, i as int),
{
    assert(crate::python::ast::ranges_ok(module.nodes@[i as int], ctx.b));
    let range = node_range(&module.nodes[i]);
    let mut annotations = comments.collect_adjacent_leading(range.start);
    let lead = if annotations.len() > 0 {
        assert(annotation_models(annotations@)[0] == annotations@[0]@);
        Some(annotations[0].span.start)
    } else {
        None
    };
    let mut inline = comments.collect_inline_prompt(range.start, range.end);
    let ghost a = annotation_models(annotations@);
    let ghost c = annotation_models(inline@);
    annotations.append(&mut inline);
    assert(annotation_models(annotations@) =~= a + c);
    StmtData { annotations, lead, range }
}

/// Process an assignment of `val` to the name `ident`.
fn process_assign(
    module: &PyModule,
    is_prompt: bool,
    ident: &str,
    val: Option<usize>,
    source: &str,
    filename: &str,
    comments: &CommentTracker,
    scopes: &mut ScopeTracker,
    annotated: &Vec<String>,
    si: &StmtData,
    prompts: &mut Vec<Prompt>,
)
    requires
        visit_ready(module, source, comments),
        old(scopes).wf(),
        val matches Some(v) ==> v < module.nodes@.len(),
    ensures
        final(scopes).wf(),
        visit_state(*final(scopes), annotated@, final(prompts)@) == assign_name(
            visit_ctx(module, source, filename, comments),
            visit_state(*old(scopes), annotated@, old(prompts)@),
            stmt_view(si),
            is_prompt,
            ident@,
            match val { Some(v) => Some(v as int), None => None },
        ),
{
    let ghost b = utf8(source@);
    if is_prompt {
        scopes.mark_prompt_ident(ident);
    }
    let v = match val {
        Some(v) => v,
        None => {
            return;
        },
    };
    assert(crate::python::ast::ranges_ok(module.nodes@[v as int], b));
    match &module.nodes[v] {
        PyNode::FString { range, interpolations } => {
            let vars = parse_interpolation_vars(interpolations, source);
            let p = process_range(module, ident, *range, vars, source, filename, comments, scopes, annotated, si);
            push_some(prompts, p);
        },
        PyNode::StringLiteral { range, .. } => {
            let vars: Vec<PromptVar> = Vec::new();
            assert(var_models(vars@) =~= Seq::<VarModel>::empty());
            let p = process_range(module, ident, *range, vars, source, filename, comments, scopes, annotated, si);
            push_some(prompts, p);
        },
        PyNode::TString { range, interpolations } => {
            let vars = parse_interpolation_vars(interpolations, source);
            let p = process_range(module, ident, *range, vars, source, filename, comments, scopes, annotated, si);
            push_some(prompts, p);
        },
        PyNode::BinOp { .. } => {
            let p = process_concatenation(module, ident, v, source, filename, comments, scopes, annotated, si);
            push_some(prompts, p);
        },
        PyNode::Call { .. } => {
            match process_join_call(module, ident, v, source, filename, comments, scopes, annotated, si) {
                Some(p) => push_some(prompts, Some(p)),
                None => {
                    let p = process_format_call(module, ident, v, source, filename, comments, scopes, annotated, si);
                    push_some(prompts, p);
                },
            }
        },
        PyNode::List { .. } => {
            let p = process_array(module, ident, v, source, filename, comments, scopes, annotated, si);
            push_some(prompts, p);
        },
        _ => {},
    }
}

/// Process the assignment of `vals`, if any, to the name nodes among `idents`.
fn process_assigns(
    module: &PyModule,
    is_prompt: bool,
    idents: &Vec<usize>,
    vals: Option<&Vec<usize>>,
    source: &str,
    filename: &str,
    comments: &CommentTracker,
    scopes: &mut ScopeTracker,
    annotated: &Vec<String>,
    si: &StmtData,
    prompts: &mut Vec<Prompt>,
)
    requires
        visit_ready(module, source, comments),
        old(scopes).wf(),
        forall|q: int| 0 <= q < idents@.len() ==> #[trigger] idents@[q] < module.nodes@.len(),
        vals matches Some(vs) ==> forall|q: int| 0 <= q < vs@.len() ==> #[trigger] vs@[q] < module.nodes@.len(),
    ensures
        final(scopes).wf(),
        visit_state(*final(scopes), annotated@, final(prompts)@) == assign_names(
            visit_ctx(module, source, filename, comments),
            visit_state(*old(scopes), annotated@, old(prompts)@),
            stmt_view(si),
            is_prompt,
            idents@,
            match vals { Some(vs) => Some(vs@), None => None },
            0,
        ),
{
    let ghost ctx = visit_ctx(module, source, filename, comments);
    let ghost gv = match vals {
        Some(vs) => Some(vs@),
        None => None::<Seq<usize>>,
    };
    let ghost st0 = visit_state(*scopes, annotated@, prompts@);
    let mut i: usize = 0;
    while i < idents.len()
        invariant
            ctx == visit_ctx(module, source, filename, comments),
            visit_ready(module, source, comments),
            scopes.wf(),
            i <= idents@.len(),
            forall|q: int| 0 <= q < idents@.len() ==> #[trigger] idents@[q] < module.nodes@.len(),
            vals matches Some(vs) ==> forall|q: int| 0 <= q < vs@.len() ==> #[trigger] vs@[q] < module.nodes@.len(),
            gv == match vals { Some(vs) => Some(vs@), None => None },
            assign_names(ctx, visit_state(*scopes, annotated@, prompts@), stmt_view(si), is_prompt, idents@, gv, i as int)
                == assign_names(ctx, st0, stmt_view(si), is_prompt, idents@, gv, 0),
        decreases idents@.len() - i,
    {
        let k = idents[i];
        assert(idents@[i as int] < module.nodes@.len());
        let val = match vals {
            Some(vs) => if i < vs.len() {
                Some(vs[i])
            } else {
                None
            },
            None => None,
        };
        match &module.nodes[k] {
            PyNode::Name { id, .. } => {
                process_assign(module, is_prompt, id.as_str(), val, source, filename, comments, scopes, annotated, si, prompts);
            },
            _ => {},
        }
        i = i + 1;
    }
}

/// Process the assignment of `val`, if any, to the target node `target`.
fn process_assign_target(
    module: &PyModule,
    is_prompt: bool,
    target: usize,
    val: Option<usize>,
    source: &str,
    filename: &str,
    comments: &CommentTracker,
    scopes: &mut ScopeTracker,
    annotated: &Vec<String>,
    si: &StmtData,
    prompts: &mut Vec<Prompt>,
)
    requires
        visit_ready(module, source, comments),
        old(scopes).wf(),
        target < module.nodes@.len(),
        val matches Some(v) ==> v < module.nodes@.len(),
    ensures
        final(scopes).wf(),
        visit_state(*final(scopes), annotated@, final(prompts)@) == assign_target(
            visit_ctx(module, source, filename, comments),
            visit_state(*old(scopes), annotated@, old(prompts)@),
            stmt_view(si),
            is_prompt,
            target as int,
            match val { Some(v) => Some(v as int), None => None },
        ),
{
    let ghost m = module.nodes@;
    let ghost b = utf8(source@);
    assert(crate::python::ast::refs_precede(m[target as int], target as int));
    match &module.nodes[target] {
        PyNode::Name { id, .. } => {
            process_assign(module, is_prompt, id.as_str(), val, source, filename, comments, scopes, annotated, si, prompts);
        },
        PyNode::Tuple { elts, .. } | PyNode::List { elts, .. } => {
            match val {
                None => {
                    process_assigns(module, is_prompt, elts, None, source, filename, comments, scopes, annotated, si, prompts);
                },
                Some(v) => {
                    assert(crate::python::ast::refs_precede(m[v as int], v as int));
                    match &module.nodes[v] {
                        PyNode::Tuple { elts: vals, .. } | PyNode::List { elts: vals, .. } => {
                            process_assigns(module, is_prompt, elts, Some(vals), source, filename, comments, scopes, annotated, si, prompts);
                        },
                        _ => {},
                    }
                },
            }
        },
        _ => {},
    }
}

/// Visit statement `i` and the statements nested in it.
fn visit_stmt_exec(
    module: &PyModule,
    i: usize,
    source: &str,
    filename: &str,
    comments: &CommentTracker,
    scopes: &mut ScopeTracker,
    annotated: &mut Vec<String>,
    prompts: &mut Vec<Prompt>,
)
    requires
        visit_ready(module, source, comments),
        old(scopes).wf(),
        i < module.nodes@.len(),
    ensures
        final(scopes).wf(),
        visit_state(*final(scopes), final(annotated)@, final(prompts)@) == visit_stmt(
            visit_ctx(module, source, filename, comments),
            visit_state(*old(scopes), old(annotated)@, old(prompts)@),
            i as int,
        ),
    decreases i, 1nat,
{
    let ghost ctx = visit_ctx(module, source, filename, comments);
    let ghost m = module.nodes@;
    assert(crate::python::ast::refs_precede(m[i as int], i as int));
    let si = stmt_data(module, i, comments, Ghost(ctx));
    let is_prompt = si.annotations.len() > 0;
    match &module.nodes[i] {
        PyNode::Assign { targets, value, .. } => {
            let ghost st0 = visit_state(*scopes, annotated@, prompts@);
            let mut j: usize = 0;
            while j < targets.len()
                invariant
                    ctx == visit_ctx(module, source, filename, comments),
                    visit_ready(module, source, comments),
                    m == module.nodes@,
                    scopes.wf(),
                    j <= targets@.len(),
                    crate::python::ast::all_below(targets@, i as int),
                    *value < i,
                    i < m.len(),
                    assign_targets(ctx, visit_state(*scopes, annotated@, prompts@), stmt_view(&si), is_prompt, targets@, *value as int, j as int)
                        == assign_targets(ctx, st0, stmt_view(&si), is_prompt, targets@, *value as int, 0),
                decreases targets@.len() - j,
            {
                let t = targets[j];
                assert(targets@[j as int] < i);
                process_assign_target(module, is_prompt, t, Some(*value), source, filename, comments, scopes, annotated, &si, prompts);
                j = j + 1;
            }
        },
        PyNode::AnnAssign { target, value, .. } => {
            match &module.nodes[*target] {
                PyNode::Name { id, .. } => {
                    list_insert(annotated, id.as_str());
                    if is_prompt {
                        scopes.store_def_annotation(id.as_str(), duplicate_annotations(&si.annotations));
                    }
                },
                _ => {},
            }
            let val = match value {
                Some(v) => Some(*v),
                None => None,
            };
            process_assign_target(module, is_prompt, *target, val, source, filename, comments, scopes, annotated, &si, prompts);
        },
        _ => {},
    }
    match &module.nodes[i] {
        PyNode::FunctionDef { .. } | PyNode::ClassDef { .. } => {
            scopes.enter_scope();
            visit_body_exec(module, i, source, filename, comments, scopes, annotated, prompts);
            scopes.exit_scope();
        },
        PyNode::OtherStmt { .. } => {
            visit_body_exec(module, i, source, filename, comments, scopes, annotated, prompts);
        },
        _ => {},
    }
}

/// Visit the statements nested in node `i`, in order.
fn visit_body_exec(
    module: &PyModule,
    i: usize,
    source: &str,
    filename: &str,
    comments: &CommentTracker,
    scopes: &mut ScopeTracker,
    annotated: &mut Vec<String>,
    prompts: &mut Vec<Prompt>,
)
    requires
        visit_ready(module, source, comments),
        old(scopes).wf(),
        i < module.nodes@.len(),
    ensures
        final(scopes).wf(),
        visit_state(*final(scopes), final(annotated)@, final(prompts)@) == visit_body(
            visit_ctx(module, source, filename, comments),
            visit_state(*old(scopes), old(annotated)@, old(prompts)@),
            i as int,
            0,
        ),
    decreases i, 0nat,
{
    let ghost ctx = visit_ctx(module, source, filename, comments);
    let ghost m = module.nodes@;
    let ghost st0 = visit_state(*scopes, annotated@, prompts@);
    assert(crate::python::ast::refs_precede(m[i as int], i as int));
    let body = match &module.nodes[i] {
        PyNode::FunctionDef { body, .. } => body,
        PyNode::ClassDef { body, .. } => body,
        PyNode::OtherStmt { body, .. } => body,
        _ => {
            return;
        },
    };
    assert(body@ == body_of(m[i as int]));
    let mut j: usize = 0;
    while j < body.len()
        invariant
            ctx == visit_ctx(module, source, filename, comments),
            visit_ready(module, source, comments),
            m == module.nodes@,
            scopes.wf(),
            i < m.len(),
            body@ == body_of(m[i as int]),
            j <= body@.len(),
            crate::python::ast::all_below(body@, i as int),
            visit_body(ctx, visit_state(*scopes, annotated@, prompts@), i as int, j as int) == visit_body(ctx, st0, i as int, 0),
        decreases body@.len() - j,
    {
        let c = body[j];
        assert(body@[j as int] < i);
        visit_stmt_exec(module, c, source, filename, comments, scopes, annotated, prompts);
        j = j + 1;
    }
}

/// The prompts of a Python module whose comments lie over `comment_ranges`:
/// `None` when the module is not well formed over the source or the
/// comment ranges are not ordered ranges of whole characters; otherwise
/// the prompts of a visit of its top-level statements, in order.
pub fn visit_module(module: &PyModule, comment_ranges: &Vec<Span>, source: &str, filename: &str) -> (r: Option<Vec<Prompt>>)
    ensures
        r is Some <==> module.wf(utf8(source@))
            && (forall|i: int| 0 <= i < comment_ranges@.len() ==> valid_range(utf8(source@), #[trigger] comment_ranges@[i].start as int, comment_ranges@[i].end as int))
            && (forall|i: int, j: int| 0 <= i < j < comment_ranges@.len() ==> comment_ranges@[i].start <= comment_ranges@[j].start),
        r matches Some(ps) ==> exists|cs: Seq<CommentNode>| crate::comments::comment_models(cs) == comments_of_ranges(utf8(source@), comment_ranges@)
            && prompt_models(ps@) == visit_top(
                VisitCtx { m: module.nodes@, b: utf8(source@), file: filename@, cs },
                initial_visit_state(),
                module.body@,
                0,
            ).prompts,
{
    if !module.check(source) {
        return None;
    }
    let comments = match CommentTracker::from_ranges(source, comment_ranges) {
        Some(c) => c,
        None => {
            return None;
        },
    };
    let ghost ctx = visit_ctx(module, source, filename, &comments);
    let mut scopes = ScopeTracker::new();
    let mut annotated: Vec<String> = Vec::new();
    let mut prompts: Vec<Prompt> = Vec::new();
    assert(prompt_models(prompts@) =~= Seq::<PromptModel>::empty());
    assert(string_set(annotated@) =~= Set::<Seq<char>>::empty());
    let ghost st0 = visit_state(scopes, annotated@, prompts@);
    assert(st0 == initial_visit_state());
    let mut j: usize = 0;
    while j < module.body.len()
        invariant
            ctx == visit_ctx(module, source, filename, &comments),
            visit_ready(module, source, &comments),
            scopes.wf(),
            j <= module.body@.len(),
            crate::python::ast::all_below(module.body@, module.nodes@.len() as int),
            visit_top(ctx, visit_state(scopes, annotated@, prompts@), module.body@, j as int) == visit_top(ctx, st0, module.body@, 0),
        decreases module.body@.len() - j,
    {
        let c = module.body[j];
        assert(module.body@[j as int] < module.nodes@.len());
        visit_stmt_exec(module, c, source, filename, &comments, &mut scopes, &mut annotated, &mut prompts);
        j = j + 1;
    }
    Some(prompts)
}

/// Whether `st2` keeps the scope depth of `st` and extends its prompts:
/// those of `st` come first in `st2`, unchanged and in order.
pub open spec fn visit_keeps(st: VisitState, st2: VisitState) -> bool {
    &&& st2.scopes.len() == st.scopes.len()
    &&& st2.prompts.len() >= st.prompts.len()
    &&& st2.prompts.subrange(0, st.prompts.len() as int) == st.prompts
}

proof fn lemma_visit_keeps_refl(a: VisitState)
    ensures
        visit_keeps(a, a),
{
    assert(a.prompts.subrange(0, a.prompts.len() as int) =~= a.prompts);
}

proof fn lemma_visit_keeps_trans(a: VisitState, b: VisitState, c: VisitState)
    requires
        visit_keeps(a, b),
        visit_keeps(b, c),
    ensures
        visit_keeps(a, c),
{
    assert(c.prompts.subrange(0, a.prompts.len() as int) =~= c.prompts.subrange(0, b.prompts.len() as int).subrange(0, a.prompts.len() as int));
}

proof fn lemma_visit_step_keeps(st: VisitState, k: Seq<char>, a: Seq<AnnotationModel>, o: Option<PromptModel>)
    requires
        st.scopes.len() >= 1,
    ensures
        visit_keeps(st, st.mark(k)),
        visit_keeps(st, st.store(k, a)),
        visit_keeps(st, st.annotate(k)),
        visit_keeps(st, st.push_some(o)),
        o matches Some(p) ==> visit_keeps(st, st.push(p)),
{
    lemma_visit_keeps_refl(st);
    if let Some(x) = o {
        assert(st.push(x).prompts.subrange(0, st.prompts.len() as int) =~= st.prompts);
    }
}

proof fn lemma_assign_name_keeps(ctx: VisitCtx, st: VisitState, si: StmtInfo, is_prompt: bool, ident: Seq<char>, val: Option<int>)
    requires
        st.scopes.len() >= 1,
    ensures
        visit_keeps(st, assign_name(ctx, st, si, is_prompt, ident, val)),
{
    let st1 = if is_prompt {
        st.mark(ident)
    } else {
        st
    };
    lemma_visit_step_keeps(st, ident, seq![], None);
    lemma_visit_keeps_refl(st);
    match val {
        None => {},
        Some(v) => {
            let o = match ctx.m[v] {
                PyNode::FString { range, interpolations } => range_prompt(ctx, st1, si, ident, range, interpolation_vars_of(ctx.b, interpolations@)),
                PyNode::StringLiteral { range, .. } => range_prompt(ctx, st1, si, ident, range, seq![]),
                PyNode::TString { range, interpolations } => range_prompt(ctx, st1, si, ident, range, interpolation_vars_of(ctx.b, interpolations@)),
                PyNode::BinOp { .. } => concat_prompt(ctx, st1, si, ident, v),
                PyNode::Call { .. } => match join_prompt(ctx, st1, si, ident, v) {
                    Some(p) => Some(p),
                    None => format_prompt(ctx, st1, si, ident, v),
                },
                PyNode::List { .. } => array_prompt(ctx, st1, si, ident, v),
                _ => None,
            };
            lemma_visit_step_keeps(st1, ident, seq![], o);
            lemma_visit_keeps_trans(st, st1, st1.push_some(o));
            assert(assign_name(ctx, st, si, is_prompt, ident, val) == st1.push_some(o));
        },
    }
}

proof fn lemma_assign_names_keeps(
    ctx: VisitCtx,
    st: VisitState,
    si: StmtInfo,
    is_prompt: bool,
    idents: Seq<usize>,
    vals: Option<Seq<usize>>,
    i: int,
)
    requires
        st.scopes.len() >= 1,
    ensures
        visit_keeps(st, assign_names(ctx, st, si, is_prompt, idents, vals, i)),
    decreases idents.len() - i,
{
    lemma_visit_keeps_refl(st);
    if 0 <= i < idents.len() {
        let val = match vals {
            Some(vs) => if i < vs.len() {
                Some(vs[i] as int)
            } else {
                None
            },
            None => None,
        };
        let st1 = match ctx.m[idents[i] as int] {
            PyNode::Name { id, .. } => assign_name(ctx, st, si, is_prompt, id@, val),
            _ => st,
        };
        match ctx.m[idents[i] as int] {
            PyNode::Name { id, .. } => {
                lemma_assign_name_keeps(ctx, st, si, is_prompt, id@, val);
            },
            _ => {},
        }
        lemma_assign_names_keeps(ctx, st1, si, is_prompt, idents, vals, i + 1);
        lemma_visit_keeps_trans(st, st1, assign_names(ctx, st1, si, is_prompt, idents, vals, i + 1));
    }
}

proof fn lemma_assign_target_keeps(ctx: VisitCtx, st: VisitState, si: StmtInfo, is_prompt: bool, target: int, val: Option<int>)
    requires
        st.scopes.len() >= 1,
    ensures
        visit_keeps(st, assign_target(ctx, st, si, is_prompt, target, val)),
{
    lemma_visit_keeps_refl(st);
    match ctx.m[target] {
        PyNode::Name { id, .. } => {
            lemma_assign_name_keeps(ctx, st, si, is_prompt, id@, val);
        },
        PyNode::Tuple { elts, .. } => {
            lemma_assign_sequence_keeps(ctx, st, si, is_prompt, elts@, val);
        },
        PyNode::List { elts, .. } => {
            lemma_assign_sequence_keeps(ctx, st, si, is_prompt, elts@, val);
        },
        _ => {},
    }
}

proof fn lemma_assign_sequence_keeps(ctx: VisitCtx, st: VisitState, si: StmtInfo, is_prompt: bool, idents: Seq<usize>, val: Option<int>)
    requires
        st.scopes.len() >= 1,
    ensures
        visit_keeps(st, assign_sequence(ctx, st, si, is_prompt, idents, val)),
{
    lemma_visit_keeps_refl(st);
    match val {
        None => {
            lemma_assign_names_keeps(ctx, st, si, is_prompt, idents, None, 0);
        },
        Some(v) => match ctx.m[v] {
            PyNode::Tuple { elts, .. } => {
                lemma_assign_names_keeps(ctx, st, si, is_prompt, idents, Some(elts@), 0);
            },
            PyNode::List { elts, .. } => {
                lemma_assign_names_keeps(ctx, st, si, is_prompt, idents, Some(elts@), 0);
            },
            _ => {},
        },
    }
}

proof fn lemma_assign_targets_keeps(ctx: VisitCtx, st: VisitState, si: StmtInfo, is_prompt: bool, targets: Seq<usize>, value: int, j: int)
    requires
        st.scopes.len() >= 1,
    ensures
        visit_keeps(st, assign_targets(ctx, st, si, is_prompt, targets, value, j)),
    decreases targets.len() - j,
{
    lemma_visit_keeps_refl(st);
    if 0 <= j < targets.len() {
        let st1 = assign_target(ctx, st, si, is_prompt, targets[j] as int, Some(value));
        lemma_assign_target_keeps(ctx, st, si, is_prompt, targets[j] as int, Some(value));
        lemma_assign_targets_keeps(ctx, st1, si, is_prompt, targets, value, j + 1);
        lemma_visit_keeps_trans(st, st1, assign_targets(ctx, st1, si, is_prompt, targets, value, j + 1));
    }
}

/// A visit of a statement keeps the depth of the scope stack (every scope
/// it enters it leaves) and only ever appends prompts: those found before
/// it are kept unchanged, in order.
pub proof fn law_visit_keeps_scopes_and_prompts(ctx: VisitCtx, st: VisitState, i: int)
    requires
        st.scopes.len() >= 1,
    ensures
        visit_keeps(st, visit_stmt(ctx, st, i)),
    decreases i, body_of(ctx.m[i]).len() + 1,
{
    lemma_visit_keeps_refl(st);
    if 0 <= i < ctx.m.len() {
        let si = stmt_info(ctx, i);
        let is_prompt = si.ann.len() > 0;
        let st1 = match ctx.m[i] {
            PyNode::Assign { targets, value, .. } => assign_targets(ctx, st, si, is_prompt, targets@, value as int, 0),
            PyNode::AnnAssign { target, value, .. } => {
                let st0 = match ctx.m[target as int] {
                    PyNode::Name { id, .. } => if is_prompt {
                        st.annotate(id@).store(id@, si.ann)
                    } else {
                        st.annotate(id@)
                    },
                    _ => st,
                };
                assign_target(
                    ctx,
                    st0,
                    si,
                    is_prompt,
                    target as int,
                    match value {
                        Some(v) => Some(v as int),
                        None => None,
                    },
                )
            },
            _ => st,
        };
        match ctx.m[i] {
            PyNode::Assign { targets, value, .. } => {
                lemma_assign_targets_keeps(ctx, st, si, is_prompt, targets@, value as int, 0);
            },
            PyNode::AnnAssign { target, value, .. } => {
                let vv = match value {
                    Some(v) => Some(v as int),
                    None => None,
                };
                match ctx.m[target as int] {
                    PyNode::Name { id, .. } => {
                        let a = st.annotate(id@);
                        lemma_visit_step_keeps(st, id@, si.ann, None);
                        lemma_visit_step_keeps(a, id@, si.ann, None);
                        lemma_visit_keeps_trans(st, a, a.store(id@, si.ann));
                        let st0 = if is_prompt {
                            a.store(id@, si.ann)
                        } else {
                            a
                        };
                        lemma_assign_target_keeps(ctx, st0, si, is_prompt, target as int, vv);
                        lemma_visit_keeps_trans(st, st0, st1);
                    },
                    _ => {
                        lemma_assign_target_keeps(ctx, st, si, is_prompt, target as int, vv);
                    },
                }
            },
            _ => {},
        }
        match ctx.m[i] {
            PyNode::FunctionDef { .. } | PyNode::ClassDef { .. } => {
                lemma_visit_body_keeps(ctx, st1.enter(), i, 0);
                let c = visit_body(ctx, st1.enter(), i, 0);
                assert(c.exit().prompts == c.prompts);
                lemma_visit_keeps_trans(st, st1, c.exit());
            },
            PyNode::OtherStmt { .. } => {
                lemma_visit_body_keeps(ctx, st1, i, 0);
                lemma_visit_keeps_trans(st, st1, visit_body(ctx, st1, i, 0));
            },
            _ => {},
        }
    }
}

proof fn lemma_visit_body_keeps(ctx: VisitCtx, st: VisitState, i: int, j: int)
    requires
        st.scopes.len() >= 1,
    ensures
        visit_keeps(st, visit_body(ctx, st, i, j)),
    decreases i, body_of(ctx.m[i]).len() - j,
{
    lemma_visit_keeps_refl(st);
    if 0 <= i < ctx.m.len() && 0 <= j < body_of(ctx.m[i]).len() {
        let c = body_of(ctx.m[i])[j] as int;
        if c < i {
            law_visit_keeps_scopes_and_prompts(ctx, st, c);
            let s1 = visit_stmt(ctx, st, c);
            lemma_visit_body_keeps(ctx, s1, i, j + 1);
            lemma_visit_keeps_trans(st, s1, visit_body(ctx, s1, i, j + 1));
        } else {
            lemma_visit_body_keeps(ctx, st, i, j + 1);
        }
    }
}

} // verus!

verus! {

/// A `"...".format(args)` prompt has one variable per argument, up to the
/// number of placeholders of the string: the `q`-th variable is the `q`-th
/// argument, with its range and text.
pub proof fn law_format_vars_are_arguments(
    ctx: VisitCtx,
    st: VisitState,
    si: StmtInfo,
    ident: Seq<char>,
    k: int,
    args: Seq<usize>,
    fv: Seq<char>,
)
    requires
        0 <= k < ctx.m.len(),
        ctx.m[k] matches PyNode::Call { func, args: a, .. } && (a@ == args && 0 <= func < ctx.m.len() && (
        ctx.m[func as int] matches PyNode::Attribute { value, .. } && (0 <= value < ctx.m.len() && (
        ctx.m[value as int] matches PyNode::StringLiteral { value: v, .. } && v@ == fv)))),
    ensures
        format_prompt(ctx, st, si, ident, k) matches Some(p) ==> {
            &&& p.vars.len() == (if args.len() < format_placeholders(fv, 0).len() {
                args.len()
            } else {
                format_placeholders(fv, 0).len()
            })
            &&& forall|q: int|
                0 <= q < p.vars.len() ==> (#[trigger] p.vars[q]).span.outer == range_of(ctx.m[args[q] as int])
                    && p.vars[q].exp == range_text(
                    ctx.b,
                    range_of(ctx.m[args[q] as int]).start as int,
                    range_of(ctx.m[args[q] as int]).end as int,
                )
            &&& crate::types::var_count(p.content) == p.vars.len()
        },
{
    if format_prompt(ctx, st, si, ident, k) is Some {
        let ph = format_placeholders(fv, 0);
        let nv = if args.len() < ph.len() { args.len() as int } else { ph.len() as int };
        match ctx.m[k] {
            PyNode::Call { func, .. } => match ctx.m[func as int] {
                PyNode::Attribute { value, .. } => match ctx.m[value as int] {
                    PyNode::StringLiteral { range: fr, .. } => {
                        let fis = fr.start + 1;
                        let fie = sat_sub(fr.end as int, 1);
                        let toks = printf_tokens(ph, 0, 0, nv, fis, fie as int, utf8(fv).len() as int);
                        crate::detect::lemma_printf_var_count(ph, 0, 0, nv, fis, fie as int, utf8(fv).len() as int);
                        crate::types::lemma_numbered_counts(toks);
                    },
                    _ => {},
                },
                _ => {},
            },
            _ => {},
        }
    }
}

} // verus!

verus! {

/// Whether node `x` is an operand of the `+` concatenation at node `k`:
/// `k` itself when it is no `+` operation, else an operand of its left or
/// of its right side.
pub open spec fn add_operand(m: Seq<PyNode>, k: int, x: int) -> bool
    decreases k,
{
    if !(0 <= k < m.len()) {
        false
    } else {
        match m[k] {
            PyNode::BinOp { left, add, right, .. } => if add {
                (left < k && add_operand(m, left as int, x)) || (right < k && add_operand(m, right as int, x))
            } else {
                x == k
            },
            _ => x == k,
        }
    }
}

/// Whether node `x` is a name, a call or an attribute: an operand that a
/// concatenation takes as a variable.
pub open spec fn is_variable_operand(m: Seq<PyNode>, x: int) -> bool {
    m[x] is Name || m[x] is Call || m[x] is Attribute
}

/// Every name, call or attribute operand of a `+` concatenation gives a
/// variable segment over that operand's range.
pub proof fn law_concat_operand_is_variable(m: Seq<PyNode>, b: Seq<u8>, k: int, x: int)
    requires
        add_operand(m, k, x),
        is_variable_operand(m, x),
    ensures
        exists|q: int|
            0 <= q < py_segments(m, b, k).len() && (#[trigger] py_segments(m, b, k)[q] matches ConcatSegment::Variable(sp)
                && sp.inner == range_of(m[x])),
    decreases k,
{
    let segs = py_segments(m, b, k);
    match m[k] {
        PyNode::BinOp { left, add, right, .. } => {
            if add {
                let ls = if left < k { py_segments(m, b, left as int) } else { seq![] };
                let rs = if right < k { py_segments(m, b, right as int) } else { seq![] };
                assert(segs == ls + rs);
                if left < k && add_operand(m, left as int, x) {
                    law_concat_operand_is_variable(m, b, left as int, x);
                    let q = choose|q: int|
                        0 <= q < py_segments(m, b, left as int).len() && (#[trigger] py_segments(m, b, left as int)[q] matches ConcatSegment::Variable(
                            sp,
                        ) && sp.inner == range_of(m[x]));
                    assert(segs[q] == ls[q]);
                } else {
                    law_concat_operand_is_variable(m, b, right as int, x);
                    let q = choose|q: int|
                        0 <= q < py_segments(m, b, right as int).len() && (#[trigger] py_segments(m, b, right as int)[q] matches ConcatSegment::Variable(
                            sp,
                        ) && sp.inner == range_of(m[x]));
                    assert(segs[ls.len() + q] == rs[q]);
                }
            } else {
                assert(x == k);
            }
        },
        _ => {
            assert(x == k);
            assert(segs[0] matches ConcatSegment::Variable(sp) && sp.inner == range_of(m[x]));
        },
    }
}

/// A prompt made of a `+` concatenation holds, for each of its name, call
/// or attribute operands, a variable with that operand's range and text,
/// and a variable token over that range.
pub proof fn law_concat_prompt_keeps_operands(ctx: VisitCtx, st: VisitState, si: StmtInfo, ident: Seq<char>, k: int, x: int)
    requires
        add_operand(ctx.m, k, x),
        is_variable_operand(ctx.m, x),
    ensures
        concat_prompt(ctx, st, si, ident, k) matches Some(p) ==> exists|j: int|
            0 <= j < p.vars.len() && (#[trigger] p.vars[j]).span.inner == range_of(ctx.m[x]) && p.vars[j].exp == range_text(
                ctx.b,
                p.vars[j].span.inner.start as int,
                p.vars[j].span.inner.end as int,
            ),
        concat_prompt(ctx, st, si, ident, k) matches Some(p) ==> exists|j: int|
            0 <= j < p.content.len() && (#[trigger] p.content[j] matches PromptContentToken::Var { span, .. } && span
                == range_of(ctx.m[x])),
{
    if concat_prompt(ctx, st, si, ident, k) is Some {
        let segs = py_segments(ctx.m, ctx.b, k);
        let p = concat_prompt(ctx, st, si, ident, k).unwrap();
        let range = range_of(ctx.m[k]);
        assert(p.vars == operand_vars(segs, ctx.b, range.start, range.end, 0));
        law_concat_operand_is_variable(ctx.m, ctx.b, k, x);
        let q = choose|q: int|
            0 <= q < segs.len() && (#[trigger] segs[q] matches ConcatSegment::Variable(sp) && sp.inner == range_of(ctx.m[x]));
        let sp = segs[q]->Variable_0;
        crate::concat::lemma_operand_vars_has(segs, ctx.b, range.start, range.end, 0, q, sp);
        let toks = segs.map_values(|g: ConcatSegment| operand_token(g));
        assert(p.content == crate::types::numbered(toks));
        assert(toks[q] == operand_token(segs[q]));
        crate::types::lemma_numbered_counts(toks);
        crate::types::lemma_numbered_var_at(toks, q, sp.inner);
        assert(p.content[q] matches PromptContentToken::Var { span, .. } && span == sp.inner);
    }
}

} // verus!

verus! {

/// Whether the scopes of `st2` hold every identifier those of `st` hold,
/// with the annotation state and the number of scopes unchanged.
pub open spec fn marks_grow(st: VisitState, st2: VisitState) -> bool {
    &&& st2.scopes.len() == st.scopes.len()
    &&& st2.defs == st.defs
    &&& st2.annotated == st.annotated
    &&& forall|i: int, x: Seq<char>| 0 <= i < st.scopes.len() && #[trigger] st.scopes[i].contains(x) ==> st2.scopes[i].contains(x)
}

proof fn lemma_assign_name_grows(ctx: VisitCtx, st: VisitState, si: StmtInfo, is_prompt: bool, ident: Seq<char>, val: Option<int>)
    requires
        st.scopes.len() >= 1,
    ensures
        marks_grow(st, assign_name(ctx, st, si, is_prompt, ident, val)),
{
    let st1 = if is_prompt { st.mark(ident) } else { st };
    assert(marks_grow(st, st1)) by {
        if is_prompt {
            assert forall|i: int, x: Seq<char>| 0 <= i < st.scopes.len() && #[trigger] st.scopes[i].contains(x) implies st1.scopes[i].contains(x) by {
                if i == st.scopes.len() - 1 {
                    assert(st1.scopes[i] == st.scopes[i].insert(ident));
                }
            }
        }
    }
}

proof fn lemma_marks_grow_prompt_variable(st: VisitState, st2: VisitState, id: Seq<char>, has_ann: bool)
    requires
        marks_grow(st, st2),
        is_prompt_variable(st.scopes, id, has_ann),
    ensures
        is_prompt_variable(st2.scopes, id, has_ann),
{
    if crate::python::scope::in_any_scope(st.scopes, id) {
        let i = choose|i: int| 0 <= i < st.scopes.len() && (#[trigger] st.scopes[i]).contains(id);
        assert(st2.scopes[i].contains(id));
    }
}

proof fn lemma_assign_names_has(
    ctx: VisitCtx,
    st: VisitState,
    si: StmtInfo,
    is_prompt: bool,
    idents: Seq<usize>,
    vs: Seq<usize>,
    j: int,
    q: int,
    id: Seq<char>,
    range: Span,
)
    requires
        st.scopes.len() >= 1,
        0 <= j <= q < idents.len(),
        q < vs.len(),
        ctx.m[idents[q] as int] matches PyNode::Name { id: i2, .. } && i2@ == id,
        ctx.m[vs[q] as int] matches PyNode::StringLiteral { range: r2, .. } && r2 == range,
        is_prompt_variable(st.scopes, id, si.ann.len() > 0),
    ensures
        exists|m: int|
            0 <= m < assign_names(ctx, st, si, is_prompt, idents, Some(vs), j).prompts.len() && (#[trigger] assign_names(
                ctx,
                st,
                si,
                is_prompt,
                idents,
                Some(vs),
                j,
            ).prompts[m]).span.outer == range,
    decreases q - j,
{
    let val = if j < vs.len() { Some(vs[j] as int) } else { None };
    let st1 = match ctx.m[idents[j] as int] {
        PyNode::Name { id: x, .. } => assign_name(ctx, st, si, is_prompt, x@, val),
        _ => st,
    };
    assert(assign_names(ctx, st, si, is_prompt, idents, Some(vs), j) == assign_names(ctx, st1, si, is_prompt, idents, Some(vs), j + 1));
    if j == q {
        let sm = if is_prompt { st.mark(id) } else { st };
        lemma_assign_name_grows(ctx, st, si, false, id, None);
        assert(marks_grow(st, sm)) by {
            lemma_assign_name_grows(ctx, st, si, is_prompt, id, None);
        }
        lemma_marks_grow_prompt_variable(st, sm, id, si.ann.len() > 0);
        let ann = resolved_annotations(sm, si, id);
        assert(si.ann.len() > 0 ==> ann.len() > 0);
        assert(is_prompt_variable(sm.scopes, id, ann.len() > 0));
        let p = range_prompt(ctx, sm, si, id, range, seq![]);
        assert(p is Some);
        assert(st1 == sm.push(p.unwrap()));
        let n = st1.prompts.len() - 1;
        assert(st1.prompts[n].span.outer == range);
        lemma_assign_names_keeps(ctx, st1, si, is_prompt, idents, Some(vs), j + 1);
        let r = assign_names(ctx, st1, si, is_prompt, idents, Some(vs), j + 1);
        assert(r.prompts.subrange(0, st1.prompts.len() as int)[n] == r.prompts[n]);
    } else {
        match ctx.m[idents[j] as int] {
            PyNode::Name { id: x, .. } => {
                lemma_assign_name_grows(ctx, st, si, is_prompt, x@, val);
                lemma_marks_grow_prompt_variable(st, st1, id, si.ann.len() > 0);
            },
            _ => {},
        }
        lemma_assign_names_has(ctx, st1, si, is_prompt, idents, vs, j + 1, q, id, range);
    }
}

/// In an assignment to a tuple or list of names from a tuple or list of
/// values, every name that is a prompt variable and is paired with a string
/// literal gives a prompt over that literal, whatever its position.
pub proof fn law_sequence_assignment_pairs(
    ctx: VisitCtx,
    st: VisitState,
    si: StmtInfo,
    is_prompt: bool,
    idents: Seq<usize>,
    vs: Seq<usize>,
    q: int,
    id: Seq<char>,
    range: Span,
)
    requires
        st.scopes.len() >= 1,
        0 <= q < idents.len(),
        q < vs.len(),
        ctx.m[idents[q] as int] matches PyNode::Name { id: i2, .. } && i2@ == id,
        ctx.m[vs[q] as int] matches PyNode::StringLiteral { range: r2, .. } && r2 == range,
        is_prompt_variable(st.scopes, id, si.ann.len() > 0),
    ensures
        exists|m: int|
            0 <= m < assign_names(ctx, st, si, is_prompt, idents, Some(vs), 0).prompts.len() && (#[trigger] assign_names(
                ctx,
                st,
                si,
                is_prompt,
                idents,
                Some(vs),
                0,
            ).prompts[m]).span.outer == range,
{
    lemma_assign_names_has(ctx, st, si, is_prompt, idents, vs, 0, q, id, range);
}

} // verus!

verus! {

proof fn lemma_list_vars_extend(m: Seq<PyNode>, b: Seq<u8>, elts: Seq<usize>, j: int, joint: bool, acc: ElementsAcc)
    ensures
        list_elements_from(m, b, elts, j, joint, acc).vars.len() >= acc.vars.len(),
        list_elements_from(m, b, elts, j, joint, acc).vars.subrange(0, acc.vars.len() as int) == acc.vars,
    decreases elts.len() - j,
{
    if 0 <= j < elts.len() {
        let e = elts[j] as int;
        let r = range_of(m[e]);
        let acc2 = match m[e] {
            PyNode::StringLiteral { .. } => acc.emit(
                joint,
                PromptContentToken::Str { span: py_string_shape(b, r.start as int, r.end as int).inner },
            ),
            _ => {
                let a = acc.emit(joint, PromptContentToken::Var { span: r, index: 0 });
                ElementsAcc { vars: a.vars.push(node_var(m, b, e)), ..a }
            },
        };
        assert(acc2.vars.len() >= acc.vars.len() && acc2.vars.subrange(0, acc.vars.len() as int) =~= acc.vars);
        lemma_list_vars_extend(m, b, elts, j + 1, joint, acc2);
        let res = list_elements_from(m, b, elts, j + 1, joint, acc2);
        assert(res.vars.subrange(0, acc.vars.len() as int) =~= res.vars.subrange(0, acc2.vars.len() as int).subrange(
            0,
            acc.vars.len() as int,
        ));
    }
}

/// Every element of a list display that is not a string literal, from the
/// `j`-th on, gives a variable over that element's range with its text.
pub proof fn law_list_elements_keep_variables(
    m: Seq<PyNode>,
    b: Seq<u8>,
    elts: Seq<usize>,
    j: int,
    joint: bool,
    acc: ElementsAcc,
    q: int,
)
    requires
        0 <= j <= q < elts.len(),
        !(m[elts[q] as int] is StringLiteral),
    ensures
        exists|x: int|
            0 <= x < list_elements_from(m, b, elts, j, joint, acc).vars.len() && (#[trigger] list_elements_from(
                m,
                b,
                elts,
                j,
                joint,
                acc,
            ).vars[x]).span.inner == range_of(m[elts[q] as int]) && list_elements_from(m, b, elts, j, joint, acc).vars[x].exp
                == range_text(b, range_of(m[elts[q] as int]).start as int, range_of(m[elts[q] as int]).end as int),
    decreases q - j,
{
    let e = elts[j] as int;
    let r = range_of(m[e]);
    let acc2 = match m[e] {
        PyNode::StringLiteral { .. } => acc.emit(
            joint,
            PromptContentToken::Str { span: py_string_shape(b, r.start as int, r.end as int).inner },
        ),
        _ => {
            let a = acc.emit(joint, PromptContentToken::Var { span: r, index: 0 });
            ElementsAcc { vars: a.vars.push(node_var(m, b, e)), ..a }
        },
    };
    let res = list_elements_from(m, b, elts, j + 1, joint, acc2);
    assert(list_elements_from(m, b, elts, j, joint, acc) == res);
    if j == q {
        let n = acc2.vars.len() - 1;
        assert(acc2.vars[n] == node_var(m, b, e));
        lemma_list_vars_extend(m, b, elts, j + 1, joint, acc2);
        assert(res.vars.subrange(0, acc2.vars.len() as int)[n] == res.vars[n]);
    } else {
        law_list_elements_keep_variables(m, b, elts, j + 1, joint, acc2, q);
    }
}

} // verus!
