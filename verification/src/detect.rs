//! What the tree-sitter prompt detectors share: the context a detection
//! run reads, the state it changes, how a prompt is assembled, how the
//! annotations of a statement are gathered, and how parse errors are
//! reported.
use crate::comments::{spec_adjacent_leading, spec_any_leading_start, spec_inline_prompt, CommentNode, CommentTracker};
use crate::go::scope::ScopeTracker;
use crate::python::parser::{is_prompt_variable, prompt_word, string_views};
use crate::python::scope::in_any_scope;
use crate::syntax::{field_child, children_precede, lemma_wf_children_precede, node_text, node_wf, SyntaxNode, SyntaxTree};
use crate::text::{span_string, span_text, append_decimal, bytes_find, decimal, range_string, range_text, to_lowercase, utf8, valid_range};
use crate::types::{
    annotation_models, duplicate_annotations, empty_shape, prompt_models, var_models, AnnotationModel, Prompt, PromptAnnotation,
    PromptContentToken, PromptModel, PromptVar, Span, SpanShape, VarModel, numbered, number_vars,
};
use crate::expr::placeholders_from;
use vstd::prelude::*;
use vstd::string::{StrSliceExecFns, StringExecFns};

verus! {


/// What the detector reads: the tree, the source bytes, the file name and
/// the sorted comments.
pub struct DetectCtx {
    pub t: Seq<SyntaxNode>,
    pub b: Seq<u8>,
    pub file: Seq<char>,
    pub cs: Seq<CommentNode>,
}

/// What the detector changes: the scope stack of prompt identifiers, the
/// definition-time annotations and the prompts found so far.
pub struct DetectState {
    pub scopes: Seq<Set<Seq<char>>>,
    pub defs: Map<Seq<char>, Seq<AnnotationModel>>,
    pub prompts: Seq<PromptModel>,
}

impl DetectState {
    pub open spec fn enter(self) -> DetectState {
        DetectState { scopes: self.scopes.push(Set::empty()), ..self }
    }

    pub open spec fn exit(self) -> DetectState {
        DetectState {
            scopes: if self.scopes.len() > 1 {
                self.scopes.drop_last()
            } else {
                self.scopes
            },
            ..self
        }
    }

    pub open spec fn mark(self, k: Seq<char>) -> DetectState {
        DetectState { scopes: self.scopes.update(self.scopes.len() - 1, self.scopes.last().insert(k)), ..self }
    }

    pub open spec fn store(self, k: Seq<char>, a: Seq<AnnotationModel>) -> DetectState {
        DetectState { defs: self.defs.insert(k, a), ..self }
    }

    pub open spec fn push(self, p: PromptModel) -> DetectState {
        DetectState { prompts: self.prompts.push(p), ..self }
    }

    pub open spec fn push_some(self, p: Option<PromptModel>) -> DetectState {
        match p {
            Some(x) => self.push(x),
            None => self,
        }
    }

    pub open spec fn is_prompt(self, k: Seq<char>) -> bool {
        in_any_scope(self.scopes, k)
    }

    pub open spec fn def_annotation(self, k: Seq<char>) -> Seq<AnnotationModel> {
        if self.defs.contains_key(k) {
            self.defs[k]
        } else {
            seq![]
        }
    }
}

/// The state held by a scope tracker and a list of prompts.
pub open spec fn detect_state(s: ScopeTracker, p: Seq<Prompt>) -> DetectState {
    DetectState { scopes: s.prompt_scopes(), defs: s.defs(), prompts: prompt_models(p) }
}

/// The context of a detection run.
pub open spec fn detect_ctx(tree: &SyntaxTree, source: &str, filename: &str, comments: &CommentTracker) -> DetectCtx {
    DetectCtx { t: tree.nodes@, b: utf8(source@), file: filename@, cs: comments.comment_list() }
}

/// Whether the tree is well formed over the source and the comments are the source's.
pub open spec fn detect_ready(tree: &SyntaxTree, source: &str, comments: &CommentTracker) -> bool {
    tree.wf(utf8(source@)) && comments.source_text() == source@
}

/// Where a statement's enclosure starts: at the first comment of the block
/// of comments right before it, whether or not they annotate, else at the
/// statement.
pub open spec fn any_enclosure_start(ctx: DetectCtx, stmt_start: u32) -> u32 {
    match spec_any_leading_start(ctx.cs, ctx.b, stmt_start as int) {
        Some(x) => x,
        None => stmt_start,
    }
}

/// The annotations of a statement spanning `[ss, se)`: its merged leading
/// annotation, then its inline `@prompt` comments.
pub open spec fn statement_annotations(ctx: DetectCtx, ss: u32, se: u32) -> Seq<AnnotationModel> {
    spec_adjacent_leading(ctx.cs, ctx.b, ss as int) + spec_inline_prompt(ctx.cs, ss as int, se as int, ctx.cs.len() as int)
}

/// A prompt of a Go statement spanning `[ss, se)`.
pub open spec fn make_prompt(
    ctx: DetectCtx,
    span: SpanShape,
    vars: Seq<VarModel>,
    ann: Seq<AnnotationModel>,
    content: Seq<PromptContentToken>,
    joint: SpanShape,
    ss: u32,
    se: u32,
) -> PromptModel {
    PromptModel {
        file: ctx.file,
        span,
        enclosure: Span { start: any_enclosure_start(ctx, ss), end: se },
        exp: span_text(ctx.b, span.outer.start, span.outer.end),
        vars,
        annotations: ann,
        content: numbered(content),
        joint,
    }
}

/// Whether `pos` is a character boundary of `b` whenever it lies inside it.
pub open spec fn boundary_or_beyond(b: Seq<u8>, pos: u32) -> bool {
    pos as int <= b.len() ==> vstd::utf8::is_char_boundary(b, pos as int)
}

/// Where the enclosure of a statement starting at `stmt_start` begins.
pub fn enclosure_start_exec(comments: &CommentTracker, stmt_start: u32, Ghost(ctx): Ghost<DetectCtx>) -> (r: u32)
    requires
        ctx.cs == comments.comment_list(),
        ctx.b == comments.src_bytes(),
        boundary_or_beyond(ctx.b, stmt_start),
    ensures
        r == any_enclosure_start(ctx, stmt_start),
{
    match comments.get_any_leading_start(stmt_start) {
        Some(x) => x,
        None => stmt_start,
    }
}

/// A prompt with the given parts.
pub fn build_prompt(
    source: &str,
    filename: &str,
    span: SpanShape,
    vars: Vec<PromptVar>,
    annotations: &Vec<PromptAnnotation>,
    content: Vec<PromptContentToken>,
    joint: SpanShape,
    enclosure_start: u32,
    stmt_end: u32,
) -> (r: Prompt)
    ensures
        r@ == (PromptModel {
            file: filename@,
            span,
            enclosure: Span { start: enclosure_start, end: stmt_end },
            exp: span_text(utf8(source@), span.outer.start, span.outer.end),
            vars: var_models(vars@),
            annotations: annotation_models(annotations@),
            content: numbered(content@),
            joint,
        }),
{
    Prompt {
        file: filename.to_owned(),
        span,
        enclosure: Span { start: enclosure_start, end: stmt_end },
        exp: span_string(source, span.outer.start, span.outer.end),
        vars,
        annotations: duplicate_annotations(annotations),
        content: number_vars(content),
        joint,
    }
}

/// The named children of node `a` other than `,`, from its `j`-th child on.
pub open spec fn named_args(t: Seq<SyntaxNode>, a: int, j: int) -> Seq<int>
    decreases t[a].children@.len() - j,
{
    if 0 <= a < t.len() && 0 <= j < t[a].children@.len() {
        let c = t[a].children@[j] as int;
        if 0 <= c < t.len() && t[c].named && t[c].kind@ != ","@ {
            seq![c] + named_args(t, a, j + 1)
        } else {
            named_args(t, a, j + 1)
        }
    } else {
        seq![]
    }
}

/// The variable of an argument node: its text, over its range on both sides.
pub open spec fn arg_var(t: Seq<SyntaxNode>, b: Seq<u8>, k: int) -> VarModel {
    let sp = Span { start: t[k].start as u32, end: t[k].end as u32 };
    VarModel { exp: node_text(t, k, b), span: SpanShape { outer: sp, inner: sp } }
}

/// The content tokens of a printf-style format whose inner range is
/// `[fis, fie)`, `blen` bytes long, with placeholders `ph` (character
/// ranges used as byte offsets from `fis`), from the `j`-th placeholder on,
/// the text resuming at `pos`; only the first `nv` placeholders have a
/// variable token.
pub open spec fn printf_tokens(ph: Seq<(int, int)>, j: int, pos: int, nv: int, fis: int, fie: int, blen: int) -> Seq<
    PromptContentToken,
>
    decreases ph.len() - j,
{
    if j < 0 || j >= ph.len() {
        if pos < blen {
            seq![PromptContentToken::Str { span: Span { start: (fis + pos) as u32, end: fie as u32 } }]
        } else {
            seq![]
        }
    } else {
        let s = ph[j].0;
        let e = ph[j].1;
        let before = if pos < s {
            seq![PromptContentToken::Str { span: Span { start: (fis + pos) as u32, end: (fis + s) as u32 } }]
        } else {
            seq![]
        };
        let var = if j < nv {
            seq![PromptContentToken::Var { span: Span { start: (fis + s) as u32, end: (fis + e) as u32 }, index: 0 }]
        } else {
            seq![]
        };
        before + var + printf_tokens(ph, j + 1, e, nv, fis, fie, blen)
    }
}

/// The named, non-`,` children of node `a`.
pub fn collect_named_args(tree: &SyntaxTree, a: usize) -> (r: Vec<usize>)
    requires
        a < tree.nodes@.len(),
        children_precede(tree.nodes@),
    ensures
        r@.len() == named_args(tree.nodes@, a as int, 0).len(),
        forall|q: int| 0 <= q < r@.len() ==> (#[trigger] r@[q]) as int == named_args(tree.nodes@, a as int, 0)[q] && r@[q] < a,
{
    let ghost t = tree.nodes@;
    let mut r: Vec<usize> = Vec::new();
    let n = tree.nodes[a].children.len();
    let mut j: usize = 0;
    while j < n
        invariant
            t == tree.nodes@,
            children_precede(t),
            a < t.len(),
            n == t[a as int].children@.len(),
            j <= n,
            r@.len() + named_args(t, a as int, j as int).len() == named_args(t, a as int, 0).len(),
            forall|q: int| 0 <= q < r@.len() ==> (#[trigger] r@[q]) as int == named_args(t, a as int, 0)[q] && r@[q] < a,
            forall|q: int| 0 <= q < named_args(t, a as int, j as int).len() ==> #[trigger] named_args(t, a as int, j as int)[q]
                == named_args(t, a as int, 0)[r@.len() + q],
        decreases n - j,
    {
        let c = tree.nodes[a].children[j];
        assert(c < a);
        if tree.nodes[c].named && !tree.kind_is(c, ",") {
            proof {
                assert(named_args(t, a as int, j as int) == seq![c as int] + named_args(t, a as int, j + 1));
                assert(named_args(t, a as int, j as int)[0] == named_args(t, a as int, 0)[r@.len() as int]);
                assert forall|q: int| 0 <= q < named_args(t, a as int, j + 1).len() implies #[trigger] named_args(t, a as int, j + 1)[q]
                    == named_args(t, a as int, 0)[r@.len() + 1 + q] by {
                    assert(named_args(t, a as int, j + 1)[q] == named_args(t, a as int, j as int)[q + 1]);
                }
            }
            r.push(c);
        }
        j = j + 1;
    }
    r
}

/// What a walk over the elements of a slice literal has built: the
/// variables, the content tokens, and whether no element came yet.
pub struct ElementsAcc {
    pub vars: Seq<VarModel>,
    pub content: Seq<PromptContentToken>,
    pub first: bool,
}

impl ElementsAcc {
    /// Adds an element's token, after a joint token when an element came
    /// before and `joint` is set.
    pub open spec fn emit(self, joint: bool, tok: PromptContentToken) -> ElementsAcc {
        let c = if !self.first && joint {
            self.content.push(PromptContentToken::Joint)
        } else {
            self.content
        };
        ElementsAcc { vars: self.vars, content: c.push(tok), first: false }
    }
}

/// The state after a prompt variable's declaration: the identifier is
/// marked in the innermost scope, and its annotations stored when it has any.
pub open spec fn declared(st: DetectState, ident: Seq<char>, has_ann: bool, ann: Seq<AnnotationModel>) -> DetectState {
    let st1 = st.mark(ident);
    if has_ann {
        st1.store(ident, ann)
    } else {
        st1
    }
}

/// The annotations a prompt gets: the statement's, or else those stored
/// with the identifier's definition.
pub open spec fn final_annotations(st: DetectState, ident: Seq<char>, ann: Seq<AnnotationModel>) -> Seq<AnnotationModel> {
    if ann.len() > 0 {
        ann
    } else {
        st.def_annotation(ident)
    }
}

/// Check if a variable should be treated as a prompt.
pub fn is_prompt_variable_exec(ident: &str, has_annotation: bool, scopes: &ScopeTracker) -> (r: bool)
    ensures
        r == is_prompt_variable(scopes.prompt_scopes(), ident@, has_annotation),
{
    let lower = to_lowercase(ident);
    let word: [u8; 6] = [112u8, 114u8, 111u8, 109u8, 112u8, 116u8];
    assert(word@ =~= prompt_word());
    if bytes_find(lower.as_str().as_bytes(), word.as_slice()).is_some() {
        return true;
    }
    if has_annotation {
        return true;
    }
    scopes.is_prompt_ident(ident)
}

/// The annotations of the statement spanning `[ss, se)`.
pub fn collect_statement_annotations(comments: &CommentTracker, ss: u32, se: u32, Ghost(ctx): Ghost<DetectCtx>) -> (r: Vec<PromptAnnotation>)
    requires
        ctx.cs == comments.comment_list(),
        ctx.b == comments.src_bytes(),
        boundary_or_beyond(ctx.b, ss),
    ensures
        annotation_models(r@) == statement_annotations(ctx, ss, se),
{
    let mut all = comments.collect_adjacent_leading(ss);
    let mut inline = comments.collect_inline_prompt(ss, se);
    let ghost a = annotation_models(all@);
    let ghost c = annotation_models(inline@);
    all.append(&mut inline);
    assert(annotation_models(all@) =~= a + c);
    all
}

/// The annotations a prompt of `ident` gets.
pub fn final_annotations_exec(scopes: &ScopeTracker, ident: &str, all: &Vec<PromptAnnotation>) -> (r: Vec<PromptAnnotation>)
    ensures
        annotation_models(r@) == final_annotations(
            DetectState { scopes: scopes.prompt_scopes(), defs: scopes.defs(), prompts: seq![] },
            ident@,
            annotation_models(all@),
        ),
{
    if all.len() > 0 {
        duplicate_annotations(all)
    } else {
        match scopes.get_def_annotation(ident) {
            Some(a) => a,
            None => {
                let v: Vec<PromptAnnotation> = Vec::new();
                assert(annotation_models(v@) =~= Seq::<AnnotationModel>::empty());
                v
            },
        }
    }
}

/// Appends `p` when there is one.
pub fn push_some(prompts: &mut Vec<Prompt>, p: Option<Prompt>)
    ensures
        prompt_models(final(prompts)@) == match p {
            Some(x) => prompt_models(old(prompts)@).push(x@),
            None => prompt_models(old(prompts)@),
        },
{
    match p {
        Some(x) => {
            let ghost before = prompts@;
            prompts.push(x);
            assert(prompt_models(prompts@) =~= prompt_models(before).push(x@));
        },
        None => {},
    }
}

/// Declares `ident` as a prompt variable, with its annotations when it has any.
pub fn declare(scopes: &mut ScopeTracker, ident: &str, has_ann: bool, all: &Vec<PromptAnnotation>, Ghost(prompts): Ghost<Seq<Prompt>>)
    requires
        old(scopes).wf(),
    ensures
        final(scopes).wf(),
        detect_state(*final(scopes), prompts) == declared(detect_state(*old(scopes), prompts), ident@, has_ann, annotation_models(all@)),
{
    scopes.mark_prompt_ident(ident);
    if has_ann {
        scopes.store_def_annotation(ident, duplicate_annotations(all));
    }
}

/// The first 50 characters of `s`.
pub open spec fn first_50(s: Seq<char>) -> Seq<char> {
    if s.len() <= 50 {
        s
    } else {
        s.subrange(0, 50)
    }
}

/// The line that describes the error or missing node `k`.
pub open spec fn error_line(t: Seq<SyntaxNode>, b: Seq<u8>, k: int) -> Seq<char> {
    "  Line "@ + decimal((t[k].row + 1) as nat) + ", Column "@ + decimal((t[k].column + 1) as nat) + ": "@ + first_50(node_text(t, k, b))
}

/// The lines of the error and missing nodes of node `i`'s subtree, in pre-order.
pub open spec fn error_lines(t: Seq<SyntaxNode>, b: Seq<u8>, i: int) -> Seq<Seq<char>>
    decreases i, t[i].children@.len() + 1,
{
    if 0 <= i < t.len() {
        (if t[i].error || t[i].missing {
            seq![error_line(t, b, i)]
        } else {
            seq![]
        }) + error_lines_children(t, b, i, 0)
    } else {
        seq![]
    }
}

/// The error lines of the subtrees of node `i`'s children, from the `j`-th on.
pub open spec fn error_lines_children(t: Seq<SyntaxNode>, b: Seq<u8>, i: int, j: int) -> Seq<Seq<char>>
    decreases i, t[i].children@.len() - j,
{
    if 0 <= i < t.len() && 0 <= j < t[i].children@.len() {
        let c = t[i].children@[j] as int;
        if 0 <= c < i {
            error_lines(t, b, c) + error_lines_children(t, b, i, j + 1)
        } else {
            error_lines_children(t, b, i, j + 1)
        }
    } else {
        seq![]
    }
}

/// The lines joined with line breaks.
pub open spec fn joined(s: Seq<Seq<char>>) -> Seq<char>
    decreases s.len(),
{
    if s.len() == 0 {
        seq![]
    } else if s.len() == 1 {
        s[0]
    } else {
        joined(s.drop_last()) + "\n"@ + s.last()
    }
}

/// The message for a tree whose root has an error: every error and missing
/// node, one per line, or an unknown error when there is none.
pub open spec fn errors_message(t: Seq<SyntaxNode>, b: Seq<u8>, root: int) -> Seq<char> {
    let lines = error_lines(t, b, root);
    if lines.len() == 0 {
        "Parse error: unknown"@
    } else {
        "Parse errors:\n"@ + joined(lines)
    }
}

pub fn collect_errors(tree: &SyntaxTree, i: usize, source: &str, errors: &mut Vec<String>)
    requires
        tree.wf(utf8(source@)),
        i < tree.nodes@.len(),
    ensures
        string_views(final(errors)@) == string_views(old(errors)@) + error_lines(tree.nodes@, utf8(source@), i as int),
    decreases i,
{
    let ghost t = tree.nodes@;
    let ghost b = utf8(source@);
    proof {
        lemma_wf_children_precede(tree, b);
        assert(node_wf(t, i as int, b));
    }
    let ghost base = string_views(errors@);
    if tree.nodes[i].error || tree.nodes[i].missing {
        let text = tree.text_of(i, source);
        let n = text.as_str().unicode_len();
        let shown = if n <= 50 {
            text.as_str().substring_char(0, n)
        } else {
            text.as_str().substring_char(0, 50)
        };
        assert(text@.subrange(0, n as int) =~= text@);
        let mut line = String::from_str("  Line ");
        append_decimal(&mut line, tree.nodes[i].row as u128 + 1);
        line.append(", Column ");
        append_decimal(&mut line, tree.nodes[i].column as u128 + 1);
        line.append(": ");
        line.append(shown);
        let ghost before = errors@;
        errors.push(line);
        assert(string_views(errors@) =~= string_views(before).push(error_line(t, b, i as int)));
    }
    assert(string_views(errors@) + error_lines_children(t, b, i as int, 0) =~= base + error_lines(t, b, i as int));
    let n = tree.nodes[i].children.len();
    let mut j: usize = 0;
    while j < n
        invariant
            tree.wf(b),
            b == utf8(source@),
            t == tree.nodes@,
            children_precede(t),
            i < t.len(),
            n == t[i as int].children@.len(),
            j <= n,
            string_views(errors@) + error_lines_children(t, b, i as int, j as int) == base + error_lines(t, b, i as int),
        decreases n - j,
    {
        let c = tree.nodes[i].children[j];
        assert(c < i);
        let ghost before = string_views(errors@);
        collect_errors(tree, c, source, errors);
        assert(string_views(errors@) + error_lines_children(t, b, i as int, j + 1) =~= before + error_lines_children(t, b, i as int, j as int));
        j = j + 1;
    }
    assert(string_views(errors@) =~= base + error_lines(t, b, i as int));
}

/// Format tree-sitter parse errors into a readable message.
pub fn format_tree_sitter_error(tree: &SyntaxTree, root: usize, source: &str) -> (r: String)
    requires
        tree.wf(utf8(source@)),
        root < tree.nodes@.len(),
    ensures
        r@ == errors_message(tree.nodes@, utf8(source@), root as int),
{
    let mut errors: Vec<String> = Vec::new();
    collect_errors(tree, root, source, &mut errors);
    let ghost lines = error_lines(tree.nodes@, utf8(source@), root as int);
    assert(string_views(errors@) =~= lines);
    if errors.len() == 0 {
        return String::from_str("Parse error: unknown");
    }
    let mut msg = String::from_str("Parse errors:\n");
    let ghost prefix = msg@;
    let mut j: usize = 0;
    while j < errors.len()
        invariant
            string_views(errors@) == lines,
            j <= errors@.len(),
            msg@ == prefix + joined(lines.subrange(0, j as int)),
        decreases errors@.len() - j,
    {
        if j > 0 {
            msg.append("\n");
        }
        msg.append(errors[j].as_str());
        proof {
            let s = lines.subrange(0, j + 1);
            assert(s.drop_last() =~= lines.subrange(0, j as int));
            assert(s.last() == lines[j as int]);
            assert(errors@[j as int]@ == lines[j as int]);
        }
        j = j + 1;
    }
    assert(lines.subrange(0, lines.len() as int) =~= lines);
    msg
}

/// The initial state: the global scope, no stored annotations and no prompts.
pub open spec fn initial_state() -> DetectState {
    DetectState { scopes: seq![Set::empty()], defs: Map::empty(), prompts: seq![] }
}

/// A segment of a `+` concatenation.
#[derive(Clone, Copy, Debug, PartialEq, Eq, Structural)]
pub enum ConcatSegment {
    /// A string literal, with its span.
    Text(SpanShape),
    /// A variable, call or selector: outer range widened over the operators
    /// around it, inner range the expression.
    Variable(SpanShape),
    /// A number or boolean literal, ranged like a variable.
    Primitive(SpanShape),
    /// A slice or composite literal, which a concatenation cannot hold.
    Other,
}

/// Whether every variable segment's inner range covers whole characters of `b`.
pub open spec fn variables_ranged(segs: Seq<ConcatSegment>, b: Seq<u8>) -> bool {
    forall|q: int|
        0 <= q < segs.len() ==> (#[trigger] segs[q] matches ConcatSegment::Variable(sp) ==> valid_range(
            b,
            sp.inner.start as int,
            sp.inner.end as int,
        ))
}

/// The content token of a segment.
pub open spec fn segment_token(seg: ConcatSegment) -> PromptContentToken {
    match seg {
        ConcatSegment::Text(sp) => PromptContentToken::Str { span: sp.inner },
        ConcatSegment::Variable(sp) => PromptContentToken::Var { span: sp.inner, index: 0 },
        ConcatSegment::Primitive(sp) => PromptContentToken::Str { span: sp.inner },
        ConcatSegment::Other => PromptContentToken::Str { span: Span { start: 0, end: 0 } },
    }
}

/// The variables of the segments `segs[j..]`: one per variable segment,
/// with the text of its expression.
pub open spec fn segment_vars(segs: Seq<ConcatSegment>, b: Seq<u8>, j: int) -> Seq<VarModel>
    decreases segs.len() - j,
{
    if 0 <= j < segs.len() {
        match segs[j] {
            ConcatSegment::Variable(sp) => seq![
                VarModel { exp: range_text(b, sp.inner.start as int, sp.inner.end as int), span: sp },
            ] + segment_vars(segs, b, j + 1),
            _ => segment_vars(segs, b, j + 1),
        }
    } else {
        seq![]
    }
}

/// Where the inner range of a concatenation starts, from its first segment.
pub open spec fn segment_start(seg: ConcatSegment, dflt: u32) -> u32 {
    match seg {
        ConcatSegment::Text(sp) => sp.inner.start,
        ConcatSegment::Variable(sp) => sp.outer.start,
        ConcatSegment::Primitive(sp) => sp.outer.start,
        ConcatSegment::Other => dflt,
    }
}

/// Where the inner range of a concatenation ends, from its last segment.
pub open spec fn segment_end(seg: ConcatSegment, dflt: u32) -> u32 {
    match seg {
        ConcatSegment::Text(sp) => sp.inner.end,
        ConcatSegment::Variable(sp) => sp.outer.end,
        ConcatSegment::Primitive(sp) => sp.outer.end,
        ConcatSegment::Other => dflt,
    }
}

/// The content token of a segment.
pub fn segment_token_exec(seg: &ConcatSegment) -> (r: PromptContentToken)
    ensures
        r == segment_token(*seg),
{
    match seg {
        ConcatSegment::Text(sp) => PromptContentToken::Str { span: sp.inner },
        ConcatSegment::Variable(sp) => PromptContentToken::Var { span: sp.inner, index: 0 },
        ConcatSegment::Primitive(sp) => PromptContentToken::Str { span: sp.inner },
        ConcatSegment::Other => PromptContentToken::Str { span: Span { start: 0, end: 0 } },
    }
}

/// The prompt of the concatenation over `outer` made of the segments
/// `segs`: `None` when a segment is an array or object or when there are
/// none; otherwise its inner range runs from the first segment to the last,
/// its variables are those of the variable segments, and each segment gives
/// one content token.
pub open spec fn segments_prompt(
    ctx: DetectCtx,
    segs: Seq<ConcatSegment>,
    outer: Span,
    ann: Seq<AnnotationModel>,
    ss: u32,
    se: u32,
) -> Option<PromptModel> {
    if (exists|q: int| 0 <= q < segs.len() && segs[q] is Other) || segs.len() == 0 {
        None
    } else {
        let span = SpanShape {
            outer,
            inner: Span { start: segment_start(segs[0], outer.start), end: segment_end(segs.last(), outer.end) },
        };
        Some(
            make_prompt(
                ctx,
                span,
                segment_vars(segs, ctx.b, 0),
                ann,
                segs.map_values(|g: ConcatSegment| segment_token(g)),
                empty_shape(),
                ss,
                se,
            ),
        )
    }
}

/// Builds the prompt of a concatenation from its segments.
pub fn prompt_from_segments(
    segs: Vec<ConcatSegment>,
    outer: Span,
    source: &str,
    filename: &str,
    stmt_start: u32,
    stmt_end: u32,
    comments: &CommentTracker,
    annotations: &Vec<PromptAnnotation>,
    Ghost(ctx): Ghost<DetectCtx>,
) -> (r: Option<Prompt>)
    requires
        ctx.cs == comments.comment_list(),
        ctx.b == comments.src_bytes(),
        ctx.b == utf8(source@),
        ctx.file == filename@,
        variables_ranged(segs@, utf8(source@)),
        boundary_or_beyond(utf8(source@), stmt_start),
    ensures
        r matches Some(p) ==> segments_prompt(ctx, segs@, outer, annotation_models(annotations@), stmt_start, stmt_end) == Some(p@),
        r is None ==> segments_prompt(ctx, segs@, outer, annotation_models(annotations@), stmt_start, stmt_end) is None,
{
    let ghost b = utf8(source@);
    let ghost sg = segs@;
    let mut j: usize = 0;
    while j < segs.len()
        invariant
            sg == segs@,
            j <= sg.len(),
            forall|q: int| 0 <= q < j ==> !(#[trigger] sg[q] is Other),
        decreases sg.len() - j,
    {
        if let ConcatSegment::Other = segs[j] {
            assert(sg[j as int] is Other);
            assert(exists|q: int| 0 <= q < sg.len() && sg[q] is Other);
            return None;
        }
        j = j + 1;
    }
    if segs.len() == 0 {
        return None;
    }
    let inner_start = match segs[0] {
        ConcatSegment::Text(sp) => sp.inner.start,
        ConcatSegment::Variable(sp) => sp.outer.start,
        ConcatSegment::Primitive(sp) => sp.outer.start,
        ConcatSegment::Other => outer.start,
    };
    let inner_end = match segs[segs.len() - 1] {
        ConcatSegment::Text(sp) => sp.inner.end,
        ConcatSegment::Variable(sp) => sp.outer.end,
        ConcatSegment::Primitive(sp) => sp.outer.end,
        ConcatSegment::Other => outer.end,
    };
    let span = SpanShape { outer, inner: Span { start: inner_start, end: inner_end } };
    let mut vars: Vec<PromptVar> = Vec::new();
    let mut content: Vec<PromptContentToken> = Vec::new();
    let mut j: usize = 0;
    while j < segs.len()
        invariant
            sg == segs@,
            j <= sg.len(),
            variables_ranged(sg, b),
            b == utf8(source@),
            var_models(vars@) + segment_vars(sg, b, j as int) == segment_vars(sg, b, 0),
            content@ == sg.subrange(0, j as int).map_values(|g: ConcatSegment| segment_token(g)),
        decreases sg.len() - j,
    {
        let ghost before = var_models(vars@);
        match segs[j] {
            ConcatSegment::Variable(sp) => {
                assert(sg[j as int] matches ConcatSegment::Variable(x) ==> valid_range(b, x.inner.start as int, x.inner.end as int));
                let exp = range_string(source, sp.inner.start as usize, sp.inner.end as usize);
                vars.push(PromptVar { exp, span: sp });
            },
            _ => {},
        }
        assert(var_models(vars@) + segment_vars(sg, b, j + 1) =~= before + segment_vars(sg, b, j as int));
        content.push(segment_token_exec(&segs[j]));
        assert(sg.subrange(0, j + 1).map_values(|g: ConcatSegment| segment_token(g)) =~= sg.subrange(0, j as int).map_values(
            |g: ConcatSegment| segment_token(g),
        ).push(segment_token(sg[j as int])));
        j = j + 1;
    }
    assert(sg.subrange(0, sg.len() as int) =~= sg);
    assert(var_models(vars@) =~= segment_vars(sg, b, 0));
    let es = enclosure_start_exec(comments, stmt_start, Ghost(ctx));
    let joint = SpanShape { outer: Span { start: 0, end: 0 }, inner: Span { start: 0, end: 0 } };
    let p = build_prompt(source, filename, span, vars, annotations, content, joint, es, stmt_end);
    assert(!(exists|q: int| 0 <= q < sg.len() && sg[q] is Other));
    Some(p)
}

/// The prompt of a printf-style call at node `k` whose format string has
/// the span `fs` and whose arguments are the nodes `args`, the format first:
/// `None` unless the format's inner range covers whole characters and holds
/// a placeholder; each later argument, up to the number of placeholders, is
/// a variable, and the format's text and placeholders become the content.
pub open spec fn format_prompt(
    ctx: DetectCtx,
    k: int,
    fs: SpanShape,
    args: Seq<int>,
    ann: Seq<AnnotationModel>,
    ss: u32,
    se: u32,
) -> Option<PromptModel> {
    let t = ctx.t;
    let b = ctx.b;
    if !valid_range(b, fs.inner.start as int, fs.inner.end as int) {
        None
    } else {
        let ph = placeholders_from(range_text(b, fs.inner.start as int, fs.inner.end as int), 0);
        if ph.len() == 0 {
            None
        } else {
            let nv = if args.len() - 1 < ph.len() {
                args.len() - 1
            } else {
                ph.len() as int
            };
            let vars = Seq::new(nv as nat, |q: int| arg_var(t, b, args[q + 1]));
            let content = printf_tokens(ph, 0, 0, nv, fs.inner.start as int, fs.inner.end as int, fs.inner.end - fs.inner.start);
            let span = SpanShape { outer: Span { start: t[k].start as u32, end: t[k].end as u32 }, inner: fs.inner };
            Some(make_prompt(ctx, span, vars, ann, content, empty_shape(), ss, se))
        }
    }
}

/// Builds the prompt of the printf-style call at node `k` from its format
/// span and its arguments.
pub fn prompt_from_format(
    tree: &SyntaxTree,
    k: usize,
    fs: SpanShape,
    args: &Vec<usize>,
    source: &str,
    filename: &str,
    stmt_start: u32,
    stmt_end: u32,
    comments: &CommentTracker,
    annotations: &Vec<PromptAnnotation>,
) -> (r: Option<Prompt>)
    requires
        detect_ready(tree, source, comments),
        k < tree.nodes@.len(),
        args@.len() >= 1,
        forall|m: int| 0 <= m < args@.len() ==> #[trigger] args@[m] < tree.nodes@.len(),
        boundary_or_beyond(utf8(source@), stmt_start),
    ensures
        r matches Some(p) ==> format_prompt(
            detect_ctx(tree, source, filename, comments),
            k as int,
            fs,
            args@.map_values(|x: usize| x as int),
            annotation_models(annotations@),
            stmt_start,
            stmt_end,
        ) == Some(p@),
        r is None ==> format_prompt(
            detect_ctx(tree, source, filename, comments),
            k as int,
            fs,
            args@.map_values(|x: usize| x as int),
            annotation_models(annotations@),
            stmt_start,
            stmt_end,
        ) is None,
{
    let ghost ctx = detect_ctx(tree, source, filename, comments);
    let ghost t = tree.nodes@;
    let ghost b = utf8(source@);
    let ghost ga = args@.map_values(|x: usize| x as int);
    let fis = fs.inner.start as usize;
    let fie = fs.inner.end as usize;
    if !(fis <= fie && fie <= source.as_bytes().len() && source.is_char_boundary(fis) && source.is_char_boundary(fie)) {
        return None;
    }
    let content_str = crate::text::substr(source, fis, fie);
    let ghost fc = content_str@;
    proof {
        crate::text::lemma_chars_le_bytes(fc);
    }
    let placeholders = crate::expr::parse_printf_placeholders(content_str);
    let ghost ph = placeholders_from(fc, 0);
    proof {
        crate::expr::lemma_placeholders_ordered(fc, 0);
    }
    if placeholders.len() == 0 {
        return None;
    }
    let mut vars: Vec<PromptVar> = Vec::new();
    let mut q: usize = 1;
    while q < args.len() && q - 1 < placeholders.len()
        invariant
            tree.wf(b),
            b == utf8(source@),
            t == tree.nodes@,
            1 <= q <= args@.len(),
            args@.len() == ga.len(),
            forall|m: int| 0 <= m < args@.len() ==> (#[trigger] args@[m]) as int == ga[m] && args@[m] < t.len(),
            q - 1 <= placeholders@.len(),
            var_models(vars@) == Seq::new((q - 1) as nat, |m: int| arg_var(t, b, ga[m + 1])),
        decreases args@.len() - q,
    {
        let c = args[q];
        proof {
            assert(node_wf(t, c as int, b));
        }
        let sp = Span { start: tree.nodes[c].start as u32, end: tree.nodes[c].end as u32 };
        let exp = tree.text_of(c, source);
        let ghost before = var_models(vars@);
        vars.push(PromptVar { exp, span: SpanShape { outer: sp, inner: sp } });
        proof {
            assert(c as int == ga[q as int]);
            assert(var_models(vars@) =~= before.push(arg_var(t, b, c as int)));
            assert(var_models(vars@) =~= Seq::new(q as nat, |m: int| arg_var(t, b, ga[m + 1])));
        }
        q = q + 1;
    }
    let nv = vars.len();
    let blen = fie - fis;
    let mut content: Vec<PromptContentToken> = Vec::new();
    let mut pos: usize = 0;
    let mut j: usize = 0;
    while j < placeholders.len()
        invariant
            j <= ph.len(),
            placeholders@.len() == ph.len(),
            forall|m: int| 0 <= m < placeholders@.len() ==> (#[trigger] placeholders@[m]).0 as int == ph[m].0 && placeholders@[m].1 as int == ph[m].1,
            forall|m: int| 0 <= m < ph.len() ==> 0 <= #[trigger] ph[m].0 < ph[m].1 <= fc.len(),
            fc.len() <= blen,
            blen == fie - fis,
            fie <= b.len(),
            b.len() < u32::MAX,
            pos <= fc.len(),
            j > 0 ==> pos as int == ph[j - 1].1,
            content@ + printf_tokens(ph, j as int, pos as int, nv as int, fis as int, fie as int, blen as int) == printf_tokens(
                ph,
                0,
                0,
                nv as int,
                fis as int,
                fie as int,
                blen as int,
            ),
        decreases ph.len() - j,
    {
        let (s, e) = placeholders[j];
        let ghost before = content@;
        let ghost pos0 = pos;
        if pos < s {
            content.push(PromptContentToken::Str { span: Span { start: (fis + pos) as u32, end: (fis + s) as u32 } });
        }
        if j < nv {
            content.push(PromptContentToken::Var { span: Span { start: (fis + s) as u32, end: (fis + e) as u32 }, index: 0 });
        }
        pos = e;
        assert(content@ + printf_tokens(ph, j + 1, pos as int, nv as int, fis as int, fie as int, blen as int) =~= before
            + printf_tokens(ph, j as int, pos0 as int, nv as int, fis as int, fie as int, blen as int));
        j = j + 1;
    }
    if pos < blen {
        content.push(PromptContentToken::Str { span: Span { start: (fis + pos) as u32, end: fs.inner.end } });
    }
    assert(content@ =~= printf_tokens(ph, 0, 0, nv as int, fis as int, fie as int, blen as int));
    let es = enclosure_start_exec(comments, stmt_start, Ghost(ctx));
    let span = SpanShape { outer: Span { start: tree.nodes[k].start as u32, end: tree.nodes[k].end as u32 }, inner: fs.inner };
    let joint = SpanShape { outer: Span { start: 0, end: 0 }, inner: Span { start: 0, end: 0 } };
    let p = build_prompt(source, filename, span, vars, annotations, content, joint, es, stmt_end);
    Some(p)
}

/// Whether `st2` keeps the scope depth of `st` and extends its prompts:
/// those of `st` come first in `st2`, unchanged and in order.
pub open spec fn keeps(st: DetectState, st2: DetectState) -> bool {
    &&& st2.scopes.len() == st.scopes.len()
    &&& st2.prompts.len() >= st.prompts.len()
    &&& st2.prompts.subrange(0, st.prompts.len() as int) == st.prompts
}

pub proof fn lemma_keeps_refl(a: DetectState)
    ensures
        keeps(a, a),
{
    assert(a.prompts.subrange(0, a.prompts.len() as int) =~= a.prompts);
}

pub proof fn lemma_keeps_trans(a: DetectState, b: DetectState, c: DetectState)
    requires
        keeps(a, b),
        keeps(b, c),
    ensures
        keeps(a, c),
{
    assert(c.prompts.subrange(0, a.prompts.len() as int) =~= c.prompts.subrange(0, b.prompts.len() as int).subrange(0, a.prompts.len() as int));
}

/// Marking, storing and adding a prompt keep the scope depth and the
/// prompts found before.
pub proof fn lemma_step_keeps(st: DetectState, k: Seq<char>, a: Seq<AnnotationModel>, p: PromptModel, o: Option<PromptModel>)
    requires
        st.scopes.len() >= 1,
    ensures
        keeps(st, st.mark(k)),
        keeps(st, st.store(k, a)),
        keeps(st, st.push(p)),
        keeps(st, st.push_some(o)),
{
    lemma_keeps_refl(st);
    assert(st.push(p).prompts.subrange(0, st.prompts.len() as int) =~= st.prompts);
    if let Some(x) = o {
        assert(st.push(x).prompts.subrange(0, st.prompts.len() as int) =~= st.prompts);
    }
}

/// Declaring an identifier, and then adding a prompt, keep the scope depth
/// and the prompts found before.
pub proof fn lemma_declared_keeps(st: DetectState, ident: Seq<char>, has_ann: bool, ann: Seq<AnnotationModel>, p: PromptModel, o: Option<PromptModel>)
    requires
        st.scopes.len() >= 1,
    ensures
        keeps(st, declared(st, ident, has_ann, ann)),
        keeps(st, declared(st, ident, has_ann, ann).push(p)),
        keeps(st, declared(st, ident, has_ann, ann).push_some(o)),
{
    let s1 = st.mark(ident);
    lemma_step_keeps(st, ident, ann, p, o);
    lemma_step_keeps(s1, ident, ann, p, o);
    lemma_keeps_trans(st, s1, s1.store(ident, ann));
    let d = declared(st, ident, has_ann, ann);
    lemma_step_keeps(d, ident, ann, p, o);
    lemma_keeps_trans(st, d, d.push(p));
    lemma_keeps_trans(st, d, d.push_some(o));
}

/// A walk inside a scope entered and then left keeps what the walk keeps.
pub proof fn lemma_scoped_keeps(st: DetectState, c: DetectState)
    requires
        st.scopes.len() >= 1,
        keeps(st.enter(), c),
    ensures
        keeps(st, c.exit()),
{
    assert(c.exit().prompts == c.prompts);
}

impl DetectCtx {
    /// Some prompt of this file, used only to instantiate lemmas.
    pub open spec fn file_prompt(self) -> PromptModel {
        make_prompt(self, empty_shape(), seq![], seq![], seq![], empty_shape(), 0, 0)
    }
}

/// Leaving a scope just entered restores the state.
pub proof fn law_exit_undoes_enter(st: DetectState)
    requires
        st.scopes.len() >= 1,
    ensures
        st.enter().exit() == st,
{
    assert(st.enter().exit().scopes =~= st.scopes);
}

} // verus!

verus! {

/// Each variable segment at or after `j` gives its variable among
/// `segment_vars(segs, b, j)`: the text of its expression, with its ranges.
pub proof fn lemma_segment_vars_has(segs: Seq<ConcatSegment>, b: Seq<u8>, j: int, q: int, sp: SpanShape)
    requires
        0 <= j <= q < segs.len(),
        segs[q] == ConcatSegment::Variable(sp),
    ensures
        exists|m: int|
            0 <= m < segment_vars(segs, b, j).len() && #[trigger] segment_vars(segs, b, j)[m] == (VarModel {
                exp: range_text(b, sp.inner.start as int, sp.inner.end as int),
                span: sp,
            }),
    decreases q - j,
{
    let v = VarModel { exp: range_text(b, sp.inner.start as int, sp.inner.end as int), span: sp };
    if j == q {
        assert(segment_vars(segs, b, j)[0] == v);
    } else {
        lemma_segment_vars_has(segs, b, j + 1, q, sp);
        let m = choose|m: int| 0 <= m < segment_vars(segs, b, j + 1).len() && #[trigger] segment_vars(segs, b, j + 1)[m] == v;
        match segs[j] {
            ConcatSegment::Variable(x) => {
                assert(segment_vars(segs, b, j)[m + 1] == v);
            },
            _ => {
                assert(segment_vars(segs, b, j)[m] == v);
            },
        }
    }
}

/// Whether node `k` is an operand of the concatenation at node `i` made of
/// `bin` nodes with operator `op`: `i` itself when `i` is no such node,
/// else an operand of its left or of its right side.
pub open spec fn concat_operand(t: Seq<SyntaxNode>, b: Seq<u8>, bin: Seq<char>, op: Seq<char>, i: int, k: int) -> bool
    decreases i,
{
    if !(0 <= i < t.len()) {
        false
    } else if t[i].kind@ == bin && (field_child(t, i, "operator"@) matches Some(o) && 0 <= o < t.len() && node_text(
        t,
        o,
        b,
    ) == op) {
        (field_child(t, i, "left"@) matches Some(l) && 0 <= l < i && concat_operand(t, b, bin, op, l, k)) || (
        field_child(t, i, "right"@) matches Some(r) && 0 <= r < i && concat_operand(t, b, bin, op, r, k))
    } else {
        k == i
    }
}

} // verus!

verus! {

/// How many of the placeholders `j..ph.len()` have an index below `nv`.
pub open spec fn placeholders_with_var(len: int, j: int, nv: int) -> int {
    if nv <= j {
        0
    } else if nv >= len {
        len - j
    } else {
        nv - j
    }
}

/// The content of a format string has one variable token per placeholder
/// that has a variable.
pub proof fn lemma_printf_var_count(ph: Seq<(int, int)>, j: int, pos: int, nv: int, fis: int, fie: int, blen: int)
    requires
        0 <= j <= ph.len(),
    ensures
        crate::types::var_count(printf_tokens(ph, j, pos, nv, fis, fie, blen)) == placeholders_with_var(ph.len() as int, j, nv),
    decreases ph.len() - j,
{
    let toks = printf_tokens(ph, j, pos, nv, fis, fie, blen);
    if j < ph.len() {
        let s = ph[j].0;
        let e = ph[j].1;
        let before = if pos < s {
            seq![PromptContentToken::Str { span: Span { start: (fis + pos) as u32, end: (fis + s) as u32 } }]
        } else {
            seq![]
        };
        let var = if j < nv {
            seq![PromptContentToken::Var { span: Span { start: (fis + s) as u32, end: (fis + e) as u32 }, index: 0 }]
        } else {
            seq![]
        };
        let rest = printf_tokens(ph, j + 1, e, nv, fis, fie, blen);
        lemma_printf_var_count(ph, j + 1, e, nv, fis, fie, blen);
        crate::types::lemma_var_count_append(before + var, rest);
        crate::types::lemma_var_count_append(before, var);
        assert(crate::types::var_count(before) == 0) by {
            reveal_with_fuel(crate::types::var_count, 2);
            if pos < s {
                assert(before.drop_last() =~= Seq::<PromptContentToken>::empty());
            }
        }
        assert(crate::types::var_count(var) == if j < nv { 1int } else { 0int }) by {
            reveal_with_fuel(crate::types::var_count, 2);
            if j < nv {
                assert(var.drop_last() =~= Seq::<PromptContentToken>::empty());
            }
        }
    } else {
        assert(crate::types::var_count(toks) == 0) by {
            reveal_with_fuel(crate::types::var_count, 2);
            if pos < blen {
                assert(toks.drop_last() =~= Seq::<PromptContentToken>::empty());
            }
        }
    }
}

} // verus!

verus! {

/// A printf-style prompt has one variable per argument after the format,
/// up to the number of placeholders of the format: the `q`-th variable is
/// the `q`-th argument after the format, over that node's range with its
/// text; and its content has one variable token per variable.
pub proof fn law_format_vars_are_arguments(
    ctx: DetectCtx,
    k: int,
    fs: SpanShape,
    args: Seq<int>,
    ann: Seq<AnnotationModel>,
    ss: u32,
    se: u32,
)
    requires
        args.len() >= 1,
    ensures
        format_prompt(ctx, k, fs, args, ann, ss, se) matches Some(p) ==> {
            let ph = placeholders_from(range_text(ctx.b, fs.inner.start as int, fs.inner.end as int), 0);
            &&& p.vars.len() == (if args.len() - 1 < ph.len() { args.len() - 1 } else { ph.len() as int })
            &&& forall|q: int|
                0 <= q < p.vars.len() ==> (#[trigger] p.vars[q]).span.outer == (Span {
                    start: ctx.t[args[q + 1]].start as u32,
                    end: ctx.t[args[q + 1]].end as u32,
                }) && p.vars[q].span.inner == p.vars[q].span.outer && p.vars[q].exp == node_text(ctx.t, args[q + 1], ctx.b)
            &&& crate::types::var_count(p.content) == p.vars.len()
        },
{
    if format_prompt(ctx, k, fs, args, ann, ss, se) is Some {
        let b = ctx.b;
        let ph = placeholders_from(range_text(b, fs.inner.start as int, fs.inner.end as int), 0);
        let nv = if args.len() - 1 < ph.len() { args.len() - 1 } else { ph.len() as int };
        let content = printf_tokens(ph, 0, 0, nv, fs.inner.start as int, fs.inner.end as int, fs.inner.end - fs.inner.start);
        lemma_printf_var_count(ph, 0, 0, nv, fs.inner.start as int, fs.inner.end as int, fs.inner.end - fs.inner.start);
        crate::types::lemma_numbered_counts(content);
    }
}

} // verus!
