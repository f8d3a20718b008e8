//! The data model of detected prompts.
use vstd::prelude::*;

verus! {

/// A half-open byte range `[start, end)` in a source text.
#[derive(Clone, Copy, Debug, PartialEq, Eq, Structural)]
pub struct Span {
    pub start: u32,
    pub end: u32,
}

/// The outer range of an expression (delimiters included) and its inner
/// range (delimiters excluded).
#[derive(Clone, Copy, Debug, PartialEq, Eq, Structural)]
pub struct SpanShape {
    pub outer: Span,
    pub inner: Span,
}

/// A variable interpolated into a prompt, with its text and ranges.
#[derive(Clone, Debug, PartialEq, Eq)]
pub struct PromptVar {
    pub exp: String,
    pub span: SpanShape,
}

/// The value of a `PromptVar`.
pub struct VarModel {
    pub exp: Seq<char>,
    pub span: SpanShape,
}

impl View for PromptVar {
    type V = VarModel;

    open spec fn view(&self) -> VarModel {
        VarModel { exp: self.exp@, span: self.span }
    }
}

/// The values of a sequence of variables.
pub open spec fn var_models(s: Seq<PromptVar>) -> Seq<VarModel> {
    s.map_values(|v: PromptVar| v@)
}

/// A piece of a prompt's content: literal text, a variable, or the joint
/// that separates joined elements. A variable token's `index` is the
/// position of that variable among the variable tokens of its content.
#[derive(Clone, Copy, Debug, PartialEq, Eq, Structural)]
pub enum PromptContentToken {
    Str { span: Span },
    Var { span: Span, index: u32 },
    Joint,
}

/// The number of variable tokens in `s`.
pub open spec fn var_count(s: Seq<PromptContentToken>) -> nat
    decreases s.len(),
{
    if s.len() == 0 {
        0
    } else {
        var_count(s.drop_last()) + if s.last() is Var { 1nat } else { 0nat }
    }
}

/// The token `t`, numbered `n` when it is a variable token.
pub open spec fn number_token(t: PromptContentToken, n: nat) -> PromptContentToken {
    match t {
        PromptContentToken::Var { span, .. } => PromptContentToken::Var { span, index: n as u32 },
        _ => t,
    }
}

/// The tokens `s` with each variable token numbered by how many variable
/// tokens come before it.
pub open spec fn numbered(s: Seq<PromptContentToken>) -> Seq<PromptContentToken>
    decreases s.len(),
{
    if s.len() == 0 {
        seq![]
    } else {
        numbered(s.drop_last()).push(number_token(s.last(), var_count(s.drop_last())))
    }
}

/// Numbers the variable tokens of `content` in order: the first is 0, the
/// next 1, and so on; the other tokens are kept.
pub fn number_vars(content: Vec<PromptContentToken>) -> (r: Vec<PromptContentToken>)
    ensures
        r@ == numbered(content@),
{
    let mut out: Vec<PromptContentToken> = Vec::new();
    let mut count: usize = 0;
    let mut i: usize = 0;
    while i < content.len()
        invariant
            i <= content@.len(),
            count <= i,
            out@ == numbered(content@.take(i as int)),
            count == var_count(content@.take(i as int)),
        decreases content@.len() - i,
    {
        let t = content[i];
        assert(content@.take(i + 1).drop_last() =~= content@.take(i as int));
        let u = match t {
            PromptContentToken::Var { span, .. } => {
                PromptContentToken::Var { span, index: count as u32 }
            },
            _ => t,
        };
        out.push(u);
        if let PromptContentToken::Var { .. } = t {
            count = count + 1;
        }
        i = i + 1;
    }
    assert(content@.take(content@.len() as int) =~= content@);
    out
}

/// A prompt found in a source file.
#[derive(Clone, Debug, PartialEq, Eq)]
pub struct Prompt {
    pub file: String,
    pub span: SpanShape,
    pub enclosure: Span,
    /// The source text of the outer span.
    pub exp: String,
    pub vars: Vec<PromptVar>,
    pub annotations: Vec<PromptAnnotation>,
    pub content: Vec<PromptContentToken>,
    pub joint: SpanShape,
}

/// The value of a `Prompt`.
pub struct PromptModel {
    pub file: Seq<char>,
    pub span: SpanShape,
    pub enclosure: Span,
    pub exp: Seq<char>,
    pub vars: Seq<VarModel>,
    pub annotations: Seq<AnnotationModel>,
    pub content: Seq<PromptContentToken>,
    pub joint: SpanShape,
}

impl View for Prompt {
    type V = PromptModel;

    open spec fn view(&self) -> PromptModel {
        PromptModel {
            file: self.file@,
            span: self.span,
            enclosure: self.enclosure,
            exp: self.exp@,
            vars: var_models(self.vars@),
            annotations: annotation_models(self.annotations@),
            content: self.content@,
            joint: self.joint,
        }
    }
}

/// The values of a sequence of prompts.
pub open spec fn prompt_models(s: Seq<Prompt>) -> Seq<PromptModel> {
    s.map_values(|p: Prompt| p@)
}

/// The outcome of parsing a source file for prompts.
#[derive(Clone, Debug, PartialEq, Eq)]
pub enum ParseResult {
    ParseResultSuccess { prompts: Vec<Prompt> },
    ParseResultError { error: String },
}

/// The span shape with both ranges empty at offset 0.
pub open spec fn empty_shape() -> SpanShape {
    SpanShape { outer: Span { start: 0, end: 0 }, inner: Span { start: 0, end: 0 } }
}

/// A comment marked as a prompt annotation, with its range and text.
#[derive(Clone, Debug, PartialEq, Eq)]
pub struct PromptAnnotation {
    pub span: Span,
    pub exp: String,
}

/// The value of a `PromptAnnotation`: its range and the characters of its text.
pub struct AnnotationModel {
    pub span: Span,
    pub exp: Seq<char>,
}

impl View for PromptAnnotation {
    type V = AnnotationModel;

    open spec fn view(&self) -> AnnotationModel {
        AnnotationModel { span: self.span, exp: self.exp@ }
    }
}

/// The values of a sequence of annotations.
pub open spec fn annotation_models(s: Seq<PromptAnnotation>) -> Seq<AnnotationModel> {
    s.map_values(|a: PromptAnnotation| a@)
}

impl PromptAnnotation {
    /// A copy of the annotation.
    pub fn duplicate(&self) -> (r: PromptAnnotation)
        ensures
            r == *self,
    {
        PromptAnnotation { span: self.span, exp: self.exp.clone() }
    }
}

/// A copy of a list of annotations.
pub fn duplicate_annotations(v: &Vec<PromptAnnotation>) -> (r: Vec<PromptAnnotation>)
    ensures
        r@ == v@,
{
    let mut r: Vec<PromptAnnotation> = Vec::new();
    let mut i: usize = 0;
    while i < v.len()
        invariant
            i <= v@.len(),
            r@ == v@.subrange(0, i as int),
        decreases v@.len() - i,
    {
        r.push(v[i].duplicate());
        i = i + 1;
    }
    assert(v@.subrange(0, v@.len() as int) =~= v@);
    r
}

} // verus!

verus! {

/// The variable tokens of two token sequences add up when they are joined.
pub proof fn lemma_var_count_append(a: Seq<PromptContentToken>, b: Seq<PromptContentToken>)
    ensures
        var_count(a + b) == var_count(a) + var_count(b),
    decreases b.len(),
{
    if b.len() == 0 {
        assert(a + b =~= a);
    } else {
        assert((a + b).drop_last() =~= a + b.drop_last());
        assert((a + b).last() == b.last());
        lemma_var_count_append(a, b.drop_last());
    }
}

/// Numbering keeps the tokens' count and the number of variable tokens.
pub proof fn lemma_numbered_counts(s: Seq<PromptContentToken>)
    ensures
        numbered(s).len() == s.len(),
        var_count(numbered(s)) == var_count(s),
    decreases s.len(),
{
    if s.len() > 0 {
        lemma_numbered_counts(s.drop_last());
        let n = numbered(s);
        assert(n.drop_last() =~= numbered(s.drop_last()));
    }
}

} // verus!

verus! {

/// Numbering keeps each variable token where it is, with its span.
pub proof fn lemma_numbered_var_at(s: Seq<PromptContentToken>, q: int, sp: Span)
    requires
        0 <= q < s.len(),
        s[q] matches PromptContentToken::Var { span, .. } && span == sp,
    ensures
        numbered(s)[q] matches PromptContentToken::Var { span, .. } && span == sp,
    decreases s.len(),
{
    lemma_numbered_counts(s.drop_last());
    if q < s.len() - 1 {
        assert(s.drop_last()[q] == s[q]);
        lemma_numbered_var_at(s.drop_last(), q, sp);
        assert(numbered(s)[q] == numbered(s.drop_last())[q]);
    }
}

} // verus!
