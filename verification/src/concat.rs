//! `+` concatenations of string literals and operands: widening an
//! operand's range over the `+` operators around it, and the span,
//! variables and content tokens of a concatenation made of text, variable
//! and primitive segments.
use crate::detect::ConcatSegment;
use crate::expr::is_blank_byte;
use crate::text::{range_string, range_text, utf8, valid_range};
use crate::types::{var_models, PromptContentToken, PromptVar, Span, SpanShape, VarModel};
use vstd::prelude::*;

verus! {

/// Scanning back from `i` over spaces and tabs, no further than `lo`: where
/// the blanks before `i` start.
pub open spec fn blanks_back(b: Seq<u8>, lo: int, i: int) -> int
    decreases i,
{
    if i > lo && 0 < i <= b.len() && is_blank_byte(b[i - 1]) {
        blanks_back(b, lo, i - 1)
    } else {
        i
    }
}

/// Scanning back from `i` over spaces and tabs, no further than `lo`: when
/// a `+` comes first, where it starts together with the blanks before it.
pub open spec fn plus_before(b: Seq<u8>, lo: int, i: int) -> Option<int>
    decreases i,
{
    if i <= lo || i <= 0 || i > b.len() {
        None
    } else if b[i - 1] == 43u8 {
        Some(blanks_back(b, lo, i - 1))
    } else if is_blank_byte(b[i - 1]) {
        plus_before(b, lo, i - 1)
    } else {
        None
    }
}

/// Scanning forward from `i` over spaces and tabs, short of `hi`: where the
/// blanks at `i` end.
pub open spec fn blanks_fwd(b: Seq<u8>, hi: int, i: int) -> int
    decreases hi - i,
{
    if 0 <= i < hi && i < b.len() && is_blank_byte(b[i]) {
        blanks_fwd(b, hi, i + 1)
    } else {
        i
    }
}

/// Scanning forward from `i` over spaces and tabs, short of `hi`: when a
/// `+` comes first, where it ends together with the blanks after it.
pub open spec fn plus_after(b: Seq<u8>, hi: int, i: int) -> Option<int>
    decreases hi - i,
{
    if i < 0 || i >= hi || i >= b.len() {
        None
    } else if b[i] == 43u8 {
        Some(blanks_fwd(b, hi, i + 1))
    } else if is_blank_byte(b[i]) {
        plus_after(b, hi, i + 1)
    } else {
        None
    }
}

/// The range `sp` widened over the `+` operators around it, within
/// `[lo, hi)`.
pub open spec fn plus_expanded(b: Seq<u8>, lo: u32, hi: u32, sp: Span) -> Span {
    Span {
        start: match plus_before(b, lo as int, sp.start as int) {
            Some(p) => p as u32,
            None => sp.start,
        },
        end: match plus_after(b, hi as int, sp.end as int) {
            Some(p) => p as u32,
            None => sp.end,
        },
    }
}

/// Where the blanks before `i` start, no further back than `lo`.
fn blanks_back_exec(bytes: &[u8], lo: usize, i: usize) -> (r: usize)
    ensures
        r == blanks_back(bytes@, lo as int, i as int),
        r <= i,
{
    let mut j = i;
    while j > lo && 0 < j && j <= bytes.len() && (bytes[j - 1] == 32u8 || bytes[j - 1] == 9u8)
        invariant
            j <= i,
            blanks_back(bytes@, lo as int, i as int) == blanks_back(bytes@, lo as int, j as int),
        decreases j,
    {
        j = j - 1;
    }
    j
}

/// Where the blanks at `i` end, short of `hi`.
fn blanks_fwd_exec(bytes: &[u8], hi: usize, i: usize) -> (r: usize)
    ensures
        r == blanks_fwd(bytes@, hi as int, i as int),
        i <= r,
        r <= bytes@.len() || r == i,
{
    let mut j = i;
    while j < hi && j < bytes.len() && (bytes[j] == 32u8 || bytes[j] == 9u8)
        invariant
            i <= j,
            j <= bytes@.len() || j == i,
            blanks_fwd(bytes@, hi as int, i as int) == blanks_fwd(bytes@, hi as int, j as int),
        decreases hi - j,
    {
        j = j + 1;
    }
    j
}

/// Expand variable span to include surrounding operators
pub fn expand_to_operators(var_span: Span, source: &str, prompt_outer: Span) -> (r: Span)
    requires
        utf8(source@).len() < u32::MAX,
    ensures
        r == plus_expanded(utf8(source@), prompt_outer.start, prompt_outer.end, var_span),
{
    let ghost b = utf8(source@);
    let bytes = source.as_bytes();
    let lo = prompt_outer.start as usize;
    let hi = prompt_outer.end as usize;
    let mut new_start = var_span.start;
    let mut i = var_span.start as usize;
    while i > lo && i > 0 && i <= bytes.len()
        invariant_except_break
            new_start == var_span.start,
        invariant
            b == bytes@,
            b.len() < u32::MAX,
            plus_before(b, lo as int, var_span.start as int) == plus_before(b, lo as int, i as int),
        ensures
            new_start == (match plus_before(b, lo as int, var_span.start as int) {
                Some(p) => p as u32,
                None => var_span.start,
            }),
        decreases i,
    {
        let c = bytes[i - 1];
        if c == 43u8 {
            let p = blanks_back_exec(bytes, lo, i - 1);
            new_start = p as u32;
            break;
        } else if c == 32u8 || c == 9u8 {
            i = i - 1;
        } else {
            break;
        }
    }
    let mut new_end = var_span.end;
    let mut i = var_span.end as usize;
    while i < hi && i < bytes.len()
        invariant_except_break
            new_end == var_span.end,
        invariant
            b == bytes@,
            b.len() < u32::MAX,
            plus_after(b, hi as int, var_span.end as int) == plus_after(b, hi as int, i as int),
        ensures
            new_end == (match plus_after(b, hi as int, var_span.end as int) {
                Some(p) => p as u32,
                None => var_span.end,
            }),
        decreases hi - i,
    {
        let c = bytes[i];
        if c == 43u8 {
            let p = blanks_fwd_exec(bytes, hi, i + 1);
            new_end = p as u32;
            break;
        } else if c == 32u8 || c == 9u8 {
            i = i + 1;
        } else {
            break;
        }
    }
    Span { start: new_start, end: new_end }
}

/// Whether every variable and primitive segment's inner range covers whole
/// characters of `b`.
pub open spec fn operands_ranged(segs: Seq<ConcatSegment>, b: Seq<u8>) -> bool {
    forall|q: int|
        0 <= q < segs.len() ==> match #[trigger] segs[q] {
            ConcatSegment::Variable(sp) => valid_range(b, sp.inner.start as int, sp.inner.end as int),
            ConcatSegment::Primitive(sp) => valid_range(b, sp.inner.start as int, sp.inner.end as int),
            _ => true,
        }
}

/// Whether some segment is text.
pub open spec fn has_text(segs: Seq<ConcatSegment>) -> bool {
    exists|q: int| 0 <= q < segs.len() && segs[q] is Text
}

/// Whether some segment is neither text, variable nor primitive.
pub open spec fn has_other(segs: Seq<ConcatSegment>) -> bool {
    exists|q: int| 0 <= q < segs.len() && segs[q] is Other
}

/// Where the first text segment from the `j`-th on starts its inner range.
pub open spec fn first_text_start(segs: Seq<ConcatSegment>, j: int) -> u32
    decreases segs.len() - j,
{
    if 0 <= j < segs.len() {
        match segs[j] {
            ConcatSegment::Text(sp) => sp.inner.start,
            _ => first_text_start(segs, j + 1),
        }
    } else {
        0
    }
}

/// Where the last text segment among the first `n` ends its inner range.
pub open spec fn last_text_end(segs: Seq<ConcatSegment>, n: int) -> u32
    decreases n,
{
    if 0 < n <= segs.len() {
        match segs[n - 1] {
            ConcatSegment::Text(sp) => sp.inner.end,
            _ => last_text_end(segs, n - 1),
        }
    } else {
        0
    }
}

/// The content token of a segment: text over a string's inner range, a
/// variable over a variable's or primitive's range.
pub open spec fn operand_token(seg: ConcatSegment) -> PromptContentToken {
    match seg {
        ConcatSegment::Text(sp) => PromptContentToken::Str { span: sp.inner },
        ConcatSegment::Variable(sp) => PromptContentToken::Var { span: sp.inner, index: 0 },
        ConcatSegment::Primitive(sp) => PromptContentToken::Var { span: sp.inner, index: 0 },
        ConcatSegment::Other => PromptContentToken::Str { span: Span { start: 0, end: 0 } },
    }
}

/// The variables of the segments `segs[j..]` of a concatenation over
/// `[lo, hi)`: one per variable or primitive segment, with the text of its
/// expression, its outer range widened over the `+` operators around it.
pub open spec fn operand_vars(segs: Seq<ConcatSegment>, b: Seq<u8>, lo: u32, hi: u32, j: int) -> Seq<VarModel>
    decreases segs.len() - j,
{
    if 0 <= j < segs.len() {
        let own = match segs[j] {
            ConcatSegment::Variable(sp) => seq![
                VarModel {
                    exp: range_text(b, sp.inner.start as int, sp.inner.end as int),
                    span: SpanShape { outer: plus_expanded(b, lo, hi, sp.outer), inner: sp.inner },
                },
            ],
            ConcatSegment::Primitive(sp) => seq![
                VarModel {
                    exp: range_text(b, sp.inner.start as int, sp.inner.end as int),
                    span: SpanShape { outer: plus_expanded(b, lo, hi, sp.outer), inner: sp.inner },
                },
            ],
            _ => seq![],
        };
        own + operand_vars(segs, b, lo, hi, j + 1)
    } else {
        seq![]
    }
}


/// The span shape of a concatenation over `[lo, hi)` made of the segments
/// `segs`: its inner range runs from the first text segment's inner start
/// to the last text segment's inner end.
pub open spec fn operands_shape(segs: Seq<ConcatSegment>, lo: u32, hi: u32) -> SpanShape {
    SpanShape {
        outer: Span { start: lo, end: hi },
        inner: Span { start: first_text_start(segs, 0), end: last_text_end(segs, segs.len() as int) },
    }
}

/// Whether the segments can make a prompt: one of them is text, and each
/// is text, a variable or a primitive.
pub fn operands_acceptable(segs: &Vec<ConcatSegment>) -> (r: bool)
    ensures
        r == (has_text(segs@) && !has_other(segs@)),
{
    let ghost sg = segs@;
    let mut has_string = false;
    let mut j: usize = 0;
    while j < segs.len()
        invariant
            sg == segs@,
            j <= sg.len(),
            forall|q: int| 0 <= q < j ==> !(#[trigger] sg[q] is Other),
            has_string == (exists|q: int| 0 <= q < j && #[trigger] sg[q] is Text),
        decreases sg.len() - j,
    {
        match segs[j] {
            ConcatSegment::Other => {
                assert(sg[j as int] is Other);
                assert(has_other(sg));
                return false;
            },
            ConcatSegment::Text(_) => {
                assert(sg[j as int] is Text);
                has_string = true;
            },
            _ => {},
        }
        j = j + 1;
    }
    has_string
}

/// The span, variables and content tokens of the concatenation over `outer`
/// made of the segments `segs`.
pub fn build_concat_parts(segs: &Vec<ConcatSegment>, outer: Span, source: &str) -> (r: (SpanShape, Vec<PromptVar>, Vec<PromptContentToken>))
    requires
        operands_ranged(segs@, utf8(source@)),
        utf8(source@).len() < u32::MAX,
    ensures
        r.0 == operands_shape(segs@, outer.start, outer.end),
        var_models(r.1@) == operand_vars(segs@, utf8(source@), outer.start, outer.end, 0),
        r.2@ == segs@.map_values(|g: ConcatSegment| operand_token(g)),
{
    let ghost sg = segs@;
    let ghost b = utf8(source@);
    let lo = outer.start;
    let hi = outer.end;
    let mut first: u32 = 0;
    let mut j: usize = 0;
    while j < segs.len()
        invariant_except_break
            first == 0,
        invariant
            sg == segs@,
            j <= sg.len(),
            first_text_start(sg, 0) == first_text_start(sg, j as int),
        ensures
            first == first_text_start(sg, 0),
        decreases sg.len() - j,
    {
        if let ConcatSegment::Text(sp) = segs[j] {
            first = sp.inner.start;
            break;
        }
        j = j + 1;
    }
    let mut last: u32 = 0;
    let mut n: usize = segs.len();
    while n > 0
        invariant_except_break
            last == 0,
        invariant
            sg == segs@,
            n <= sg.len(),
            last_text_end(sg, sg.len() as int) == last_text_end(sg, n as int),
        ensures
            last == last_text_end(sg, sg.len() as int),
        decreases n,
    {
        if let ConcatSegment::Text(sp) = segs[n - 1] {
            last = sp.inner.end;
            break;
        }
        n = n - 1;
    }
    let span = SpanShape { outer, inner: Span { start: first, end: last } };
    let mut vars: Vec<PromptVar> = Vec::new();
    let mut content: Vec<PromptContentToken> = Vec::new();
    let mut j: usize = 0;
    while j < segs.len()
        invariant
            sg == segs@,
            j <= sg.len(),
            operands_ranged(sg, b),
            b == utf8(source@),
            b.len() < u32::MAX,
            outer == (Span { start: lo, end: hi }),
            var_models(vars@) + operand_vars(sg, b, lo, hi, j as int) == operand_vars(sg, b, lo, hi, 0),
            content@ == sg.subrange(0, j as int).map_values(|g: ConcatSegment| operand_token(g)),
        decreases sg.len() - j,
    {
        let ghost before = var_models(vars@);
        let seg = segs[j];
        assert(seg == sg[j as int]);
        match seg {
            ConcatSegment::Variable(sp) => {
                let exp = range_string(source, sp.inner.start as usize, sp.inner.end as usize);
                let widened = expand_to_operators(sp.outer, source, outer);
                let v = PromptVar { exp, span: SpanShape { outer: widened, inner: sp.inner } };
                assert(operand_vars(sg, b, lo, hi, j as int) == seq![v@] + operand_vars(sg, b, lo, hi, j + 1));
                vars.push(v);
                content.push(PromptContentToken::Var { span: sp.inner, index: 0 });
            },
            ConcatSegment::Primitive(sp) => {
                let exp = range_string(source, sp.inner.start as usize, sp.inner.end as usize);
                let widened = expand_to_operators(sp.outer, source, outer);
                let v = PromptVar { exp, span: SpanShape { outer: widened, inner: sp.inner } };
                assert(operand_vars(sg, b, lo, hi, j as int) == seq![v@] + operand_vars(sg, b, lo, hi, j + 1));
                vars.push(v);
                content.push(PromptContentToken::Var { span: sp.inner, index: 0 });
            },
            ConcatSegment::Text(sp) => {
                content.push(PromptContentToken::Str { span: sp.inner });
            },
            ConcatSegment::Other => {
                content.push(PromptContentToken::Str { span: Span { start: 0, end: 0 } });
            },
        }
        assert(var_models(vars@) + operand_vars(sg, b, lo, hi, j + 1) =~= before + operand_vars(sg, b, lo, hi, j as int));
        assert(sg.subrange(0, j + 1).map_values(|g: ConcatSegment| operand_token(g)) =~= sg.subrange(0, j as int).map_values(
            |g: ConcatSegment| operand_token(g),
        ).push(operand_token(sg[j as int])));
        j = j + 1;
    }
    assert(sg.subrange(0, sg.len() as int) =~= sg);
    assert(var_models(vars@) =~= operand_vars(sg, b, lo, hi, 0));
    (span, vars, content)
}

proof fn lemma_blanks_back_bounds(b: Seq<u8>, lo: int, i: int)
    requires
        lo <= i,
    ensures
        lo <= blanks_back(b, lo, i) <= i,
    decreases i,
{
    if i > lo && 0 < i <= b.len() && is_blank_byte(b[i - 1]) {
        lemma_blanks_back_bounds(b, lo, i - 1);
    }
}

proof fn lemma_plus_before_bounds(b: Seq<u8>, lo: int, i: int)
    requires
        lo <= i,
    ensures
        plus_before(b, lo, i) matches Some(p) ==> lo <= p < i,
    decreases i,
{
    if !(i <= lo || i <= 0 || i > b.len()) {
        if b[i - 1] == 43u8 {
            lemma_blanks_back_bounds(b, lo, i - 1);
        } else if is_blank_byte(b[i - 1]) {
            lemma_plus_before_bounds(b, lo, i - 1);
        }
    }
}

proof fn lemma_blanks_fwd_bounds(b: Seq<u8>, hi: int, i: int)
    requires
        i <= hi,
    ensures
        i <= blanks_fwd(b, hi, i) <= hi,
    decreases hi - i,
{
    if 0 <= i < hi && i < b.len() && is_blank_byte(b[i]) {
        lemma_blanks_fwd_bounds(b, hi, i + 1);
    }
}

proof fn lemma_plus_after_bounds(b: Seq<u8>, hi: int, i: int)
    requires
        i <= hi,
    ensures
        plus_after(b, hi, i) matches Some(p) ==> i < p <= hi,
    decreases hi - i,
{
    if !(i < 0 || i >= hi || i >= b.len()) {
        if b[i] == 43u8 {
            lemma_blanks_fwd_bounds(b, hi, i + 1);
        } else if is_blank_byte(b[i]) {
            lemma_plus_after_bounds(b, hi, i + 1);
        }
    }
}

/// Widening an operand's range over the `+` operators around it stays
/// within the concatenation: the widened range holds the operand's range
/// and lies within `[lo, hi)`.
pub proof fn law_widening_stays_within(b: Seq<u8>, lo: u32, hi: u32, sp: Span)
    requires
        lo <= sp.start <= sp.end <= hi,
    ensures
        lo <= plus_expanded(b, lo, hi, sp).start <= sp.start,
        sp.end <= plus_expanded(b, lo, hi, sp).end <= hi,
{
    lemma_plus_before_bounds(b, lo as int, sp.start as int);
    lemma_plus_after_bounds(b, hi as int, sp.end as int);
}

} // verus!

verus! {

/// Each variable segment at or after `j` gives a variable among
/// `operand_vars(segs, b, lo, hi, j)` with the segment's inner range and
/// the text of that range.
pub proof fn lemma_operand_vars_has(segs: Seq<ConcatSegment>, b: Seq<u8>, lo: u32, hi: u32, j: int, q: int, sp: SpanShape)
    requires
        0 <= j <= q < segs.len(),
        segs[q] == ConcatSegment::Variable(sp),
    ensures
        exists|m: int|
            0 <= m < operand_vars(segs, b, lo, hi, j).len() && (#[trigger] operand_vars(segs, b, lo, hi, j)[m]).span.inner
                == sp.inner && operand_vars(segs, b, lo, hi, j)[m].exp == range_text(
                b,
                sp.inner.start as int,
                sp.inner.end as int,
            ),
    decreases q - j,
{
    let own = match segs[j] {
        ConcatSegment::Variable(x) => seq![
            VarModel {
                exp: range_text(b, x.inner.start as int, x.inner.end as int),
                span: SpanShape { outer: plus_expanded(b, lo, hi, x.outer), inner: x.inner },
            },
        ],
        ConcatSegment::Primitive(x) => seq![
            VarModel {
                exp: range_text(b, x.inner.start as int, x.inner.end as int),
                span: SpanShape { outer: plus_expanded(b, lo, hi, x.outer), inner: x.inner },
            },
        ],
        _ => seq![],
    };
    let rest = operand_vars(segs, b, lo, hi, j + 1);
    assert(operand_vars(segs, b, lo, hi, j) == own + rest);
    if j == q {
        assert(operand_vars(segs, b, lo, hi, j)[0] == own[0]);
    } else {
        lemma_operand_vars_has(segs, b, lo, hi, j + 1, q, sp);
        let m = choose|m: int|
            0 <= m < rest.len() && (#[trigger] rest[m]).span.inner == sp.inner && rest[m].exp == range_text(
                b,
                sp.inner.start as int,
                sp.inner.end as int,
            );
        assert(operand_vars(segs, b, lo, hi, j)[own.len() + m] == rest[m]);
    }
}

} // verus!
