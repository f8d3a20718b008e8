//! Pieces shared by the detectors of C-like languages: widening an
//! operand's range over the operators around it, and finding the
//! placeholders of a printf-style format string.
use crate::text::{is_alphabetic, alphabetic, utf8};
use crate::types::Span;
use vstd::prelude::*;
use vstd::string::StrSliceExecFns;

verus! {

/// Whether `c` is a space or a tab.
pub open spec fn is_blank_byte(c: u8) -> bool {
    c == 32u8 || c == 9u8
}

/// Scanning back from `pos` over spaces and tabs: where an `op` found there
/// starts, taking one blank before it along; `None` when something else
/// comes first or the scan reaches offset 0.
pub open spec fn operator_before(b: Seq<u8>, pos: int, op: u8) -> Option<int>
    decreases pos,
{
    if pos <= 0 || pos >= b.len() {
        None
    } else if is_blank_byte(b[pos]) {
        operator_before(b, pos - 1, op)
    } else if b[pos] == op {
        Some(
            if is_blank_byte(b[pos - 1]) {
                pos - 1
            } else {
                pos
            },
        )
    } else {
        None
    }
}

/// Scanning forward from `pos` over spaces and tabs: where an `op` found there
/// ends, taking one blank after it along.
pub open spec fn operator_after(b: Seq<u8>, pos: int, op: u8) -> Option<int>
    decreases b.len() - pos,
{
    if pos < 0 || pos >= b.len() {
        None
    } else if is_blank_byte(b[pos]) {
        operator_after(b, pos + 1, op)
    } else if b[pos] == op {
        Some(
            if pos + 1 < b.len() && is_blank_byte(b[pos + 1]) {
                pos + 2
            } else {
                pos + 1
            },
        )
    } else {
        None
    }
}

/// The range `[start, end)` widened over the `op` operators around it.
pub open spec fn expanded_span(b: Seq<u8>, start: u32, end: u32, op: u8) -> Span {
    let s0 = if start >= 1 {
        start - 1
    } else {
        0
    };
    Span {
        start: match operator_before(b, s0, op) {
            Some(p) => p as u32,
            None => start,
        },
        end: match operator_after(b, end as int, op) {
            Some(p) => p as u32,
            None => end,
        },
    }
}

proof fn lemma_operator_before_bounds(b: Seq<u8>, pos: int, op: u8)
    ensures
        operator_before(b, pos, op) matches Some(p) ==> 0 <= p <= pos,
    decreases pos,
{
    if pos > 0 && pos < b.len() && is_blank_byte(b[pos]) {
        lemma_operator_before_bounds(b, pos - 1, op);
    }
}

proof fn lemma_operator_after_bounds(b: Seq<u8>, pos: int, op: u8)
    ensures
        operator_after(b, pos, op) matches Some(p) ==> pos < p <= b.len(),
    decreases b.len() - pos,
{
    if pos >= 0 && pos < b.len() && is_blank_byte(b[pos]) {
        lemma_operator_after_bounds(b, pos + 1, op);
    }
}

/// Widens `span` over the `op` operators and blanks around it.
pub fn expand_around_operator(span: Span, source: &str, op: u8) -> (r: Span)
    requires
        utf8(source@).len() < u32::MAX,
    ensures
        r == expanded_span(utf8(source@), span.start, span.end, op),
{
    let ghost b = utf8(source@);
    let code_bytes = source.as_bytes();
    let start = span.start;
    let end = span.end;
    let mut new_start = start;
    let mut new_end = end;
    let mut pos = start.saturating_sub(1) as usize;
    proof {
        lemma_operator_before_bounds(b, pos as int, op);
    }
    while pos > 0
        invariant_except_break
            new_start == start,
        invariant
            b == code_bytes@,
            b.len() < u32::MAX,
            operator_before(b, (if start >= 1 { start - 1 } else { 0 }) as int, op) == operator_before(b, pos as int, op),
            operator_before(b, pos as int, op) matches Some(p) ==> 0 <= p <= pos,
        ensures
            new_start == (match operator_before(b, (if start >= 1 { start - 1 } else { 0 }) as int, op) {
                Some(p) => p as u32,
                None => start,
            }),
        decreases pos,
    {
        if pos >= code_bytes.len() {
            break;
        }
        let c = code_bytes[pos];
        if c == 32u8 || c == 9u8 {
            pos = pos - 1;
            proof {
                lemma_operator_before_bounds(b, pos as int, op);
            }
        } else if c == op {
            new_start = pos as u32;
            if code_bytes[pos - 1] == 32u8 || code_bytes[pos - 1] == 9u8 {
                new_start = (pos - 1) as u32;
            }
            break;
        } else {
            break;
        }
    }
    let mut pos = end as usize;
    while pos < code_bytes.len()
        invariant_except_break
            new_end == end,
        invariant
            b == code_bytes@,
            b.len() < u32::MAX,
            operator_after(b, end as int, op) == operator_after(b, pos as int, op),
        ensures
            new_end == (match operator_after(b, end as int, op) {
                Some(p) => p as u32,
                None => end,
            }),
        decreases b.len() - pos,
    {
        let c = code_bytes[pos];
        if c == 32u8 || c == 9u8 {
            pos = pos + 1;
        } else if c == op {
            proof {
                lemma_operator_after_bounds(b, end as int, op);
            }
            new_end = (pos + 1) as u32;
            if pos + 1 < code_bytes.len() && (code_bytes[pos + 1] == 32u8 || code_bytes[pos + 1] == 9u8) {
                new_end = (pos + 2) as u32;
            }
            break;
        } else {
            break;
        }
    }
    Span { start: new_start, end: new_end }
}

/// Whether `c` may stand among the flags, width and precision of a placeholder.
pub open spec fn is_flag_char(c: char) -> bool {
    ('0' <= c && c <= '9') || c == '-' || c == '+' || c == ' ' || c == '#' || c == '.' || c == '*'
}

/// Whether `c` may stand among the flags, width and precision of a placeholder.
fn flag_char(c: char) -> (r: bool)
    ensures
        r == is_flag_char(c),
{
    ('0' <= c && c <= '9') || c == '-' || c == '+' || c == ' ' || c == '#' || c == '.' || c == '*'
}

/// The first index at or after `i` whose character is no flag character.
pub open spec fn skip_flags(c: Seq<char>, i: int) -> int
    decreases c.len() - i,
{
    if 0 <= i < c.len() && is_flag_char(c[i]) {
        skip_flags(c, i + 1)
    } else {
        i
    }
}

pub proof fn lemma_skip_flags_bounds(c: Seq<char>, i: int)
    ensures
        skip_flags(c, i) >= i,
        0 <= i <= c.len() ==> skip_flags(c, i) <= c.len(),
    decreases c.len() - i,
{
    if 0 <= i < c.len() && is_flag_char(c[i]) {
        lemma_skip_flags_bounds(c, i + 1);
    }
}

/// The placeholders of a printf-style format, from character index `i` on,
/// as half-open character ranges: a `%`, then flags, width and precision,
/// then a letter or `%`. A `%%` is skipped.
pub open spec fn placeholders_from(c: Seq<char>, i: int) -> Seq<(int, int)>
    decreases c.len() + 1 - i,
{
    if i < 0 || i >= c.len() {
        seq![]
    } else if c[i] == '%' {
        if i + 1 < c.len() && c[i + 1] == '%' {
            placeholders_from(c, i + 2)
        } else {
            proof {
                lemma_skip_flags_bounds(c, i + 1);
            }
            let j = skip_flags(c, i + 1);
            if j < c.len() && (alphabetic(c[j]) || c[j] == '%') {
                seq![(i, j + 1)] + placeholders_from(c, j + 1)
            } else {
                placeholders_from(c, j + 1)
            }
        }
    } else {
        placeholders_from(c, i + 1)
    }
}

/// Every placeholder lies in `[i, c.len()]` and they come in order.
pub proof fn lemma_placeholders_ordered(c: Seq<char>, i: int)
    requires
        0 <= i,
    ensures
        forall|q: int| 0 <= q < placeholders_from(c, i).len() ==> i <= #[trigger] placeholders_from(c, i)[q].0
            < placeholders_from(c, i)[q].1 <= c.len(),
        forall|q: int| 0 < q < placeholders_from(c, i).len() ==> placeholders_from(c, i)[q - 1].1 <= #[trigger] placeholders_from(c, i)[q].0,
    decreases c.len() + 1 - i,
{
    if i < c.len() {
        if c[i] == '%' {
            if i + 1 < c.len() && c[i + 1] == '%' {
                lemma_placeholders_ordered(c, i + 2);
                assert(placeholders_from(c, i) == placeholders_from(c, i + 2));
            } else {
                lemma_skip_flags_bounds(c, i + 1);
                let j = skip_flags(c, i + 1);
                lemma_placeholders_ordered(c, j + 1);
                if j < c.len() && (alphabetic(c[j]) || c[j] == '%') {
                    let rest = placeholders_from(c, j + 1);
                    let all = placeholders_from(c, i);
                    assert(all == seq![(i, j + 1)] + rest);
                    assert forall|q: int| 0 <= q < all.len() implies i <= #[trigger] all[q].0 < all[q].1 <= c.len() by {
                        if q > 0 {
                            assert(all[q] == rest[q - 1]);
                        }
                    }
                    assert forall|q: int| 0 < q < all.len() implies all[q - 1].1 <= #[trigger] all[q].0 by {
                        assert(all[q] == rest[q - 1]);
                        if q > 1 {
                            assert(all[q - 1] == rest[q - 2]);
                        }
                    }
                } else {
                    assert(placeholders_from(c, i) == placeholders_from(c, j + 1));
                }
            }
        } else {
            lemma_placeholders_ordered(c, i + 1);
            assert(placeholders_from(c, i) == placeholders_from(c, i + 1));
        }
    }
}

/// Parse printf-style placeholders: %s, %d, %v, %f, etc., as character
/// ranges of `format_str`, in order.
pub fn parse_printf_placeholders(format_str: &str) -> (r: Vec<(usize, usize)>)
    ensures
        r@.len() == placeholders_from(format_str@, 0).len(),
        forall|q: int| 0 <= q < r@.len() ==> (#[trigger] r@[q]).0 as int == placeholders_from(format_str@, 0)[q].0
            && r@[q].1 as int == placeholders_from(format_str@, 0)[q].1,
{
    let ghost c = format_str@;
    let n = format_str.unicode_len();
    let mut placeholders: Vec<(usize, usize)> = Vec::new();
    let mut i: usize = 0;
    while i < n
        invariant
            n == c.len(),
            c == format_str@,
            i <= n,
            placeholders@.len() + placeholders_from(c, i as int).len() == placeholders_from(c, 0).len(),
            forall|q: int| 0 <= q < placeholders@.len() ==> (#[trigger] placeholders@[q]).0 as int == placeholders_from(c, 0)[q].0
                && placeholders@[q].1 as int == placeholders_from(c, 0)[q].1,
            forall|q: int| 0 <= q < placeholders_from(c, i as int).len() ==> #[trigger] placeholders_from(c, i as int)[q]
                == placeholders_from(c, 0)[placeholders@.len() + q],
        decreases n + 1 - i,
    {
        let ghost before = placeholders@.len();
        let ghost i0 = i as int;
        if format_str.get_char(i) == '%' {
            if i + 1 < n && format_str.get_char(i + 1) == '%' {
                i = i + 2;
                continue;
            }
            let start = i;
            i = i + 1;
            proof {
                lemma_skip_flags_bounds(c, i as int);
            }
            while i < n && flag_char(format_str.get_char(i))
                invariant
                    n == c.len(),
                    c == format_str@,
                    start + 1 <= i <= n,
                    skip_flags(c, start + 1) == skip_flags(c, i as int),
                decreases n - i,
            {
                i = i + 1;
            }
            assert(skip_flags(c, start + 1) == i as int);
            if i < n && (is_alphabetic(format_str.get_char(i)) || format_str.get_char(i) == '%') {
                i = i + 1;
                placeholders.push((start, i));
                proof {
                    assert(placeholders_from(c, start as int) == seq![(start as int, i as int)] + placeholders_from(c, i as int));
                    assert(placeholders_from(c, i0)[0] == placeholders_from(c, 0)[before as int]);
                    assert forall|q: int| 0 <= q < placeholders_from(c, i as int).len() implies #[trigger] placeholders_from(c, i as int)[q]
                        == placeholders_from(c, 0)[placeholders@.len() + q] by {
                        assert(placeholders_from(c, i as int)[q] == placeholders_from(c, start as int)[q + 1]);
                    }
                }
                continue;
            }
        }
        if i < n {
            i = i + 1;
        } else {
            assert(placeholders_from(c, (n + 1) as int) == Seq::<(int, int)>::empty());
        }
    }
    placeholders
}

} // verus!
