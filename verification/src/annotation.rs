//! Recognition of the `@prompt` marker in comment text, and the inner
//! range of a comment.
use crate::text::{
    bytes_ends_with, bytes_find, bytes_starts_with, ends_with, find_from, is_alphanumeric,
    starts_with, to_lowercase, alphanumeric, lowercase,
};
use vstd::prelude::*;
use vstd::string::StrSliceExecFns;
use vstd::utf8::encode_utf8;

verus! {

/// The characters of the marker `@prompt`.
pub open spec fn marker_chars() -> Seq<char> {
    seq!['@', 'p', 'r', 'o', 'm', 'p', 't']
}

/// Whether `c` continues a word: alphanumeric or an underscore.
pub open spec fn is_word_char(c: char) -> bool {
    alphanumeric(c) || c == '_'
}

/// Whether the character at index `k` of `l` is absent or does not continue a word.
pub open spec fn no_word_char_at(l: Seq<char>, k: int) -> bool {
    !(0 <= k < l.len()) || !is_word_char(l[k])
}

/// Whether `@prompt` occurs in `l` at character index `k`.
pub open spec fn marker_at(l: Seq<char>, k: int) -> bool {
    0 <= k && k + 7 <= l.len() && l.subrange(k, k + 7) == marker_chars()
}

/// Whether `@prompt` occurs in `l` at character index `k` as a word of its
/// own: no word character stands just before or just after it.
pub open spec fn valid_marker_at(l: Seq<char>, k: int) -> bool {
    marker_at(l, k) && no_word_char_at(l, k - 1) && no_word_char_at(l, k + 7)
}

/// What the marker search gives for an already lowercased text `l`: `None`
/// when `@prompt` does not occur; otherwise whether one of its occurrences
/// stands as a word of its own.
pub open spec fn spec_marker_status(l: Seq<char>) -> Option<bool> {
    if exists|k: int| #[trigger] marker_at(l, k) {
        Some(exists|k: int| #[trigger] valid_marker_at(l, k))
    } else {
        None
    }
}

/// What `parse_annotation` returns for the text `t`.
pub open spec fn spec_parse_annotation(t: Seq<char>) -> Option<bool> {
    spec_marker_status(lowercase(t))
}

/// Whether `@prompt` occurs in `comment` at character index `k`.
fn marker_at_exec(comment: &str, k: usize) -> (r: bool)
    requires
        k + 7 <= comment@.len() <= usize::MAX,
    ensures
        r == marker_at(comment@, k as int),
{
    let r = comment.get_char(k) == '@' && comment.get_char(k + 1) == 'p' && comment.get_char(k + 2) == 'r'
        && comment.get_char(k + 3) == 'o' && comment.get_char(k + 4) == 'm' && comment.get_char(k + 5) == 'p'
        && comment.get_char(k + 6) == 't';
    if r {
        assert(comment@.subrange(k as int, k + 7) =~= marker_chars());
    } else {
        assert(comment@.subrange(k as int, k + 7) != marker_chars()) by {
            if comment@.subrange(k as int, k + 7) == marker_chars() {
                assert(comment@[k as int] == comment@.subrange(k as int, k + 7)[0]);
                assert(comment@[k + 1] == comment@.subrange(k as int, k + 7)[1]);
                assert(comment@[k + 2] == comment@.subrange(k as int, k + 7)[2]);
                assert(comment@[k + 3] == comment@.subrange(k as int, k + 7)[3]);
                assert(comment@[k + 4] == comment@.subrange(k as int, k + 7)[4]);
                assert(comment@[k + 5] == comment@.subrange(k as int, k + 7)[5]);
                assert(comment@[k + 6] == comment@.subrange(k as int, k + 7)[6]);
            }
        }
    }
    r
}

/// `Some(valid)` when the lowercased text `comment` holds `@prompt`, where
/// `valid` tells whether one of its occurrences stands as a word of its
/// own; `None` when it holds no marker.
pub fn marker_status(comment: &str) -> (r: Option<bool>)
    ensures
        r == spec_marker_status(comment@),
{
    let ghost l = comment@;
    let n = comment.unicode_len();
    let mut found = false;
    let mut valid = false;
    let mut k: usize = 0;
    while k < n && n - k >= 7
        invariant
            n == l.len(),
            l == comment@,
            k <= n,
            found <==> exists|q: int| 0 <= q < k && #[trigger] marker_at(l, q),
            valid <==> exists|q: int| 0 <= q < k && #[trigger] valid_marker_at(l, q),
        decreases n - k,
    {
        if marker_at_exec(comment, k) {
            found = true;
            let before = k == 0 || {
                let c = comment.get_char(k - 1);
                !(is_alphanumeric(c) || c == '_')
            };
            let after = k + 7 >= n || {
                let c = comment.get_char(k + 7);
                !(is_alphanumeric(c) || c == '_')
            };
            if before && after {
                valid = true;
                assert(valid_marker_at(l, k as int));
            } else {
                assert(!valid_marker_at(l, k as int));
            }
        } else {
            assert(!valid_marker_at(l, k as int));
        }
        k = k + 1;
    }
    assert forall|q: int| #[trigger] marker_at(l, q) implies 0 <= q < k by {}
    if found {
        assert forall|q: int| #[trigger] valid_marker_at(l, q) implies 0 <= q < k by {
            assert(marker_at(l, q));
        }
        Some(valid)
    } else {
        None
    }
}

/// Parses annotation text to determine if it contains a valid `@prompt`
/// marker: `None` without a marker (in any letter case), `Some(true)` when
/// one of them stands alone, `Some(false)` when each is part of a longer word.
pub fn parse_annotation(annotation: &str) -> (r: Option<bool>)
    ensures
        r == spec_parse_annotation(annotation@),
{
    let comment = to_lowercase(annotation);
    marker_status(comment.as_str())
}

/// `len - k` when `len >= k`, else 0.
pub open spec fn sat_sub(len: u32, k: u32) -> u32 {
    if len >= k {
        (len - k) as u32
    } else {
        0
    }
}

pub open spec fn slash3() -> Seq<u8> { seq![47u8, 47u8, 47u8] }
pub open spec fn slash2() -> Seq<u8> { seq![47u8, 47u8] }
pub open spec fn block_doc_open() -> Seq<u8> { seq![47u8, 42u8, 42u8] }
pub open spec fn block_open() -> Seq<u8> { seq![47u8, 42u8] }
pub open spec fn block_close() -> Seq<u8> { seq![42u8, 47u8] }
pub open spec fn hash() -> Seq<u8> { seq![35u8] }
pub open spec fn squote3() -> Seq<u8> { seq![39u8, 39u8, 39u8] }
pub open spec fn dquote3() -> Seq<u8> { seq![34u8, 34u8, 34u8] }

/// The inner range `[start, end)` of a comment, its start clamped to its
/// end so that the range is ordered.
pub open spec fn inner_range(start: u32, end: u32) -> (u32, u32) {
    (if start <= end { start } else { end }, end)
}

/// The inner offsets of a comment with bytes `b`, relative to its start:
/// after the opening marker and before the closing one, an empty range
/// where the markers overlap.
pub open spec fn spec_comment_inner_offsets(b: Seq<u8>) -> (u32, u32) {
    let len = b.len() as u32;
    if starts_with(b, slash3()) {
        inner_range(3, len)
    } else if starts_with(b, slash2()) {
        inner_range(2, len)
    } else if starts_with(b, block_doc_open()) && ends_with(b, block_close()) {
        inner_range(3, sat_sub(len, 2))
    } else if starts_with(b, block_open()) && ends_with(b, block_close()) {
        inner_range(2, sat_sub(len, 2))
    } else if starts_with(b, hash()) {
        inner_range(1, len)
    } else if (starts_with(b, squote3()) && ends_with(b, squote3())) || (starts_with(b, dquote3())
        && ends_with(b, dquote3())) {
        inner_range(3, sat_sub(len, 3))
    } else {
        (0, len)
    }
}

/// The inner range `[start, end)` with its start clamped to its end.
fn clamp_start(start: u32, end: u32) -> (r: (u32, u32))
    ensures
        r == inner_range(start, end),
{
    (if start <= end { start } else { end }, end)
}

/// Computes the inner span offsets for a comment text.
/// Returns (inner_start_offset, inner_end_offset) relative to the comment start:
/// `///`, `//` and `#` comments lose their opening marker, `/** */`, `/* */`,
/// `''' '''` and `""" """` comments both delimiters; the inner range is
/// ordered and lies inside the comment (empty where the delimiters overlap).
pub fn compute_comment_inner_offsets(text: &str) -> (r: (u32, u32))
    ensures
        r == spec_comment_inner_offsets(encode_utf8(text@)),
        r.0 <= r.1,
        encode_utf8(text@).len() <= u32::MAX ==> r.1 <= encode_utf8(text@).len(),
{
    let b = text.as_bytes();
    let len = b.len() as u32;
    let s3: [u8; 3] = [47u8, 47u8, 47u8];
    let s2: [u8; 2] = [47u8, 47u8];
    let bdo: [u8; 3] = [47u8, 42u8, 42u8];
    let bo: [u8; 2] = [47u8, 42u8];
    let bc: [u8; 2] = [42u8, 47u8];
    let h: [u8; 1] = [35u8];
    let q3: [u8; 3] = [39u8, 39u8, 39u8];
    let d3: [u8; 3] = [34u8, 34u8, 34u8];
    assert(s3@ =~= slash3());
    assert(s2@ =~= slash2());
    assert(bdo@ =~= block_doc_open());
    assert(bo@ =~= block_open());
    assert(bc@ =~= block_close());
    assert(h@ =~= hash());
    assert(q3@ =~= squote3());
    assert(d3@ =~= dquote3());
    if bytes_starts_with(b, s3.as_slice()) {
        clamp_start(3, len)
    } else if bytes_starts_with(b, s2.as_slice()) {
        clamp_start(2, len)
    } else if bytes_starts_with(b, bdo.as_slice()) && bytes_ends_with(b, bc.as_slice()) {
        clamp_start(3, len.saturating_sub(2))
    } else if bytes_starts_with(b, bo.as_slice()) && bytes_ends_with(b, bc.as_slice()) {
        clamp_start(2, len.saturating_sub(2))
    } else if bytes_starts_with(b, h.as_slice()) {
        clamp_start(1, len)
    } else if (bytes_starts_with(b, q3.as_slice()) && bytes_ends_with(b, q3.as_slice())) || (
    bytes_starts_with(b, d3.as_slice()) && bytes_ends_with(b, d3.as_slice())) {
        clamp_start(3, len.saturating_sub(3))
    } else {
        (0, len)
    }
}

} // verus!
