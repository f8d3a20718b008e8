//! Text primitives over UTF-8 source strings, with the std calls the
//! library relies on.
use vstd::prelude::*;
use vstd::string::{StrSliceExecFns, StringExecFns};

verus! {

/// Whether `needle` occurs in `hay` at byte offset `p`.
pub open spec fn occurs_at(hay: Seq<u8>, needle: Seq<u8>, p: int) -> bool {
    0 <= p && p + needle.len() <= hay.len() && hay.subrange(p, p + needle.len()) == needle
}

/// The first byte offset at or after `from` where `needle` occurs.
pub open spec fn find_from(hay: Seq<u8>, needle: Seq<u8>, from: int) -> Option<int>
    decreases hay.len() + 1 - from,
{
    if from < 0 || from + needle.len() > hay.len() {
        None
    } else if occurs_at(hay, needle, from) {
        Some(from)
    } else {
        find_from(hay, needle, from + 1)
    }
}

/// What `find_from` finds lies at or after `from` and holds `needle`.
pub proof fn lemma_find_from_found(hay: Seq<u8>, needle: Seq<u8>, from: int)
    ensures
        find_from(hay, needle, from) matches Some(p) ==> from <= p && occurs_at(hay, needle, p),
    decreases hay.len() + 1 - from,
{
    if !(from < 0 || from + needle.len() > hay.len()) && !occurs_at(hay, needle, from) {
        lemma_find_from_found(hay, needle, from + 1);
    }
}

/// Whether `b` starts with `p`.
pub open spec fn starts_with(b: Seq<u8>, p: Seq<u8>) -> bool {
    p.len() <= b.len() && b.subrange(0, p.len() as int) == p
}

/// Whether `b` ends with `p`.
pub open spec fn ends_with(b: Seq<u8>, p: Seq<u8>) -> bool {
    p.len() <= b.len() && b.subrange(b.len() - p.len(), b.len() as int) == p
}

/// Whether the bytes `b` at `p` equal `needle`.
pub fn bytes_at(b: &[u8], p: usize, needle: &[u8]) -> (r: bool)
    ensures
        r == occurs_at(b@, needle@, p as int),
{
    if p > b.len() || needle.len() > b.len() - p {
        return false;
    }
    let mut i: usize = 0;
    while i < needle.len()
        invariant
            p + needle@.len() <= b@.len(),
            b@.len() <= usize::MAX,
            0 <= i <= needle@.len(),
            forall|j: int| 0 <= j < i ==> b@[p + j] == needle@[j],
        decreases needle@.len() - i,
    {
        if b[p + i] != needle[i] {
            assert(b@.subrange(p as int, p + needle@.len())[i as int] != needle@[i as int]);
            return false;
        }
        i = i + 1;
    }
    assert(b@.subrange(p as int, p + needle@.len()) =~= needle@);
    true
}

/// Whether `b` starts with `p`.
pub fn bytes_starts_with(b: &[u8], p: &[u8]) -> (r: bool)
    ensures
        r == starts_with(b@, p@),
{
    bytes_at(b, 0, p)
}

/// Whether `b` ends with `p`.
pub fn bytes_ends_with(b: &[u8], p: &[u8]) -> (r: bool)
    ensures
        r == ends_with(b@, p@),
{
    if p.len() > b.len() {
        false
    } else {
        bytes_at(b, b.len() - p.len(), p)
    }
}

/// The first byte offset where `needle` occurs in `hay`.
pub fn bytes_find(hay: &[u8], needle: &[u8]) -> (r: Option<usize>)
    ensures
        r matches Some(p) ==> find_from(hay@, needle@, 0) == Some(p as int),
        r is None ==> find_from(hay@, needle@, 0) is None,
{
    if needle.len() > hay.len() {
        return None;
    }
    let last = hay.len() - needle.len();
    let mut p: usize = 0;
    while p <= last
        invariant
            last + needle@.len() == hay@.len(),
            p <= last + 1,
            find_from(hay@, needle@, 0) == find_from(hay@, needle@, p as int),
        decreases last + 1 - p,
    {
        if bytes_at(hay, p, needle) {
            return Some(p);
        }
        if p == last {
            assert(find_from(hay@, needle@, p + 1) is None);
            return None;
        }
        p = p + 1;
    }
    None
}

} // verus!

verus! {

/// Whether `c` has the Unicode `Alphabetic` or `Numeric` property, as
/// `char::is_alphanumeric` decides it for a character outside ASCII.
pub uninterp spec fn unicode_alphanumeric(c: char) -> bool;

/// Whether `c` has the Unicode `Alphabetic` property, as
/// `char::is_alphabetic` decides it for a character outside ASCII.
pub uninterp spec fn unicode_alphabetic(c: char) -> bool;

/// The lowercase form of a text that is not all ASCII, as
/// `str::to_lowercase` computes it.
pub uninterp spec fn unicode_lowercase(s: Seq<char>) -> Seq<char>;

/// Whether `c` is an ASCII letter.
pub open spec fn ascii_letter(c: char) -> bool {
    (65 <= (c as u32) <= 90) || (97 <= (c as u32) <= 122)
}

/// Whether `c` is an ASCII digit.
pub open spec fn ascii_digit(c: char) -> bool {
    48 <= (c as u32) <= 57
}

/// Whether `c` is alphabetic: an ASCII letter, or outside ASCII a
/// character with the `Alphabetic` property.
pub open spec fn alphabetic(c: char) -> bool {
    if (c as u32) < 128 {
        ascii_letter(c)
    } else {
        unicode_alphabetic(c)
    }
}

/// Whether `c` is alphanumeric: an ASCII letter or digit, or outside ASCII
/// a character with the `Alphabetic` or `Numeric` property.
pub open spec fn alphanumeric(c: char) -> bool {
    if (c as u32) < 128 {
        ascii_letter(c) || ascii_digit(c)
    } else {
        unicode_alphanumeric(c)
    }
}

/// Whether `c` has the Unicode `White_Space` property: tab through
/// carriage return, space, U+0085, U+00A0, U+1680, U+2000 through U+200A,
/// U+2028, U+2029, U+202F, U+205F and U+3000.
pub open spec fn whitespace(c: char) -> bool {
    let u = c as u32;
    (9 <= u <= 13) || u == 32 || u == 0x85 || u == 0xA0 || u == 0x1680 || (0x2000 <= u <= 0x200A)
        || u == 0x2028 || u == 0x2029 || u == 0x202F || u == 0x205F || u == 0x3000
}

/// The lowercase form of an ASCII character.
pub open spec fn ascii_lower(c: char) -> char {
    if 65 <= (c as u32) <= 90 {
        ((c as u32) + 32) as char
    } else {
        c
    }
}

/// The lowercase form of a text: an all-ASCII text has each upper-case
/// letter lowered and keeps its other characters.
pub open spec fn lowercase(s: Seq<char>) -> Seq<char> {
    if forall|i: int| 0 <= i < s.len() ==> (#[trigger] s[i] as u32) < 128 {
        s.map_values(|c: char| ascii_lower(c))
    } else {
        unicode_lowercase(s)
    }
}

/// Calls `char::is_alphanumeric`: true of ASCII letters and digits, and
/// outside ASCII of the characters named by `unicode_alphanumeric`.
#[verifier::external_body]
pub(crate) fn is_alphanumeric(c: char) -> (r: bool)
    ensures
        r == alphanumeric(c),
        (c as u32) >= 128 ==> r == unicode_alphanumeric(c),
{
    c.is_alphanumeric()
}

/// Whether `c` has the Unicode `White_Space` property, as
/// `char::is_whitespace` tells.
pub(crate) fn is_whitespace(c: char) -> (r: bool)
    ensures
        r == whitespace(c),
{
    let u = c as u32;
    (9 <= u && u <= 13) || u == 32 || u == 0x85 || u == 0xA0 || u == 0x1680 || (0x2000 <= u && u <= 0x200A)
        || u == 0x2028 || u == 0x2029 || u == 0x202F || u == 0x205F || u == 0x3000
}

/// Calls `char::is_alphabetic`: true of ASCII letters, and outside ASCII of
/// the characters named by `unicode_alphabetic`.
#[verifier::external_body]
pub(crate) fn is_alphabetic(c: char) -> (r: bool)
    ensures
        r == alphabetic(c),
        (c as u32) >= 128 ==> r == unicode_alphabetic(c),
{
    c.is_alphabetic()
}

/// Calls `str::to_lowercase`: an all-ASCII text has its upper-case letters
/// lowered one for one; of other texts the result is named
/// `unicode_lowercase`. Nothing more is said of Unicode case mapping here.
#[verifier::external_body]
pub(crate) fn to_lowercase(s: &str) -> (r: String)
    ensures
        r@ == lowercase(s@),
        !(forall|i: int| 0 <= i < s@.len() ==> (#[trigger] s@[i] as u32) < 128) ==> r@ == unicode_lowercase(s@),
{
    s.to_lowercase()
}

} // verus!

verus! {

broadcast use vstd::utf8::encode_utf8_valid_utf8, vstd::utf8::encode_utf8_decode_utf8;

/// The UTF-8 bytes of a text.
pub open spec fn utf8(s: Seq<char>) -> Seq<u8> {
    vstd::utf8::encode_utf8(s)
}

/// Whether `[s, e)` is a range of whole characters in the UTF-8 bytes `b`.
pub open spec fn valid_range(b: Seq<u8>, s: int, e: int) -> bool {
    0 <= s <= e <= b.len() && vstd::utf8::is_char_boundary(b, s)
        && vstd::utf8::is_char_boundary(b, e)
}

/// Whether `[s, e)` is a range of whole characters of `src`.
pub fn is_valid_range(src: &str, s: usize, e: usize) -> (r: bool)
    ensures
        r == valid_range(utf8(src@), s as int, e as int),
{
    s <= e && e <= src.as_bytes().len() && src.is_char_boundary(s) && src.is_char_boundary(e)
}

/// The characters encoded by the bytes `[s, e)` of `b`.
pub open spec fn range_text(b: Seq<u8>, s: int, e: int) -> Seq<char> {
    vstd::utf8::decode_utf8(b.subrange(s, e))
}

/// Whether every character of `t` is whitespace.
pub open spec fn all_whitespace(t: Seq<char>) -> bool {
    forall|i: int| 0 <= i < t.len() ==> whitespace(#[trigger] t[i])
}

proof fn lemma_boundary_of_suffix(b: Seq<u8>, s: int, k: int)
    requires
        vstd::utf8::valid_utf8(b),
        0 <= s <= b.len(),
        0 <= k <= b.len() - s,
        vstd::utf8::is_char_boundary(b, s),
        vstd::utf8::is_char_boundary(b, s + k),
    ensures
        vstd::utf8::valid_utf8(b.subrange(s, b.len() as int)),
        vstd::utf8::is_char_boundary(b.subrange(s, b.len() as int), k),
{
    let t = b.subrange(s, b.len() as int);
    vstd::utf8::valid_utf8_split(b, s);
    vstd::utf8::is_char_boundary_start_end_of_seq(t);
    if k == 0 {
    } else if s + k == b.len() {
        assert(k == t.len());
    } else {
        vstd::utf8::is_char_boundary_iff_not_is_continuation_byte(b, s + k);
        vstd::utf8::is_char_boundary_iff_not_is_continuation_byte(t, k);
        assert(t[k] == b[s + k]);
    }
}

/// The slice of `src` made of its bytes `[s, e)`.
pub fn substr<'a>(src: &'a str, s: usize, e: usize) -> (r: &'a str)
    requires
        valid_range(utf8(src@), s as int, e as int),
    ensures
        utf8(r@) == utf8(src@).subrange(s as int, e as int),
        r@ == range_text(utf8(src@), s as int, e as int),
{
    let ghost b = utf8(src@);
    proof {
        lemma_boundary_of_suffix(b, s as int, (e - s) as int);
    }
    let (_, rest) = src.split_at(s);
    assert(utf8(rest@) =~= b.subrange(s as int, b.len() as int));
    let (mid, _) = rest.split_at(e - s);
    assert(utf8(mid@) =~= b.subrange(s as int, e as int));
    assert(vstd::utf8::decode_utf8(utf8(mid@)) == mid@);
    mid
}

/// Whether two texts are equal, character by character.
pub fn text_eq(a: &str, b: &str) -> (r: bool)
    ensures
        r == (a@ == b@),
{
    let n = a.unicode_len();
    let m = b.unicode_len();
    if n != m {
        return false;
    }
    let mut i: usize = 0;
    while i < n
        invariant
            n == a@.len(),
            m == b@.len(),
            n == m,
            i <= n,
            forall|j: int| 0 <= j < i ==> a@[j] == b@[j],
        decreases n - i,
    {
        if a.get_char(i) != b.get_char(i) {
            return false;
        }
        i = i + 1;
    }
    assert(a@ =~= b@);
    true
}

/// Whether every character of `s` is whitespace (so that trimming it leaves nothing).
pub fn is_blank(s: &str) -> (r: bool)
    ensures
        r == all_whitespace(s@),
{
    let n = s.unicode_len();
    let mut i: usize = 0;
    while i < n
        invariant
            n == s@.len(),
            i <= n,
            forall|j: int| 0 <= j < i ==> whitespace(#[trigger] s@[j]),
        decreases n - i,
    {
        if !is_whitespace(s.get_char(i)) {
            return false;
        }
        i = i + 1;
    }
    true
}

/// Whether the bytes `[s, e)` of `src` hold nothing but whitespace; a range
/// that is reversed or runs past the end counts as empty, hence blank.
pub open spec fn blank_between(b: Seq<u8>, s: int, e: int) -> bool {
    if s <= e && e <= b.len() {
        all_whitespace(range_text(b, s, e))
    } else {
        true
    }
}

/// Whether the bytes `[s, e)` of `src` hold nothing but whitespace.
pub fn blank_between_exec(src: &str, s: usize, e: usize) -> (r: bool)
    requires
        s <= e && e as int <= utf8(src@).len() ==> valid_range(utf8(src@), s as int, e as int),
    ensures
        r == blank_between(utf8(src@), s as int, e as int),
{
    if s <= e && e <= src.as_bytes().len() {
        is_blank(substr(src, s, e))
    } else {
        true
    }
}

/// An owned copy of the bytes `[s, e)` of `src`.
pub fn range_string(src: &str, s: usize, e: usize) -> (r: String)
    requires
        valid_range(utf8(src@), s as int, e as int),
    ensures
        r@ == range_text(utf8(src@), s as int, e as int),
{
    substr(src, s, e).to_owned()
}

/// The text of the bytes `[s, e)` of `b` when they are whole characters of
/// it, else the empty text.
pub open spec fn span_text(b: Seq<u8>, s: u32, e: u32) -> Seq<char> {
    if valid_range(b, s as int, e as int) {
        range_text(b, s as int, e as int)
    } else {
        seq![]
    }
}

/// An owned copy of the bytes `[s, e)` of `src` when they are whole
/// characters of it, else the empty string.
pub fn span_string(src: &str, s: u32, e: u32) -> (r: String)
    ensures
        r@ == span_text(utf8(src@), s, e),
{
    if is_valid_range(src, s as usize, e as usize) {
        range_string(src, s as usize, e as usize)
    } else {
        String::new()
    }
}

} // verus!

verus! {

/// The decimal digit `d`.
pub open spec fn digit_char(d: nat) -> char {
    if d == 0 {
        '0'
    } else if d == 1 {
        '1'
    } else if d == 2 {
        '2'
    } else if d == 3 {
        '3'
    } else if d == 4 {
        '4'
    } else if d == 5 {
        '5'
    } else if d == 6 {
        '6'
    } else if d == 7 {
        '7'
    } else if d == 8 {
        '8'
    } else {
        '9'
    }
}

/// The decimal representation of `n`, without leading zeros.
pub open spec fn decimal(n: nat) -> Seq<char>
    decreases n,
{
    if n < 10 {
        seq![digit_char(n)]
    } else {
        decimal(n / 10).push(digit_char(n % 10))
    }
}

/// Appends the digit `d` to `s`.
fn push_digit(s: &mut String, d: u128)
    requires
        d < 10,
    ensures
        final(s)@ == old(s)@.push(digit_char(d as nat)),
{
    proof {
        reveal_strlit("0");
        reveal_strlit("1");
        reveal_strlit("2");
        reveal_strlit("3");
        reveal_strlit("4");
        reveal_strlit("5");
        reveal_strlit("6");
        reveal_strlit("7");
        reveal_strlit("8");
        reveal_strlit("9");
    }
    if d == 0 {
        s.append("0");
    } else if d == 1 {
        s.append("1");
    } else if d == 2 {
        s.append("2");
    } else if d == 3 {
        s.append("3");
    } else if d == 4 {
        s.append("4");
    } else if d == 5 {
        s.append("5");
    } else if d == 6 {
        s.append("6");
    } else if d == 7 {
        s.append("7");
    } else if d == 8 {
        s.append("8");
    } else {
        s.append("9");
    }
}

/// Appends the decimal representation of `n` to `s`.
pub fn append_decimal(s: &mut String, n: u128)
    ensures
        final(s)@ == old(s)@ + decimal(n as nat),
    decreases n,
{
    if n >= 10 {
        append_decimal(s, n / 10);
    }
    push_digit(s, n % 10);
    assert(s@ =~= old(s)@ + decimal(n as nat));
}

} // verus!

verus! {

/// The bytes `[s, e)` of `b`.
pub fn byte_range(b: &[u8], s: usize, e: usize) -> (r: &[u8])
    requires
        s <= e <= b@.len(),
    ensures
        r@ == b@.subrange(s as int, e as int),
{
    let (head, _) = b.split_at(e);
    let (_, mid) = head.split_at(s);
    assert(mid@ =~= b@.subrange(s as int, e as int));
    mid
}

/// The first offset at or after `from` that holds the byte `c`.
pub open spec fn find_byte(hay: Seq<u8>, c: u8, from: int) -> Option<int>
    decreases hay.len() - from,
{
    if from < 0 || from >= hay.len() {
        None
    } else if hay[from] == c {
        Some(from)
    } else {
        find_byte(hay, c, from + 1)
    }
}

/// The first offset at or after `from` in `b[..end]` that holds `c`.
pub fn find_byte_exec(b: &[u8], end: usize, c: u8, from: usize) -> (r: Option<usize>)
    requires
        end <= b@.len(),
        from <= end,
    ensures
        r matches Some(p) ==> find_byte(b@.subrange(0, end as int), c, from as int) == Some(p as int) && from <= p < end,
        r is None ==> find_byte(b@.subrange(0, end as int), c, from as int) is None,
{
    let ghost h = b@.subrange(0, end as int);
    let mut i = from;
    while i < end
        invariant
            from <= i <= end,
            end <= b@.len(),
            h == b@.subrange(0, end as int),
            find_byte(h, c, from as int) == find_byte(h, c, i as int),
        decreases end - i,
    {
        if b[i] == c {
            return Some(i);
        }
        i = i + 1;
    }
    None
}

/// What `find_byte` finds lies at or after `from`, inside `hay`, and holds `c`.
pub proof fn lemma_find_byte_found(hay: Seq<u8>, c: u8, from: int)
    ensures
        find_byte(hay, c, from) matches Some(p) ==> from <= p < hay.len() && hay[p] == c,
    decreases hay.len() - from,
{
    if 0 <= from < hay.len() && hay[from] != c {
        lemma_find_byte_found(hay, c, from + 1);
    }
}

/// In valid UTF-8, the offset of an ASCII byte that starts a character is
/// a character boundary, and so is the offset right after it.
pub proof fn lemma_ascii_boundaries(b: Seq<u8>, i: int)
    requires
        vstd::utf8::valid_utf8(b),
        0 <= i < b.len(),
        b[i] < 128,
    ensures
        vstd::utf8::is_char_boundary(b, i),
        vstd::utf8::is_char_boundary(b, i + 1),
    decreases b.len(),
{
    vstd::utf8::is_char_boundary_iff_not_is_continuation_byte(b, i);
    reveal_with_fuel(vstd::utf8::is_char_boundary, 2);
    if i > 0 {
        let l = vstd::utf8::length_of_first_scalar(b);
        let p = vstd::utf8::pop_first_scalar(b);
        vstd::utf8::is_char_boundary_iff_not_is_continuation_byte(b, 0);
        assert(p =~= b.subrange(l, b.len() as int));
        assert(vstd::utf8::valid_utf8(p));
        if i >= l {
            assert(p[i - l] == b[i]);
            lemma_ascii_boundaries(p, i - l);
        } else {
            assert(false);
        }
    }
}

/// The first index at or after `i` where `t` holds `c`, or `t.len()`.
pub open spec fn first_char(t: Seq<char>, c: char, i: int) -> int
    decreases t.len() - i,
{
    if i < 0 || i >= t.len() {
        t.len() as int
    } else if t[i] == c {
        i
    } else {
        first_char(t, c, i + 1)
    }
}

/// The first index at or after `i` where `t` holds whitespace, or `t.len()`.
pub open spec fn first_ws(t: Seq<char>, i: int) -> int
    decreases t.len() - i,
{
    if i < 0 || i >= t.len() {
        t.len() as int
    } else if whitespace(t[i]) {
        i
    } else {
        first_ws(t, i + 1)
    }
}

/// The first index at or after `i` where `t` holds no whitespace, or `t.len()`.
pub open spec fn first_non_ws(t: Seq<char>, i: int) -> int
    decreases t.len() - i,
{
    if i < 0 || i >= t.len() {
        t.len() as int
    } else if !whitespace(t[i]) {
        i
    } else {
        first_non_ws(t, i + 1)
    }
}

/// The end of `t[..j]` once trailing whitespace is dropped.
pub open spec fn trailing_ws_start(t: Seq<char>, j: int) -> int
    decreases j,
{
    if j <= 0 {
        0
    } else if whitespace(t[j - 1]) {
        trailing_ws_start(t, j - 1)
    } else {
        j
    }
}

/// `t` without leading and trailing whitespace, as `str::trim` gives it.
pub open spec fn trim_ws(t: Seq<char>) -> Seq<char> {
    let a = first_non_ws(t, 0);
    let e = trailing_ws_start(t, t.len() as int);
    if e <= a {
        seq![]
    } else {
        t.subrange(a, e)
    }
}

/// The first index at or after `i` where `s` holds no whitespace, or its length.
pub fn first_non_ws_exec(s: &str, i: usize) -> (r: usize)
    requires
        i <= s@.len(),
    ensures
        r == first_non_ws(s@, i as int),
        i <= r <= s@.len(),
{
    let n = s.unicode_len();
    let mut k = i;
    while k < n && is_whitespace(s.get_char(k))
        invariant
            i <= k <= n,
            n == s@.len(),
            first_non_ws(s@, i as int) == first_non_ws(s@, k as int),
        decreases n - k,
    {
        k = k + 1;
    }
    k
}

/// The length of `s` once trailing whitespace is dropped, in characters.
pub fn trailing_ws_start_exec(s: &str) -> (r: usize)
    ensures
        r == trailing_ws_start(s@, s@.len() as int),
        r <= s@.len(),
{
    let n = s.unicode_len();
    let mut k: usize = n;
    while k > 0 && is_whitespace(s.get_char(k - 1))
        invariant
            k <= n,
            n == s@.len(),
            trailing_ws_start(s@, n as int) == trailing_ws_start(s@, k as int),
        decreases k,
    {
        k = k - 1;
    }
    k
}

/// Whether the characters `[xa, xe)` of `x` equal the characters `[ya, ye)` of `y`.
pub fn chars_eq(x: &str, xa: usize, xe: usize, y: &str, ya: usize, ye: usize) -> (r: bool)
    requires
        xa <= xe <= x@.len(),
        ya <= ye <= y@.len(),
    ensures
        r == (x@.subrange(xa as int, xe as int) == y@.subrange(ya as int, ye as int)),
{
    if xe - xa != ye - ya {
        assert(x@.subrange(xa as int, xe as int).len() != y@.subrange(ya as int, ye as int).len());
        return false;
    }
    let len = xe - xa;
    let mut k: usize = 0;
    while k < len
        invariant
            k <= len,
            len == xe - xa,
            len == ye - ya,
            xe <= x@.len(),
            ye <= y@.len(),
            x@.subrange(xa as int, xa + k) == y@.subrange(ya as int, ya + k),
        decreases len - k,
    {
        if x.get_char(xa + k) != y.get_char(ya + k) {
            assert(x@.subrange(xa as int, xe as int)[k as int] != y@.subrange(ya as int, ye as int)[k as int]);
            return false;
        }
        assert(x@.subrange(xa as int, xa + k + 1) =~= x@.subrange(xa as int, xa + k).push(x@[xa + k]));
        assert(y@.subrange(ya as int, ya + k + 1) =~= y@.subrange(ya as int, ya + k).push(y@[ya + k]));
        k = k + 1;
    }
    assert(x@.subrange(xa as int, xe as int) =~= x@.subrange(xa as int, xa + k));
    assert(y@.subrange(ya as int, ye as int) =~= y@.subrange(ya as int, ya + k));
    true
}

/// A text has no more characters than its UTF-8 encoding has bytes.
pub proof fn lemma_chars_le_bytes(chars: Seq<char>)
    ensures
        chars.len() <= utf8(chars).len(),
    decreases chars.len(),
{
    if chars.len() > 0 {
        lemma_chars_le_bytes(chars.drop_first());
    }
}

/// The encoding of a prefix of a text is no longer than the text's.
pub proof fn lemma_utf8_prefix_len(s: Seq<char>, k: int)
    requires
        0 <= k <= s.len(),
    ensures
        utf8(s.subrange(0, k)).len() <= utf8(s).len(),
    decreases s.len(),
{
    if k > 0 {
        let p = s.subrange(0, k);
        assert(p.drop_first() =~= s.drop_first().subrange(0, k - 1));
        assert(p[0] == s[0]);
        lemma_utf8_prefix_len(s.drop_first(), k - 1);
    }
}

} // verus!
