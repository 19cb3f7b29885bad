//! Byte-level views of text: Unicode white space as `str::trim` sees it, and
//! helpers for prefixes and suffixes of byte strings.

use vstd::prelude::*;

verus! {

/// Whether a byte is a UTF-8 continuation byte (not the start of a character).
pub open spec fn is_continuation(b: u8) -> bool {
    0x80 <= b && b <= 0xBF
}

/// The length in bytes of the Unicode white-space character that starts at
/// byte `i` of the UTF-8 text `s`, or 0 when none starts there.
/// The characters are those with the `White_Space` property: tab, line feed,
/// vertical tab, form feed, carriage return, space, U+0085, U+00A0, U+1680,
/// U+2000 to U+200A, U+2028, U+2029, U+202F, U+205F and U+3000.
pub open spec fn ws_len_at(s: Seq<u8>, i: int) -> int {
    if !(0 <= i < s.len()) {
        0
    } else if s[i] == 9 || s[i] == 10 || s[i] == 11 || s[i] == 12 || s[i] == 13 || s[i] == 32 {
        1
    } else if i + 1 < s.len() && s[i] == 0xC2 && (s[i + 1] == 0x85 || s[i + 1] == 0xA0) {
        2
    } else if i + 2 < s.len() && s[i] == 0xE1 && s[i + 1] == 0x9A && s[i + 2] == 0x80 {
        3
    } else if i + 2 < s.len() && s[i] == 0xE2 && s[i + 1] == 0x80 && (s[i + 2] <= 0x8A || s[i
        + 2] == 0xA8 || s[i + 2] == 0xA9 || s[i + 2] == 0xAF) && s[i + 2] >= 0x80 {
        3
    } else if i + 2 < s.len() && s[i] == 0xE2 && s[i + 1] == 0x81 && s[i + 2] == 0x9F {
        3
    } else if i + 2 < s.len() && s[i] == 0xE3 && s[i + 1] == 0x80 && s[i + 2] == 0x80 {
        3
    } else {
        0
    }
}

/// The number of bytes of leading white space that `str::trim_start` removes
/// from `s`, counting from byte `i`.
pub open spec fn leading_ws(s: Seq<u8>, i: int) -> int
    decreases s.len() - i,
{
    if i < 0 || i >= s.len() || ws_len_at(s, i) == 0 {
        0
    } else {
        ws_len_at(s, i) + leading_ws(s, i + ws_len_at(s, i))
    }
}

/// `s` without its leading white space, as `str::trim_start` gives it.
pub open spec fn trim_start(s: Seq<u8>) -> Seq<u8> {
    s.subrange(leading_ws(s, 0), s.len() as int)
}

/// The length in bytes of a white-space character that ends just before byte
/// `j` of `s`, or 0 when none ends there.
pub open spec fn ws_len_before(s: Seq<u8>, j: int) -> int {
    if j >= 1 && ws_len_at(s, j - 1) == 1 {
        1
    } else if j >= 2 && ws_len_at(s, j - 2) == 2 {
        2
    } else if j >= 3 && ws_len_at(s, j - 3) == 3 {
        3
    } else {
        0
    }
}

/// The end of `s` once trailing white space before byte `j` is removed.
pub open spec fn trailing_end(s: Seq<u8>, j: int) -> int
    decreases j,
{
    if j <= 0 || j > s.len() || ws_len_before(s, j) == 0 {
        if j < 0 { 0 } else { j }
    } else {
        trailing_end(s, j - ws_len_before(s, j))
    }
}

/// `s` without its leading and trailing white space, as `str::trim` gives it.
pub open spec fn trim(s: Seq<u8>) -> Seq<u8> {
    let t = trim_start(s);
    t.subrange(0, trailing_end(t, t.len() as int))
}

proof fn lemma_ws_len_bounds(s: Seq<u8>, i: int)
    ensures
        0 <= ws_len_at(s, i) <= 3,
        ws_len_at(s, i) > 0 ==> i + ws_len_at(s, i) <= s.len(),
{
}

proof fn lemma_leading_ws_bounds(s: Seq<u8>, i: int)
    requires
        0 <= i <= s.len(),
    ensures
        0 <= leading_ws(s, i) <= s.len() - i,
    decreases s.len() - i,
{
    lemma_ws_len_bounds(s, i);
    if i < s.len() && ws_len_at(s, i) != 0 {
        lemma_leading_ws_bounds(s, i + ws_len_at(s, i));
    }
}

proof fn lemma_trailing_end_bounds(s: Seq<u8>, j: int)
    requires
        0 <= j <= s.len(),
    ensures
        0 <= trailing_end(s, j) <= j,
    decreases j,
{
    if j > 0 && ws_len_before(s, j) != 0 {
        lemma_trailing_end_bounds(s, j - ws_len_before(s, j));
    }
}

/// The length of the white-space character starting at byte `i` of `s`.
fn ws_len_at_exec(s: &[u8], i: usize) -> (r: usize)
    requires
        i <= s.len(),
    ensures
        r == ws_len_at(s@, i as int),
{
    if i >= s.len() {
        return 0;
    }
    let n = s.len();
    let b = s[i];
    if b == 9 || b == 10 || b == 11 || b == 12 || b == 13 || b == 32 {
        1
    } else if n - i > 1 && b == 0xC2 && (s[i + 1] == 0x85 || s[i + 1] == 0xA0) {
        2
    } else if n - i > 2 && b == 0xE1 && s[i + 1] == 0x9A && s[i + 2] == 0x80 {
        3
    } else if n - i > 2 && b == 0xE2 && s[i + 1] == 0x80 && (s[i + 2] <= 0x8A || s[i + 2] == 0xA8
        || s[i + 2] == 0xA9 || s[i + 2] == 0xAF) && s[i + 2] >= 0x80 {
        3
    } else if n - i > 2 && b == 0xE2 && s[i + 1] == 0x81 && s[i + 2] == 0x9F {
        3
    } else if n - i > 2 && b == 0xE3 && s[i + 1] == 0x80 && s[i + 2] == 0x80 {
        3
    } else {
        0
    }
}

/// The number of leading white-space bytes of `s`.
pub fn leading_ws_len(s: &[u8]) -> (r: usize)
    ensures
        r == leading_ws(s@, 0),
        r <= s.len(),
{
    let mut i: usize = 0;
    proof { lemma_leading_ws_bounds(s@, 0); }
    while i < s.len()
        invariant
            i <= s.len(),
            leading_ws(s@, 0) == i + leading_ws(s@, i as int),
        decreases s.len() - i,
    {
        let w = ws_len_at_exec(s, i);
        if w == 0 {
            return i;
        }
        proof { lemma_ws_len_bounds(s@, i as int); }
        i = i + w;
    }
    i
}

/// The end of `s[..j]` once its trailing white space is removed.
pub fn trailing_end_exec(s: &[u8], j: usize) -> (r: usize)
    requires
        j <= s.len(),
    ensures
        r == trailing_end(s@, j as int),
        r <= j,
{
    let mut k: usize = j;
    proof { lemma_trailing_end_bounds(s@, j as int); }
    while k > 0
        invariant
            k <= j <= s.len(),
            trailing_end(s@, j as int) == trailing_end(s@, k as int),
        decreases k,
    {
        let w: usize = if ws_len_at_exec(s, k - 1) == 1 {
            1
        } else if k >= 2 && ws_len_at_exec(s, k - 2) == 2 {
            2
        } else if k >= 3 && ws_len_at_exec(s, k - 3) == 3 {
            3
        } else {
            0
        };
        assert(w == ws_len_before(s@, k as int));
        if w == 0 {
            return k;
        }
        k = k - w;
    }
    k
}

/// `s` without its leading and trailing white space, as `str::trim` gives it.
pub fn trim_bytes(s: &[u8]) -> (r: &[u8])
    ensures
        r@ == trim(s@),
{
    let start = leading_ws_len(s);
    let t = &s[start..s.len()];
    assert(t@ =~= trim_start(s@));
    let end = trailing_end_exec(t, t.len());
    let r = &t[0..end];
    assert(r@ =~= trim(s@));
    r
}

/// Whether `s` ends with `suffix`.
pub open spec fn ends_with(s: Seq<u8>, suffix: Seq<u8>) -> bool {
    s.len() >= suffix.len() && s.subrange(s.len() - suffix.len(), s.len() as int) == suffix
}

/// `s` with its last `n` bytes removed.
pub open spec fn drop_tail(s: Seq<u8>, n: int) -> Seq<u8> {
    s.subrange(0, s.len() - n)
}

/// Whether `s` ends with `suffix`.
pub fn ends_with_bytes(s: &[u8], suffix: &[u8]) -> (r: bool)
    ensures
        r == ends_with(s@, suffix@),
{
    if s.len() < suffix.len() {
        return false;
    }
    let off = s.len() - suffix.len();
    let mut i: usize = 0;
    while i < suffix.len()
        invariant
            off + suffix.len() == s.len(),
            i <= suffix.len(),
            forall|k: int| 0 <= k < i ==> s@[off + k] == suffix@[k],
        decreases suffix.len() - i,
    {
        if s[off + i] != suffix[i] {
            assert(s@.subrange(off as int, s.len() as int)[i as int] != suffix@[i as int]);
            return false;
        }
        i = i + 1;
    }
    assert(s@.subrange(off as int, s.len() as int) =~= suffix@);
    true
}

/// The byte with ASCII upper-case letters mapped to lower case.
pub open spec fn ascii_lower(b: u8) -> u8 {
    if 65 <= b && b <= 90 { (b + 32) as u8 } else { b }
}

/// Whether `a` and `b` are equal when ASCII letters are compared without case.
pub open spec fn eq_ignore_ascii_case(a: Seq<u8>, b: Seq<u8>) -> bool {
    a.len() == b.len() && forall|i: int| 0 <= i < a.len() ==> ascii_lower(#[trigger] a[i]) == ascii_lower(b[i])
}

/// Whether `a` and `b` are equal when ASCII letters are compared without case.
pub fn eq_ignore_ascii_case_bytes(a: &[u8], b: &[u8]) -> (r: bool)
    ensures
        r == eq_ignore_ascii_case(a@, b@),
{
    if a.len() != b.len() {
        return false;
    }
    let mut i: usize = 0;
    while i < a.len()
        invariant
            a.len() == b.len(),
            i <= a.len(),
            forall|k: int| 0 <= k < i ==> ascii_lower(#[trigger] a@[k]) == ascii_lower(b@[k]),
        decreases a.len() - i,
    {
        let x = if 65u8 <= a[i] && a[i] <= 90u8 { a[i] + 32 } else { a[i] };
        let y = if 65u8 <= b[i] && b[i] <= 90u8 { b[i] + 32 } else { b[i] };
        if x != y {
            assert(ascii_lower(a@[i as int]) != ascii_lower(b@[i as int]));
            return false;
        }
        i = i + 1;
    }
    true
}

} // verus!
