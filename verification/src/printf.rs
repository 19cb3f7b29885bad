//! The `-f FORMAT` of `seq`: finding the one `%` conversion of a
//! printf-style format (with `%%` for a literal `%`), reading its flags,
//! width and precision, and padding the converted number to the width.
//! Converting the floating-point number itself is left to the caller.

use vstd::prelude::*;
use crate::decimal::{digits_value, is_digit, lemma_digits_value_monotone, lemma_digits_value_push};
use crate::seq::index_of;

verus! {

/// The flags, width, precision and conversion letter of a `%` conversion.
#[derive(Clone, Copy, Debug, PartialEq, Eq, Structural)]
pub struct PrintfSpec {
    /// `0`: pad with zeros (after any sign).
    pub zero_pad: bool,
    /// `-`: pad on the right.
    pub left_align: bool,
    /// `+`: a `+` before a number that is not negative.
    pub plus_sign: bool,
    /// ` `: a space before a number that is not negative.
    pub space_sign: bool,
    /// The minimum width (0 when none is given).
    pub width: usize,
    /// The precision, when a `.` is given.
    pub precision: Option<usize>,
    /// The conversion letter (`f`, `e`, `g`, ...).
    pub conv: u8,
}

/// A format: text to print as it is, or a conversion with the text before
/// and after it.
pub enum FormatParse {
    Literal(Vec<u8>),
    Conversion { prefix: Vec<u8>, spec: PrintfSpec, suffix: Vec<u8> },
}

/// A flag byte: `0`, `-`, `+`, space or `#`.
pub open spec fn is_flag(b: u8) -> bool {
    b == 48 || b == 45 || b == 43 || b == 32 || b == 35
}

/// The end of the run of flag bytes of `s` from `j`.
pub open spec fn flags_end(s: Seq<u8>, j: int) -> int
    decreases s.len() - j,
{
    if 0 <= j < s.len() && is_flag(s[j]) {
        flags_end(s, j + 1)
    } else {
        j
    }
}

/// The end of the run of digits of `s` from `j`.
pub open spec fn digits_end(s: Seq<u8>, j: int) -> int
    decreases s.len() - j,
{
    if 0 <= j < s.len() && is_digit(s[j]) {
        digits_end(s, j + 1)
    } else {
        j
    }
}

/// Some byte of `s[a..b]` is `f`.
pub open spec fn has_byte(s: Seq<u8>, a: int, b: int, f: u8) -> bool {
    exists|k: int| a <= k < b && s[k] == f
}

/// The value of a run of digits, saturated at `usize::MAX`.
pub open spec fn sat_value(d: Seq<u8>) -> usize {
    if digits_value(d) > usize::MAX { usize::MAX } else { digits_value(d) as usize }
}

/// The conversion whose flags start at byte `j` of `s` (just after the `%`),
/// and the index after its letter; `None` when `s` ends before the letter.
pub open spec fn conversion_at(s: Seq<u8>, j: int) -> Option<(PrintfSpec, int)> {
    let fe = flags_end(s, j);
    let we = digits_end(s, fe);
    let pe = if we < s.len() && s[we] == 46 { digits_end(s, we + 1) } else { we };
    let precision = if we < s.len() && s[we] == 46 { Some(sat_value(s.subrange(we + 1, pe))) } else { None };
    if pe >= s.len() {
        None
    } else {
        Some(
            (
                PrintfSpec {
                    zero_pad: has_byte(s, j, fe, 48),
                    left_align: has_byte(s, j, fe, 45),
                    plus_sign: has_byte(s, j, fe, 43),
                    space_sign: has_byte(s, j, fe, 32),
                    width: sat_value(s.subrange(fe, we)),
                    precision,
                    conv: s[pe],
                },
                pe + 1,
            ),
        )
    }
}

/// The format `s` read: the text before the conversion (each `%%` read as
/// `%`) and the conversion with the text after it; or, with no complete
/// conversion, the text to print as it is.
pub open spec fn spec_parse_format(s: Seq<u8>) -> (Seq<u8>, Option<(PrintfSpec, Seq<u8>)>)
    decreases s.len(),
{
    match index_of(s, 37, 0) {
        None => (s, None),
        Some(i) => if i < 0 || i >= s.len() {
            (s, None)
        } else if i + 1 < s.len() && s[i + 1] == 37 {
            let r = spec_parse_format(s.subrange(i + 2, s.len() as int));
            (s.subrange(0, i).push(37u8) + r.0, r.1)
        } else {
            match conversion_at(s, i + 1) {
                None => (s, None),
                Some((spec, e)) => (s.subrange(0, i), Some((spec, s.subrange(e, s.len() as int)))),
            }
        },
    }
}

proof fn lemma_index_of_bounds(s: Seq<u8>, c: u8, i: int)
    requires
        0 <= i,
    ensures
        index_of(s, c, i) matches Some(p) ==> i <= p < s.len() && s[p] == c && forall|k: int| i <= k < p ==> s[k] != c,
        index_of(s, c, i) is None ==> forall|k: int| i <= k < s.len() ==> s[k] != c,
    decreases s.len() - i,
{
    if i < s.len() && s[i] != c {
        lemma_index_of_bounds(s, c, i + 1);
    }
}

/// Reads a run of digits of `s` from `j`: its end and its saturated value.
fn read_digits(s: &[u8], j: usize) -> (r: (usize, usize))
    requires
        j <= s@.len(),
    ensures
        r.0 == digits_end(s@, j as int),
        j <= r.0 <= s@.len(),
        r.1 == sat_value(s@.subrange(j as int, r.0 as int)),
{
    let mut k = j;
    let mut v: usize = 0;
    assert(s@.subrange(j as int, j as int) =~= Seq::<u8>::empty());
    while k < s.len() && 48u8 <= s[k] && s[k] <= 57u8
        invariant
            j <= k <= s@.len(),
            digits_end(s@, j as int) == digits_end(s@, k as int),
            v == sat_value(s@.subrange(j as int, k as int)),
        decreases s@.len() - k,
    {
        let d = (s[k] - 48u8) as usize;
        let ghost pre = s@.subrange(j as int, k as int);
        proof {
            assert(s@.subrange(j as int, k + 1) =~= pre.push(s@[k as int]));
            lemma_digits_value_push(pre, s@[k as int]);
        }
        if v > (usize::MAX - d) / 10 {
            v = usize::MAX;
        } else {
            v = v * 10 + d;
        }
        k = k + 1;
    }
    (k, v)
}

/// Reads the conversion whose flags start at byte `j` of `s`.
fn read_conversion(s: &[u8], j: usize) -> (r: Option<(PrintfSpec, usize)>)
    requires
        j <= s@.len(),
    ensures
        r matches Some((spec, e)) ==> conversion_at(s@, j as int) == Some((spec, e as int)) && e <= s@.len(),
        r is None ==> conversion_at(s@, j as int) is None,
{
    let mut k = j;
    let mut zero = false;
    let mut left = false;
    let mut plus = false;
    let mut space = false;
    while k < s.len() && (s[k] == 48u8 || s[k] == 45u8 || s[k] == 43u8 || s[k] == 32u8 || s[k] == 35u8)
        invariant
            j <= k <= s@.len(),
            flags_end(s@, j as int) == flags_end(s@, k as int),
            zero == has_byte(s@, j as int, k as int, 48),
            left == has_byte(s@, j as int, k as int, 45),
            plus == has_byte(s@, j as int, k as int, 43),
            space == has_byte(s@, j as int, k as int, 32),
        decreases s@.len() - k,
    {
        let b = s[k];
        if b == 48u8 {
            zero = true;
        } else if b == 45u8 {
            left = true;
        } else if b == 43u8 {
            plus = true;
        } else if b == 32u8 {
            space = true;
        }
        proof {
            assert(s@[k as int] == b);
        }
        k = k + 1;
    }
    let fe = k;
    let (we, width) = read_digits(s, fe);
    let mut pe = we;
    let mut precision: Option<usize> = None;
    if we < s.len() && s[we] == 46u8 {
        let (e, p) = read_digits(s, we + 1);
        pe = e;
        precision = Some(p);
    }
    if pe >= s.len() {
        return None;
    }
    let spec = PrintfSpec {
        zero_pad: zero,
        left_align: left,
        plus_sign: plus,
        space_sign: space,
        width,
        precision,
        conv: s[pe],
    };
    Some((spec, pe + 1))
}

/// Reads a format: the text before its conversion (with `%%` read as `%`),
/// the conversion and the text after it, or the text to print as it is.
pub fn parse_format(s: &[u8]) -> (r: FormatParse)
    ensures
        match r {
            FormatParse::Literal(v) => spec_parse_format(s@) == (v@, None::<(PrintfSpec, Seq<u8>)>),
            FormatParse::Conversion { prefix, spec, suffix } => spec_parse_format(s@) == (
                prefix@,
                Some((spec, suffix@)),
            ),
        },
    decreases s@.len(),
{
    proof {
        lemma_index_of_bounds(s@, 37, 0);
    }
    let mut i: usize = 0;
    while i < s.len() && s[i] != 37u8
        invariant
            i <= s@.len(),
            index_of(s@, 37, 0) == index_of(s@, 37, i as int),
        decreases s@.len() - i,
    {
        i = i + 1;
    }
    if i >= s.len() {
        return FormatParse::Literal(vstd::slice::slice_to_vec(s));
    }
    assert(index_of(s@, 37, 0) == Some(i as int));
    if i + 1 < s.len() && s[i + 1] == 37u8 {
        let rest = &s[i + 2..s.len()];
        let mut head: Vec<u8> = vstd::slice::slice_to_vec(&s[0..i]);
        head.push(37u8);
        assert(head@ =~= s@.subrange(0, i as int).push(37u8));
        assert(rest@ =~= s@.subrange(i + 2, s@.len() as int));
        match parse_format(rest) {
            FormatParse::Literal(v) => {
                let mut out = head;
                out.extend_from_slice(v.as_slice());
                FormatParse::Literal(out)
            },
            FormatParse::Conversion { prefix, spec, suffix } => {
                let mut out = head;
                out.extend_from_slice(prefix.as_slice());
                FormatParse::Conversion { prefix: out, spec, suffix }
            },
        }
    } else {
        match read_conversion(s, i + 1) {
            None => FormatParse::Literal(vstd::slice::slice_to_vec(s)),
            Some((spec, e)) => FormatParse::Conversion {
                prefix: vstd::slice::slice_to_vec(&s[0..i]),
                spec,
                suffix: vstd::slice::slice_to_vec(&s[e..s.len()]),
            },
        }
    }
}

/// `n` copies of `b`.
pub open spec fn fill(n: int, b: u8) -> Seq<u8> {
    Seq::new(if n < 0 { 0 } else { n as nat }, |i: int| b)
}

/// The sign put before a number that is not negative, as the flags ask.
pub open spec fn sign_text(spec: PrintfSpec, negative: bool) -> Seq<u8> {
    if negative {
        Seq::empty()
    } else if spec.plus_sign {
        seq![43u8]
    } else if spec.space_sign {
        seq![32u8]
    } else {
        Seq::empty()
    }
}

/// The converted number with its sign, before padding.
pub open spec fn signed_text(spec: PrintfSpec, negative: bool, num: Seq<u8>) -> Seq<u8> {
    let sign = sign_text(spec, negative);
    if sign.len() > 0 && !(num.len() > 0 && num[0] == 45) { sign + num } else { num }
}

/// The number padded to the width: spaces on the right with `-`; zeros after
/// a leading sign with `0`; else spaces on the left.
pub open spec fn padded_text(spec: PrintfSpec, negative: bool, num: Seq<u8>) -> Seq<u8> {
    let t = signed_text(spec, negative, num);
    if spec.width > 0 && t.len() < spec.width {
        let pad = spec.width - t.len();
        if spec.left_align {
            t + fill(pad, 32)
        } else if spec.zero_pad {
            if t.len() > 0 && (t[0] == 45 || t[0] == 43 || t[0] == 32) {
                seq![t[0]] + fill(pad, 48) + t.drop_first()
            } else {
                fill(pad, 48) + t
            }
        } else {
            fill(pad, 32) + t
        }
    } else {
        t
    }
}

fn push_fill(out: &mut Vec<u8>, n: usize, b: u8)
    ensures
        final(out)@ == old(out)@ + fill(n as int, b),
{
    let ghost start = out@;
    let mut k: usize = 0;
    while k < n
        invariant
            k <= n,
            out@ == start + fill(k as int, b),
        decreases n - k,
    {
        out.push(b);
        k = k + 1;
        assert(out@ =~= start + fill(k as int, b));
    }
}

/// Puts the sign the flags ask for before the converted number `num` (whose
/// value is negative when `negative`) and pads it to the width.
pub fn pad_formatted(spec: PrintfSpec, negative: bool, num: &[u8]) -> (r: Vec<u8>)
    ensures
        r@ == padded_text(spec, negative, num@),
{
    let mut t: Vec<u8> = Vec::new();
    let starts_minus = num.len() > 0 && num[0] == 45u8;
    if !negative && (spec.plus_sign || spec.space_sign) && !starts_minus {
        t.push(if spec.plus_sign { 43u8 } else { 32u8 });
    }
    t.extend_from_slice(num);
    assert(t@ =~= signed_text(spec, negative, num@));
    if spec.width > 0 && t.len() < spec.width {
        let pad = spec.width - t.len();
        let mut out: Vec<u8> = Vec::new();
        if spec.left_align {
            out.extend_from_slice(t.as_slice());
            push_fill(&mut out, pad, 32u8);
        } else if spec.zero_pad {
            if t.len() > 0 && (t[0] == 45u8 || t[0] == 43u8 || t[0] == 32u8) {
                out.push(t[0]);
                push_fill(&mut out, pad, 48u8);
                out.extend_from_slice(&t.as_slice()[1..t.len()]);
                assert(out@ =~= seq![t@[0]] + fill(pad as int, 48) + t@.drop_first());
            } else {
                push_fill(&mut out, pad, 48u8);
                out.extend_from_slice(t.as_slice());
            }
        } else {
            push_fill(&mut out, pad, 32u8);
            out.extend_from_slice(t.as_slice());
        }
        out
    } else {
        t
    }
}

} // verus!
