//! Arithmetic sequences of numbers as text: the precision and shape of the
//! operands, the rendering of integers (plain, zero-padded to a common width,
//! or as fixed-point values scaled by a power of ten), and the sequence
//! `FIRST, FIRST+INCREMENT, ...` up to `LAST`, separated and ended by a newline.

use vstd::prelude::*;
use vstd::string::*;
use crate::decimal::{decimal, i64_to_decimal, is_digit, lemma_decimal_roundtrip, pow10, signed_decimal, u64_to_decimal};
use crate::sum::{pad_left, pad_left_bytes};

verus! {

// ---------------------------------------------------------------------------
// Operands
// ---------------------------------------------------------------------------

/// `s` without one leading `-`.
pub open spec fn strip_minus(s: Seq<u8>) -> Seq<u8> {
    if s.len() > 0 && s[0] == 45 { s.drop_first() } else { s }
}

/// The length of `s` once its trailing bytes equal to `c` are removed.
pub open spec fn trimmed_end_len(s: Seq<u8>, c: u8, j: int) -> int
    decreases j,
{
    if j <= 0 || j > s.len() || s[j - 1] != c {
        if j < 0 { 0 } else { j }
    } else {
        trimmed_end_len(s, c, j - 1)
    }
}

/// `s` without its trailing bytes equal to `c`, as `trim_end_matches` gives it.
pub open spec fn trim_end_byte(s: Seq<u8>, c: u8) -> Seq<u8> {
    s.subrange(0, trimmed_end_len(s, c, s.len() as int))
}

/// The index of the first `c` in `s` from `i` on.
pub open spec fn index_of(s: Seq<u8>, c: u8, i: int) -> Option<int>
    decreases s.len() - i,
{
    if i < 0 || i >= s.len() {
        None
    } else if s[i] == c {
        Some(i)
    } else {
        index_of(s, c, i + 1)
    }
}

/// The number of decimal places of a number's text: the digits after its
/// `.` once trailing zeros are dropped.
pub open spec fn spec_decimal_places(b: Seq<u8>) -> int {
    let s = strip_minus(b);
    match index_of(s, 46, 0) {
        Some(p) => trim_end_byte(s.subrange(p + 1, s.len() as int), 48).len() as int,
        None => 0,
    }
}

proof fn lemma_trimmed_end_len_bounds(s: Seq<u8>, c: u8, j: int)
    requires
        0 <= j <= s.len(),
    ensures
        0 <= trimmed_end_len(s, c, j) <= j,
        forall|k: int| trimmed_end_len(s, c, j) <= k < j ==> s[k] == c,
    decreases j,
{
    if j > 0 && s[j - 1] == c {
        lemma_trimmed_end_len_bounds(s, c, j - 1);
    }
}

/// The length of `s[..j]` once its trailing bytes equal to `c` are removed.
fn trimmed_end_len_exec(s: &[u8], c: u8, j: usize) -> (r: usize)
    requires
        j <= s.len(),
    ensures
        r == trimmed_end_len(s@, c, j as int),
        r <= j,
{
    let mut k = j;
    proof { lemma_trimmed_end_len_bounds(s@, c, j as int); }
    while k > 0 && s[k - 1] == c
        invariant
            k <= j <= s.len(),
            trimmed_end_len(s@, c, j as int) == trimmed_end_len(s@, c, k as int),
        decreases k,
    {
        k = k - 1;
    }
    k
}

fn index_of_exec(s: &[u8], c: u8, i: usize) -> (r: Option<usize>)
    requires
        i <= s.len(),
    ensures
        r matches Some(p) ==> index_of(s@, c, i as int) == Some(p as int) && i <= p < s.len(),
        r is None ==> index_of(s@, c, i as int) is None,
{
    let mut k = i;
    while k < s.len()
        invariant
            i <= k <= s.len(),
            index_of(s@, c, i as int) == index_of(s@, c, k as int),
        decreases s.len() - k,
    {
        if s[k] == c {
            return Some(k);
        }
        k = k + 1;
    }
    None
}

/// The number of decimal places of a number's text, ignoring trailing zeros
/// after the point.
pub fn decimal_places(s: &str) -> (r: usize)
    ensures
        r == spec_decimal_places(s.spec_bytes()),
{
    let b = s.as_bytes();
    let t = if b.len() > 0 && b[0] == 45u8 { &b[1..b.len()] } else { b };
    assert(t@ =~= strip_minus(b@));
    match index_of_exec(t, 46u8, 0) {
        Some(p) => {
            let frac = &t[p + 1..t.len()];
            let n = trimmed_end_len_exec(frac, 48u8, frac.len());
            assert(trim_end_byte(frac@, 48).len() == n);
            assert(frac@ =~= t@.subrange(p + 1, t@.len() as int));
            n
        },
        None => 0,
    }
}

/// The width a number's text takes: its length in bytes.
pub fn number_width(s: &str) -> (r: usize)
    ensures
        r == s.spec_bytes().len(),
{
    s.as_bytes().len()
}

/// The width a number's text takes for equal-width output.
pub fn display_width(s: &str) -> (r: usize)
    ensures
        r == s.spec_bytes().len(),
{
    number_width(s)
}

/// Whether `b` is an integer: an optional `-`, then at least one ASCII digit
/// and nothing else.
pub open spec fn spec_is_integer(b: Seq<u8>) -> bool {
    let s = strip_minus(b);
    s.len() > 0 && forall|i: int| 0 <= i < s.len() ==> is_digit(#[trigger] s[i])
}

/// Whether the text is an integer: an optional `-` and then digits only.
pub fn is_integer_str(s: &str) -> (r: bool)
    ensures
        r == spec_is_integer(s.spec_bytes()),
{
    let b = s.as_bytes();
    let t = if b.len() > 0 && b[0] == 45u8 { &b[1..b.len()] } else { b };
    assert(t@ =~= strip_minus(b@));
    if t.len() == 0 {
        return false;
    }
    let mut i: usize = 0;
    while i < t.len()
        invariant
            i <= t.len(),
            t@ == strip_minus(s.spec_bytes()),
            forall|k: int| 0 <= k < i ==> is_digit(#[trigger] t@[k]),
        decreases t.len() - i,
    {
        if t[i] < 48u8 || t[i] > 57u8 {
            assert(!is_digit(t@[i as int]));
            return false;
        }
        i = i + 1;
    }
    true
}

/// The index of the first `e` or `E` in `s`.
pub open spec fn exponent_at(s: Seq<u8>, i: int) -> Option<int>
    decreases s.len() - i,
{
    if i < 0 || i >= s.len() {
        None
    } else if s[i] == 101 || s[i] == 69 {
        Some(i)
    } else {
        exponent_at(s, i + 1)
    }
}

/// A mantissa with a decimal point loses its trailing zeros, then a point
/// left bare; a mantissa without a point is kept as it is.
pub open spec fn trim_mantissa(m: Seq<u8>) -> Seq<u8> {
    if index_of(m, 46, 0) is Some {
        trim_end_byte(trim_end_byte(m, 48), 46)
    } else {
        m
    }
}

/// A `%g` rendering with the trailing zeros after the point of its mantissa
/// (and a point left bare) removed; an exponent is kept as it is.
pub open spec fn spec_trim_g(s: Seq<u8>) -> Seq<u8> {
    match exponent_at(s, 0) {
        Some(p) => trim_mantissa(s.subrange(0, p)) + s.subrange(p, s.len() as int),
        None => trim_mantissa(s),
    }
}

/// Removes trailing zeros (and then a bare point) from the mantissa of a
/// `%g` rendering, keeping an exponent.
pub fn trim_g_trailing_zeros(s: &str) -> (r: Vec<u8>)
    ensures
        r@ == spec_trim_g(s.spec_bytes()),
{
    let b = s.as_bytes();
    let mut i: usize = 0;
    while i < b.len() && b[i] != 101u8 && b[i] != 69u8
        invariant
            i <= b.len(),
            exponent_at(b@, 0) == exponent_at(b@, i as int),
        decreases b.len() - i,
    {
        i = i + 1;
    }
    let m = &b[0..i];
    let has_point = index_of_exec(m, 46u8, 0).is_some();
    let z = if has_point { trimmed_end_len_exec(m, 48u8, m.len()) } else { m.len() };
    let mz = &m[0..z];
    let d = if has_point { trimmed_end_len_exec(mz, 46u8, mz.len()) } else { mz.len() };
    let mut out: Vec<u8> = Vec::new();
    out.extend_from_slice(&mz[0..d]);
    let mut j = i;
    while j < b.len()
        invariant
            i <= j <= b.len(),
            out@ =~= mz@.subrange(0, d as int) + b@.subrange(i as int, j as int),
        decreases b.len() - j,
    {
        out.push(b[j]);
        j = j + 1;
    }
    proof {
        if has_point {
            assert(mz@ =~= trim_end_byte(m@, 48));
        } else {
            assert(mz@ =~= m@);
        }
        assert(mz@.subrange(0, d as int) =~= trim_mantissa(m@));
        if i < b.len() {
            assert(exponent_at(b@, 0) == Some(i as int));
        } else {
            assert(exponent_at(b@, i as int) is None);
            assert(m@ =~= b@);
            assert(b@.subrange(i as int, j as int) =~= Seq::<u8>::empty());
        }
    }
    out
}

/// The decimal text of an integer.
pub fn format_int_value(v: i64) -> (r: Vec<u8>)
    ensures
        r@ == signed_decimal(v as int),
{
    i64_to_decimal(v)
}

// ---------------------------------------------------------------------------
// Rendering numbers
// ---------------------------------------------------------------------------

/// How each number of a sequence is written.
#[derive(Clone, Copy, Debug, PartialEq, Eq, Structural)]
pub enum NumberStyle {
    /// Plain decimal.
    Plain,
    /// Zero-padded to this width, a minus sign counting in the width.
    ZeroPad(usize),
    /// A value scaled by ten to this many places, written with that many
    /// digits after the point.
    Scaled(usize),
}

/// `v` zero-padded to `width` (a minus sign first, counted in the width).
pub open spec fn zero_padded(v: int, width: int) -> Seq<u8> {
    if v < 0 {
        seq![45u8] + pad_left(decimal((-v) as nat), width - 1, 48)
    } else {
        pad_left(decimal(v as nat), width, 48)
    }
}

/// `v / 10^prec` written with exactly `prec` digits after the point.
pub open spec fn scaled_text(v: int, prec: nat) -> Seq<u8> {
    let a = if v < 0 { -v } else { v };
    let scale = pow10(prec) as int;
    let sign = if v < 0 { seq![45u8] } else { Seq::<u8>::empty() };
    sign + decimal((a / scale) as nat) + seq![46u8] + pad_left(decimal((a % scale) as nat), prec as int, 48)
}

/// How the value `v` is written in `style`.
pub open spec fn render(style: NumberStyle, v: int) -> Seq<u8> {
    match style {
        NumberStyle::Plain => signed_decimal(v),
        NumberStyle::ZeroPad(w) => zero_padded(v, w as int),
        NumberStyle::Scaled(p) => scaled_text(v, p as nat),
    }
}

/// Whether the style can be written: a scale of 1 to 18 places.
pub open spec fn style_ok(style: NumberStyle) -> bool {
    match style {
        NumberStyle::Scaled(p) => 1 <= p <= 18,
        _ => true,
    }
}

/// Writes `v` zero-padded to `width`.
pub fn zero_pad_int(v: i64, width: usize) -> (r: Vec<u8>)
    ensures
        r@ == zero_padded(v as int, width as int),
{
    let s = i64_to_decimal(v);
    if v < 0 {
        let digits = &s.as_slice()[1..s.len()];
        assert(digits@ =~= decimal((-v) as nat));
        let w: usize = if width >= 1 { width - 1 } else { 0 };
        let mut out: Vec<u8> = Vec::new();
        out.push(45u8);
        let p = pad_left_bytes(digits, w, 48u8);
        out.extend_from_slice(p.as_slice());
        assert(pad_left(decimal((-v) as nat), width - 1, 48) == pad_left(decimal((-v) as nat), w as int, 48)) by {
            lemma_decimal_roundtrip((-v) as nat);
        }
        assert(out@ =~= zero_padded(v as int, width as int));
        out
    } else {
        pad_left_bytes(s.as_slice(), width, 48u8)
    }
}

/// Every power of ten is at least 1.
pub proof fn lemma_pow10_pos(k: nat)
    ensures
        pow10(k) >= 1,
    decreases k,
{
    if k > 0 {
        lemma_pow10_pos((k - 1) as nat);
    }
}

/// A number below `10^k` has at most `k` digits (`k >= 1`).
pub proof fn lemma_decimal_len_bound(n: nat, k: nat)
    requires
        k >= 1,
        n < pow10(k),
    ensures
        decimal(n).len() <= k,
    decreases k,
{
    if n >= 10 {
        assert(k >= 2) by {
            if k == 1 {
                assert(pow10(1) == 10 * pow10(0));
            }
        }
        assert(pow10(k) == 10 * pow10((k - 1) as nat));
        assert(n / 10 < pow10((k - 1) as nat));
        lemma_decimal_len_bound(n / 10, (k - 1) as nat);
    }
}

/// Writes `val / scale` with `prec` digits after the point, where `scale` is
/// `10^prec`.
pub fn write_scaled_int(val: i64, prec: usize, scale: i64) -> (r: Vec<u8>)
    requires
        1 <= prec <= 18,
        scale == pow10(prec as nat),
    ensures
        r@ == scaled_text(val as int, prec as nat),
{
    let negative = val < 0;
    let abs_val: u64 = if negative { (0u64).wrapping_sub(val as u64) } else { val as u64 };
    proof {
        if negative {
            assert((0u64).wrapping_sub(val as u64) == -(val as int)) by (bit_vector)
                requires val < 0i64;
        }
        lemma_pow10_pos(prec as nat);
    }
    let scale_u = scale as u64;
    let int_part = abs_val / scale_u;
    let frac_part = abs_val % scale_u;
    let mut out: Vec<u8> = Vec::new();
    if negative {
        out.push(45u8);
    }
    let ip = u64_to_decimal(int_part);
    out.extend_from_slice(ip.as_slice());
    out.push(46u8);
    let fp = u64_to_decimal(frac_part);
    proof {
        lemma_decimal_len_bound(frac_part as nat, prec as nat);
    }
    let padded = pad_left_bytes(fp.as_slice(), prec, 48u8);
    out.extend_from_slice(padded.as_slice());
    assert(out@ =~= scaled_text(val as int, prec as nat));
    out
}

/// Writes `v` in `style`.
pub fn render_value(style: NumberStyle, v: i64) -> (r: Vec<u8>)
    requires
        style_ok(style),
    ensures
        r@ == render(style, v as int),
{
    match style {
        NumberStyle::Plain => i64_to_decimal(v),
        NumberStyle::ZeroPad(w) => zero_pad_int(v, w),
        NumberStyle::Scaled(p) => {
            let mut scale: i64 = 1;
            let mut k: usize = 0;
            while k < p
                invariant
                    k <= p <= 18,
                    scale == pow10(k as nat),
                    scale <= 1_000_000_000_000_000_000,
                decreases p - k,
            {
                proof {
                    assert(pow10((k + 1) as nat) == 10 * pow10(k as nat));
                    lemma_pow10_le(k as nat, 17);
                }
                scale = scale * 10;
                k = k + 1;
            }
            write_scaled_int(v, p, scale)
        },
    }
}

proof fn lemma_pow10_le(k: nat, m: nat)
    requires
        k <= m,
        m <= 17,
    ensures
        pow10(k) <= 100_000_000_000_000_000,
    decreases m - k,
{
    if k < m {
        lemma_pow10_le(k + 1, m);
        lemma_pow10_pos(k);
        assert(pow10(k + 1) == 10 * pow10(k));
    } else {
        assert(pow10(17) == 100_000_000_000_000_000) by {
            reveal_with_fuel(pow10, 18);
        }
        lemma_pow10_mono(k, 17);
    }
}

proof fn lemma_pow10_mono(a: nat, b: nat)
    requires
        a <= b,
    ensures
        pow10(a) <= pow10(b),
    decreases b - a,
{
    if a < b {
        lemma_pow10_mono(a, (b - 1) as nat);
        lemma_pow10_pos((b - 1) as nat);
        assert(pow10(b) == 10 * pow10((b - 1) as nat));
    }
}

// ---------------------------------------------------------------------------
// Sequences
// ---------------------------------------------------------------------------

/// Term `k` (from 0) of the sequence starting at `first` with step `inc`.
pub open spec fn term(first: i64, inc: i64, k: int) -> int {
    first + k * inc
}

/// The number of terms from `first` by `inc` that do not pass `last`.
pub open spec fn term_count(first: i64, inc: i64, last: i64) -> nat {
    if inc > 0 {
        if first > last { 0 } else { ((last - first) / (inc as int) + 1) as nat }
    } else if inc < 0 {
        if first < last { 0 } else { ((first - last) / (-inc) + 1) as nat }
    } else {
        0
    }
}

/// Whether the step is not zero and stepping once past the last term stays
/// within 64 bits (the loop computes that value before it stops).
pub open spec fn sequence_fits(first: i64, inc: i64, last: i64) -> bool {
    inc != 0 && i64::MIN <= term(first, inc, term_count(first, inc, last) as int) <= i64::MAX
}

/// Term `k` as written: after the separator unless it is the first term.
pub open spec fn piece(first: i64, inc: i64, sep: Seq<u8>, style: NumberStyle, k: int) -> Seq<u8> {
    (if k > 0 { sep } else { Seq::<u8>::empty() }) + render(style, term(first, inc, k))
}

/// Terms `k0` to `k0 + c - 1` as written.
pub open spec fn terms_out(first: i64, inc: i64, sep: Seq<u8>, style: NumberStyle, k0: int, c: nat) -> Seq<u8>
    decreases c,
{
    if c == 0 {
        Seq::<u8>::empty()
    } else {
        terms_out(first, inc, sep, style, k0, (c - 1) as nat) + piece(first, inc, sep, style, k0 + c - 1)
    }
}

/// The whole output: every term that does not pass `last`, separated, and a
/// newline after the last one (nothing at all when there is no term).
pub open spec fn sequence_text(first: i64, inc: i64, last: i64, sep: Seq<u8>, style: NumberStyle) -> Seq<u8> {
    let n = term_count(first, inc, last);
    if n == 0 {
        Seq::<u8>::empty()
    } else {
        terms_out(first, inc, sep, style, 0, n) + seq![10u8]
    }
}

/// Whether term `k` has not passed `last`.
pub open spec fn not_past(first: i64, inc: i64, last: i64, k: int) -> bool {
    if inc > 0 { term(first, inc, k) <= last } else { term(first, inc, k) >= last }
}

/// A term is printed exactly when it has not passed `last`: the first
/// `term_count` terms have not, and every later one has.
pub proof fn lemma_terms_not_past(first: i64, inc: i64, last: i64, k: int)
    requires
        inc != 0,
        k >= 0,
    ensures
        not_past(first, inc, last, k) <==> k < term_count(first, inc, last),
{
    let n = term_count(first, inc, last) as int;
    if inc > 0 {
        let d = last - first;
        if d >= 0 {
            let q = d / (inc as int);
            vstd::arithmetic::div_mod::lemma_fundamental_div_mod(d, inc as int);
            let r = d % (inc as int);
            assert(d == q * inc + r);
            assert(0 <= r < inc);
            if k <= q {
                assert(k * inc <= q * inc) by (nonlinear_arith)
                    requires
                        k <= q,
                        inc > 0,
                ;
            } else {
                assert(k * inc >= (q + 1) * inc) by (nonlinear_arith)
                    requires
                        k >= q + 1,
                        inc > 0,
                ;
                assert((q + 1) * inc == q * inc + inc) by (nonlinear_arith);
            }
        } else {
            assert(k * inc >= 0) by (nonlinear_arith)
                requires
                    k >= 0,
                    inc > 0,
            ;
        }
    } else {
        let m = -inc;
        let d = first - last;
        assert(k * inc == -(k * m)) by (nonlinear_arith)
            requires
                m == -inc,
        ;
        if d >= 0 {
            let q = d / m;
            vstd::arithmetic::div_mod::lemma_fundamental_div_mod(d, m);
            let r = d % m;
            assert(d == q * m + r);
            assert(0 <= r < m);
            if k <= q {
                assert(k * m <= q * m) by (nonlinear_arith)
                    requires
                        k <= q,
                        m > 0,
                ;
            } else {
                assert(k * m >= (q + 1) * m) by (nonlinear_arith)
                    requires
                        k >= q + 1,
                        m > 0,
                ;
                assert((q + 1) * m == q * m + m) by (nonlinear_arith);
            }
        } else {
            assert(k * m >= 0) by (nonlinear_arith)
                requires
                    k >= 0,
                    m > 0,
            ;
        }
    }
}

/// Every term up to the one after the last printed lies between `first` and
/// that one, so it fits in 64 bits.
proof fn lemma_term_fits(first: i64, inc: i64, last: i64, k: int)
    requires
        sequence_fits(first, inc, last),
        0 <= k <= term_count(first, inc, last),
    ensures
        i64::MIN <= term(first, inc, k) <= i64::MAX,
{
    let n = term_count(first, inc, last) as int;
    if inc > 0 {
        assert(0 <= k * inc <= n * inc) by (nonlinear_arith)
            requires
                0 <= k <= n,
                inc > 0,
        ;
    } else {
        assert(n * inc <= k * inc <= 0) by (nonlinear_arith)
            requires
                0 <= k <= n,
                inc < 0,
        ;
    }
}

/// Writing terms in pieces gives the same text as writing them at once.
pub proof fn lemma_terms_split(first: i64, inc: i64, sep: Seq<u8>, style: NumberStyle, k0: int, a: nat, b: nat)
    ensures
        terms_out(first, inc, sep, style, k0, a) + terms_out(first, inc, sep, style, k0 + a, b)
            == terms_out(first, inc, sep, style, k0, a + b),
    decreases b,
{
    if b == 0 {
        assert(terms_out(first, inc, sep, style, k0, a) + Seq::<u8>::empty() =~= terms_out(first, inc, sep, style, k0, a));
    } else {
        lemma_terms_split(first, inc, sep, style, k0, a, (b - 1) as nat);
        assert(((a + b) - 1) as nat == a + (b - 1) as nat);
        assert(k0 + a + b - 1 == k0 + (a + b) - 1);
        assert(terms_out(first, inc, sep, style, k0, a) + terms_out(first, inc, sep, style, k0 + a, b)
            =~= terms_out(first, inc, sep, style, k0, a) + terms_out(first, inc, sep, style, k0 + a, (b - 1) as nat)
                + piece(first, inc, sep, style, k0 + a + b - 1));
    }
}

/// The number of terms from `first` by `inc` that do not pass `last`.
pub fn sequence_length(first: i64, inc: i64, last: i64) -> (r: u64)
    requires
        sequence_fits(first, inc, last),
    ensures
        r == term_count(first, inc, last),
{
    let ghost n = term_count(first, inc, last) as int;
    proof {
        if inc > 0 {
            assert(n <= n * inc) by (nonlinear_arith)
                requires
                    n >= 0,
                    inc >= 1,
            ;
        } else {
            assert(n <= n * (-inc)) by (nonlinear_arith)
                requires
                    n >= 0,
                    inc <= -1,
            ;
            assert(n * (-inc) == -(n * inc)) by (nonlinear_arith);
        }
        assert(n <= u64::MAX);
    }
    if inc > 0 {
        if first > last {
            0
        } else {
            let d: u128 = (last as i128 - first as i128) as u128;
            let q: u128 = d / (inc as u128);
            (q + 1) as u64
        }
    } else {
        if first < last {
            0
        } else {
            let d: u128 = (first as i128 - last as i128) as u128;
            let m: u128 = (-(inc as i128)) as u128;
            let q: u128 = d / m;
            (q + 1) as u64
        }
    }
}

/// Writes terms `k0` to `k0 + count - 1` of the sequence, each after the
/// separator unless it is term 0.
pub fn render_terms(first: i64, inc: i64, last: i64, sep: &[u8], style: NumberStyle, k0: u64, count: u64) -> (r: Vec<u8>)
    requires
        sequence_fits(first, inc, last),
        style_ok(style),
        k0 + count <= term_count(first, inc, last),
    ensures
        r@ == terms_out(first, inc, sep@, style, k0 as int, count as nat),
{
    proof {
        lemma_term_fits(first, inc, last, k0 as int);
        assert(-0x8000_0000_0000_0000_0000_0000_0000_0000 < k0 * inc < 0x8000_0000_0000_0000_0000_0000_0000_0000)
            by (nonlinear_arith)
            requires
                0 <= k0 <= u64::MAX,
                i64::MIN <= inc <= i64::MAX,
        ;
    }
    let start: i128 = first as i128 + (k0 as i128) * (inc as i128);
    let mut current: i64 = start as i64;
    let mut out: Vec<u8> = Vec::new();
    let mut j: u64 = 0;
    while j < count
        invariant
            j <= count,
            k0 + count <= term_count(first, inc, last),
            sequence_fits(first, inc, last),
            style_ok(style),
            current == term(first, inc, k0 + j),
            out@ == terms_out(first, inc, sep@, style, k0 as int, j as nat),
        decreases count - j,
    {
        if k0 + j > 0 {
            out.extend_from_slice(sep);
        }
        let v = render_value(style, current);
        out.extend_from_slice(v.as_slice());
        proof {
            assert(out@ =~= terms_out(first, inc, sep@, style, k0 as int, j as nat) + piece(
                first,
                inc,
                sep@,
                style,
                k0 + j,
            ));
            assert(((j + 1) - 1) as nat == j as nat);
            lemma_term_fits(first, inc, last, k0 + j + 1);
            assert(term(first, inc, k0 + j + 1) == term(first, inc, k0 + j) + inc) by (nonlinear_arith);
        }
        current = current + inc;
        j = j + 1;
    }
    out
}

/// Writes the whole sequence: every term from `first` by `inc` that does not
/// pass `last`, separated by `sep`, and a final newline when there is a term.
pub fn render_sequence(first: i64, inc: i64, last: i64, sep: &[u8], style: NumberStyle) -> (r: Vec<u8>)
    requires
        sequence_fits(first, inc, last),
        style_ok(style),
    ensures
        r@ == sequence_text(first, inc, last, sep@, style),
{
    let n = sequence_length(first, inc, last);
    if n == 0 {
        return Vec::new();
    }
    let mut out = render_terms(first, inc, last, sep, style, 0, n);
    out.push(10u8);
    out
}

/// The width of equal-width output: the longer decimal text of `first` and `last`.
pub open spec fn common_width(first: i64, last: i64) -> int {
    let a = signed_decimal(first as int).len() as int;
    let b = signed_decimal(last as int).len() as int;
    if a >= b { a } else { b }
}

/// The width of equal-width output for integers from `first` to `last`.
pub fn equal_width_of(first: i64, last: i64) -> (r: usize)
    ensures
        r == common_width(first, last),
{
    let a = format_int_value(first).len();
    let b = format_int_value(last).len();
    if a >= b { a } else { b }
}

/// Smaller numbers have no longer decimal renderings.
pub proof fn lemma_decimal_len_mono(a: nat, b: nat)
    requires
        a <= b,
    ensures
        decimal(a).len() <= decimal(b).len(),
    decreases b,
{
    if b >= 10 && a >= 10 {
        lemma_decimal_len_mono(a / 10, b / 10);
    } else if b >= 10 {
        lemma_decimal_roundtrip(b / 10);
    }
}

/// With equal width, every printed term is zero-padded to exactly the width
/// of the longer of `first` and `last`.
pub proof fn lemma_equal_width(first: i64, inc: i64, last: i64, k: int)
    requires
        inc != 0,
        0 <= k < term_count(first, inc, last),
    ensures
        zero_padded(term(first, inc, k), common_width(first, last)).len() == common_width(first, last),
{
    lemma_terms_not_past(first, inc, last, k);
    let v = term(first, inc, k);
    let w = common_width(first, last);
    if inc > 0 {
        assert(k * inc >= 0) by (nonlinear_arith)
            requires
                k >= 0,
                inc > 0,
        ;
        assert(first <= v <= last);
    } else {
        assert(k * inc <= 0) by (nonlinear_arith)
            requires
                k >= 0,
                inc < 0,
        ;
        assert(last <= v <= first);
    }
    let lo: int = if first <= last { first as int } else { last as int };
    let hi: int = if first <= last { last as int } else { first as int };
    assert(lo <= v <= hi);
    assert(signed_decimal(lo).len() <= w && signed_decimal(hi).len() <= w);
    if v < 0 {
        lemma_decimal_len_mono((-v) as nat, (-lo) as nat);
        assert(signed_decimal(lo).len() == 1 + decimal((-lo) as nat).len());
    } else {
        lemma_decimal_len_mono(v as nat, hi as nat);
        assert(signed_decimal(hi).len() == decimal(hi as nat).len());
    }
}

} // verus!
