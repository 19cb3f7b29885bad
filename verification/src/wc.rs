//! Word-count reporting: which counts are shown, when a total line is
//! printed, how wide the columns are, the report lines themselves, newline
//! counting, and the file names of a `--files0-from` list.

use vstd::prelude::*;
use vstd::string::*;
use crate::bytes::{find_byte_from, first_index_from, lemma_first_index_from};
use crate::decimal::{decimal, lemma_decimal_roundtrip, pow10, u64_to_decimal};
use crate::seq::{lemma_decimal_len_bound, lemma_decimal_len_mono};
use crate::sum::{pad_left, pad_left_bytes};

verus! {

/// Which counts are shown.
#[derive(Clone, Copy, Debug, PartialEq, Eq, Structural)]
pub struct ShowFlags {
    pub lines: bool,
    pub words: bool,
    pub bytes: bool,
    pub chars: bool,
    pub max_line_length: bool,
}

impl ShowFlags {
    /// The counts to show for the options given: those asked for, or lines,
    /// words and bytes when none is.
    pub fn from_options(lines: bool, words: bool, bytes: bool, chars: bool, max_line_length: bool) -> (r: ShowFlags)
        ensures
            (!lines && !words && !bytes && !chars && !max_line_length) ==> r == (ShowFlags {
                lines: true,
                words: true,
                bytes: true,
                chars: false,
                max_line_length: false,
            }),
            (lines || words || bytes || chars || max_line_length) ==> r == (ShowFlags {
                lines,
                words,
                bytes,
                chars,
                max_line_length,
            }),
    {
        let none = !bytes && !chars && !words && !lines && !max_line_length;
        ShowFlags {
            lines: lines || none,
            words: words || none,
            bytes: bytes || none,
            chars,
            max_line_length,
        }
    }

    /// Whether only the byte count is shown, which needs no file content.
    pub fn bytes_only(&self) -> (r: bool)
        ensures
            r == (self.bytes && !self.lines && !self.words && !self.chars && !self.max_line_length),
    {
        self.bytes && !self.lines && !self.words && !self.chars && !self.max_line_length
    }

    /// Whether only the line count is shown.
    pub fn lines_only(&self) -> (r: bool)
        ensures
            r == (self.lines && !self.words && !self.bytes && !self.chars && !self.max_line_length),
    {
        self.lines && !self.words && !self.bytes && !self.chars && !self.max_line_length
    }

    /// The number of counts shown.
    pub fn column_count(&self) -> (r: usize)
        ensures
            r == self.spec_columns(),
    {
        (if self.lines { 1usize } else { 0 }) + (if self.words { 1usize } else { 0 }) + (if self.bytes { 1usize } else { 0 })
            + (if self.chars { 1usize } else { 0 }) + (if self.max_line_length { 1usize } else { 0 })
    }

    pub open spec fn spec_columns(&self) -> int {
        (if self.lines { 1int } else { 0 }) + (if self.words { 1int } else { 0 }) + (if self.bytes { 1int } else { 0 })
            + (if self.chars { 1int } else { 0 }) + (if self.max_line_length { 1int } else { 0 })
    }
}

/// The counts of one input, or their total.
#[derive(Clone, Copy, Debug, PartialEq, Eq, Structural)]
pub struct Counts {
    pub lines: u64,
    pub words: u64,
    pub bytes: u64,
    pub chars: u64,
    pub max_line_length: u64,
}

/// When a total line is printed (`--total=WHEN`).
#[derive(Clone, Copy, Debug, PartialEq, Eq, Structural)]
pub enum TotalMode {
    /// When there is more than one input.
    Auto,
    Always,
    Never,
    /// Only the total, without the lines of the inputs.
    Only,
}

/// `auto`, `always`, `never` or `only`.
pub open spec fn spec_total_mode(b: Seq<u8>) -> Option<TotalMode> {
    if b =~= seq![97u8, 117, 116, 111] {
        Some(TotalMode::Auto)
    } else if b =~= seq![97u8, 108, 119, 97, 121, 115] {
        Some(TotalMode::Always)
    } else if b =~= seq![110u8, 101, 118, 101, 114] {
        Some(TotalMode::Never)
    } else if b =~= seq![111u8, 110, 108, 121] {
        Some(TotalMode::Only)
    } else {
        None
    }
}

fn bytes_equal(a: &[u8], b: &[u8]) -> (r: bool)
    ensures
        r == (a@ =~= b@),
{
    if a.len() != b.len() {
        return false;
    }
    let mut i: usize = 0;
    while i < a.len()
        invariant
            a.len() == b.len(),
            i <= a.len(),
            forall|k: int| 0 <= k < i ==> a@[k] == b@[k],
        decreases a.len() - i,
    {
        if a[i] != b[i] {
            return false;
        }
        i = i + 1;
    }
    true
}

/// Reads a `--total` argument; `None` for anything but the four words.
pub fn parse_total_mode(s: &str) -> (r: Option<TotalMode>)
    ensures
        r == spec_total_mode(s.spec_bytes()),
{
    let b = s.as_bytes();
    let auto: [u8; 4] = [97, 117, 116, 111];
    let always: [u8; 6] = [97, 108, 119, 97, 121, 115];
    let never: [u8; 5] = [110, 101, 118, 101, 114];
    let only: [u8; 4] = [111, 110, 108, 121];
    assert(auto@ =~= seq![97u8, 117, 116, 111]);
    assert(always@ =~= seq![97u8, 108, 119, 97, 121, 115]);
    assert(never@ =~= seq![110u8, 101, 118, 101, 114]);
    assert(only@ =~= seq![111u8, 110, 108, 121]);
    if bytes_equal(b, &auto) {
        Some(TotalMode::Auto)
    } else if bytes_equal(b, &always) {
        Some(TotalMode::Always)
    } else if bytes_equal(b, &never) {
        Some(TotalMode::Never)
    } else if bytes_equal(b, &only) {
        Some(TotalMode::Only)
    } else {
        None
    }
}

/// Whether the total line is printed for `inputs` reported inputs.
pub open spec fn spec_show_total(mode: TotalMode, inputs: int) -> bool {
    match mode {
        TotalMode::Always => true,
        TotalMode::Never => false,
        TotalMode::Only => true,
        TotalMode::Auto => inputs > 1,
    }
}

/// Whether the total line is printed.
pub fn show_total(mode: TotalMode, inputs: usize) -> (r: bool)
    ensures
        r == spec_show_total(mode, inputs as int),
{
    match mode {
        TotalMode::Always => true,
        TotalMode::Never => false,
        TotalMode::Only => true,
        TotalMode::Auto => inputs > 1,
    }
}

/// Whether adding `c` to `t` keeps every sum within 64 bits.
pub open spec fn add_fits(t: Counts, c: Counts) -> bool {
    t.lines + c.lines <= u64::MAX && t.words + c.words <= u64::MAX && t.bytes + c.bytes <= u64::MAX
        && t.chars + c.chars <= u64::MAX
}

/// `t` with `c` added in: the counts summed, the longest line the longer.
pub open spec fn spec_add_counts(t: Counts, c: Counts) -> Counts {
    Counts {
        lines: (t.lines + c.lines) as u64,
        words: (t.words + c.words) as u64,
        bytes: (t.bytes + c.bytes) as u64,
        chars: (t.chars + c.chars) as u64,
        max_line_length: if c.max_line_length > t.max_line_length { c.max_line_length } else { t.max_line_length },
    }
}

/// Adds the counts of one input into the total.
pub fn add_counts(t: Counts, c: Counts) -> (r: Counts)
    requires
        add_fits(t, c),
    ensures
        r == spec_add_counts(t, c),
{
    Counts {
        lines: t.lines + c.lines,
        words: t.words + c.words,
        bytes: t.bytes + c.bytes,
        chars: t.chars + c.chars,
        max_line_length: if c.max_line_length > t.max_line_length { c.max_line_length } else { t.max_line_length },
    }
}

/// The number of decimal digits of `n`.
pub open spec fn digit_count(n: u64) -> int {
    decimal(n as nat).len() as int
}

/// The number of decimal digits needed to write `n`.
pub fn num_width(n: u64) -> (r: usize)
    ensures
        r == digit_count(n),
        1 <= r <= 20,
{
    proof {
        lemma_decimal_roundtrip(n as nat);
        assert(pow10(20) == 100_000_000_000_000_000_000) by {
            reveal_with_fuel(pow10, 21);
        }
        lemma_decimal_len_bound(n as nat, 20);
    }
    if n == 0 {
        return 1;
    }
    let mut width: usize = 0;
    let mut val = n;
    while val > 0
        invariant
            n > 0,
            decimal(n as nat).len() <= 20,
            val > 0 ==> decimal(n as nat).len() == width + decimal(val as nat).len(),
            val == 0 ==> decimal(n as nat).len() == width,
        decreases val,
    {
        proof {
            lemma_decimal_roundtrip(val as nat);
            if val >= 10 {
                assert(decimal(val as nat).len() == decimal((val / 10) as nat).len() + 1);
            }
        }
        val = val / 10;
        width = width + 1;
    }
    width
}

/// `val` right-aligned in `width` columns (padded with spaces).
pub open spec fn right_aligned(val: u64, width: int) -> Seq<u8> {
    pad_left(decimal(val as nat), width, 32)
}

/// Writes `val` right-aligned in `width` columns.
pub fn fmt_u64(val: u64, width: usize) -> (r: Vec<u8>)
    ensures
        r@ == right_aligned(val, width as int),
{
    let d = u64_to_decimal(val);
    pad_left_bytes(d.as_slice(), width, 32u8)
}

/// The shown counts, in the order lines, words, characters, bytes, longest line.
pub open spec fn shown_values(c: Counts, show: ShowFlags) -> Seq<u64> {
    (if show.lines { seq![c.lines] } else { Seq::<u64>::empty() })
        + (if show.words { seq![c.words] } else { Seq::<u64>::empty() })
        + (if show.chars { seq![c.chars] } else { Seq::<u64>::empty() })
        + (if show.bytes { seq![c.bytes] } else { Seq::<u64>::empty() })
        + (if show.max_line_length { seq![c.max_line_length] } else { Seq::<u64>::empty() })
}

/// The values right-aligned in `width` columns, separated by single spaces.
pub open spec fn fields_text(vals: Seq<u64>, width: int) -> Seq<u8>
    decreases vals.len(),
{
    if vals.len() == 0 {
        Seq::<u8>::empty()
    } else if vals.len() == 1 {
        right_aligned(vals[0], width)
    } else {
        fields_text(vals.drop_last(), width) + seq![32u8] + right_aligned(vals.last(), width)
    }
}

/// The report line: the shown counts, then a space and the name unless it
/// is empty, then a newline.
pub open spec fn counts_line(c: Counts, name: Seq<u8>, width: int, show: ShowFlags) -> Seq<u8> {
    fields_text(shown_values(c, show), width) + (if name.len() > 0 { seq![32u8] + name } else {
        Seq::<u8>::empty()
    }) + seq![10u8]
}

/// Writes the report line for one input or the total.
#[verifier::spinoff_prover]
#[verifier::rlimit(40)]
pub fn print_counts_fmt(c: &Counts, name: &str, width: usize, show: &ShowFlags) -> (r: Vec<u8>)
    ensures
        r@ == counts_line(*c, name.spec_bytes(), width as int, *show),
{
    let mut vals: Vec<u64> = Vec::new();
    if show.lines {
        vals.push(c.lines);
    }
    if show.words {
        vals.push(c.words);
    }
    if show.chars {
        vals.push(c.chars);
    }
    if show.bytes {
        vals.push(c.bytes);
    }
    if show.max_line_length {
        vals.push(c.max_line_length);
    }
    assert(vals@ =~= shown_values(*c, *show));
    let mut out: Vec<u8> = Vec::new();
    let mut i: usize = 0;
    while i < vals.len()
        invariant
            i <= vals.len(),
            out@ == fields_text(vals@.subrange(0, i as int), width as int),
        decreases vals.len() - i,
    {
        if i > 0 {
            out.push(32u8);
        }
        let f = fmt_u64(vals[i], width);
        out.extend_from_slice(f.as_slice());
        proof {
            let s = vals@.subrange(0, i + 1);
            assert(s.drop_last() =~= vals@.subrange(0, i as int));
            if i == 0 {
                assert(out@ =~= fields_text(s, width as int));
            } else {
                assert(out@ =~= fields_text(s, width as int));
            }
        }
        i = i + 1;
    }
    assert(vals@.subrange(0, vals.len() as int) =~= vals@);
    let nb = name.as_bytes();
    if nb.len() > 0 {
        out.push(32u8);
        out.extend_from_slice(nb);
    }
    out.push(10u8);
    assert(out@ =~= counts_line(*c, name.spec_bytes(), width as int, *show));
    out
}

/// The largest of the five counts.
pub open spec fn max_count(t: Counts) -> u64 {
    let a = if t.lines >= t.words { t.lines } else { t.words };
    let b = if a >= t.bytes { a } else { t.bytes };
    let c = if b >= t.chars { b } else { t.chars };
    if c >= t.max_line_length { c } else { t.max_line_length }
}

/// The one shown count of a single-column report.
pub open spec fn single_value(t: Counts, show: ShowFlags) -> u64 {
    if show.lines {
        t.lines
    } else if show.words {
        t.words
    } else if show.chars {
        t.chars
    } else if show.bytes {
        t.bytes
    } else if show.max_line_length {
        t.max_line_length
    } else {
        0
    }
}

/// The column width: 1 for `--total=only`; the natural width of the one
/// value when one column and at most one row are printed; else the digits of
/// the largest count, at least 7 when standard input is the only input.
pub open spec fn spec_column_width(mode: TotalMode, show: ShowFlags, total: Counts, inputs: int, has_stdin: bool) -> int {
    let with_total = spec_show_total(mode, inputs);
    let rows = if mode == TotalMode::Only {
        if with_total { 1int } else { 0 }
    } else {
        inputs + if with_total { 1int } else { 0 }
    };
    let min_width: int = if has_stdin && inputs == 1 { 7 } else { 1 };
    if mode == TotalMode::Only {
        1
    } else if show.spec_columns() <= 1 && rows <= 1 {
        digit_count(single_value(total, show))
    } else {
        let w = digit_count(max_count(total));
        if w >= min_width { w } else { min_width }
    }
}

/// Computes the column width of the report.
pub fn column_width(mode: TotalMode, show: ShowFlags, total: Counts, inputs: usize, has_stdin: bool) -> (r: usize)
    requires
        inputs < usize::MAX,
    ensures
        r == spec_column_width(mode, show, total, inputs as int, has_stdin),
{
    let with_total = show_total(mode, inputs);
    let rows: usize = if mode == TotalMode::Only {
        if with_total { 1 } else { 0 }
    } else {
        inputs + if with_total { 1 } else { 0 }
    };
    let min_width: usize = if has_stdin && inputs == 1 { 7 } else { 1 };
    if mode == TotalMode::Only {
        1
    } else if show.column_count() <= 1 && rows <= 1 {
        let v = if show.lines {
            total.lines
        } else if show.words {
            total.words
        } else if show.chars {
            total.chars
        } else if show.bytes {
            total.bytes
        } else if show.max_line_length {
            total.max_line_length
        } else {
            0
        };
        num_width(v)
    } else {
        let a = if total.lines >= total.words { total.lines } else { total.words };
        let b = if a >= total.bytes { a } else { total.bytes };
        let c = if b >= total.chars { b } else { total.chars };
        let m = if c >= total.max_line_length { c } else { total.max_line_length };
        let w = num_width(m);
        if w >= min_width { w } else { min_width }
    }
}

/// The number of occurrences of byte `c` in `s`.
pub open spec fn count_byte(s: Seq<u8>, c: u8) -> nat
    decreases s.len(),
{
    if s.len() == 0 {
        0
    } else {
        count_byte(s.drop_last(), c) + if s.last() == c { 1nat } else { 0 }
    }
}

/// Counting a byte piece by piece and adding gives the count of the whole,
/// so newlines may be counted a buffer at a time.
pub proof fn lemma_count_byte_append(a: Seq<u8>, b: Seq<u8>, c: u8)
    ensures
        count_byte(a + b, c) == count_byte(a, c) + count_byte(b, c),
    decreases b.len(),
{
    if b.len() > 0 {
        lemma_count_byte_append(a, b.drop_last(), c);
        assert((a + b).drop_last() =~= a + b.drop_last());
    } else {
        assert(a + b =~= a);
    }
}

proof fn lemma_count_byte_none(s: Seq<u8>, c: u8)
    requires
        forall|i: int| 0 <= i < s.len() ==> s[i] != c,
    ensures
        count_byte(s, c) == 0,
    decreases s.len(),
{
    if s.len() > 0 {
        lemma_count_byte_none(s.drop_last(), c);
    }
}

proof fn lemma_count_byte_bound(s: Seq<u8>, c: u8)
    ensures
        count_byte(s, c) <= s.len(),
    decreases s.len(),
{
    if s.len() > 0 {
        lemma_count_byte_bound(s.drop_last(), c);
    }
}

/// Counts the newlines in `data`.
pub fn count_newlines(data: &[u8]) -> (r: u64)
    ensures
        r == count_byte(data@, 10),
{
    let mut count: u64 = 0;
    let mut pos: usize = 0;
    while pos < data.len()
        invariant
            pos <= data.len(),
            count == count_byte(data@.subrange(0, pos as int), 10),
            count <= pos,
        decreases data.len() - pos,
    {
        proof { lemma_first_index_from(data@, 10, pos as int); }
        match find_byte_from(10u8, data, pos) {
            Some(p) => {
                proof {
                    let a = data@.subrange(0, pos as int);
                    let gap = data@.subrange(pos as int, p as int);
                    lemma_count_byte_none(gap, 10);
                    lemma_count_byte_append(a, gap, 10);
                    assert(a + gap =~= data@.subrange(0, p as int));
                    assert(data@.subrange(0, p + 1).drop_last() =~= data@.subrange(0, p as int));
                }
                count = count + 1;
                pos = p + 1;
            },
            None => {
                proof {
                    let a = data@.subrange(0, pos as int);
                    let gap = data@.subrange(pos as int, data@.len() as int);
                    lemma_count_byte_none(gap, 10);
                    lemma_count_byte_append(a, gap, 10);
                    assert(a + gap =~= data@.subrange(0, data@.len() as int));
                }
                pos = data.len();
            },
        }
    }
    assert(data@.subrange(0, data@.len() as int) =~= data@);
    count
}

/// The names in a NUL-separated list, empty names dropped.
pub open spec fn nul_names(data: Seq<u8>, from: int) -> Seq<Seq<u8>>
    decreases data.len() - from,
{
    if from < 0 || from >= data.len() {
        Seq::empty()
    } else {
        match first_index_from(data, 0, from) {
            Some(p) => if p < from || p >= data.len() {
                Seq::empty()
            } else {
                let name = data.subrange(from, p);
                let rest = nul_names(data, p + 1);
                if name.len() > 0 { seq![name] + rest } else { rest }
            },
            None => seq![data.subrange(from, data.len() as int)],
        }
    }
}

/// Splits a `--files0-from` list at NUL bytes, dropping empty names.
pub fn split_nul_names(data: &[u8]) -> (r: Vec<Vec<u8>>)
    ensures
        r@.len() == nul_names(data@, 0).len(),
        forall|i: int| 0 <= i < r@.len() ==> (#[trigger] r@[i])@ == nul_names(data@, 0)[i],
{
    let mut out: Vec<Vec<u8>> = Vec::new();
    let mut from: usize = 0;
    while from < data.len()
        invariant
            from <= data.len(),
            out@.len() + nul_names(data@, from as int).len() == nul_names(data@, 0).len(),
            forall|i: int| 0 <= i < out@.len() ==> (#[trigger] out@[i])@ == nul_names(data@, 0)[i],
            forall|i: int| 0 <= i < nul_names(data@, from as int).len() ==> #[trigger] nul_names(data@, from as int)[i]
                == nul_names(data@, 0)[out@.len() + i],
        decreases data.len() - from,
    {
        proof { lemma_first_index_from(data@, 0, from as int); }
        match find_byte_from(0u8, data, from) {
            Some(p) => {
                let ghost rest = nul_names(data@, p + 1);
                if p > from {
                    let mut name: Vec<u8> = Vec::new();
                    name.extend_from_slice(&data[from..p]);
                    proof {
                        let cur = nul_names(data@, from as int);
                        assert(cur == seq![data@.subrange(from as int, p as int)] + rest);
                        assert(cur[0] == name@);
                        assert forall|i: int| 0 <= i < rest.len() implies #[trigger] rest[i] == nul_names(data@, 0)[out@.len() + 1 + i] by {
                            assert(rest[i] == cur[i + 1]);
                        }
                    }
                    out.push(name);
                } else {
                    proof {
                        assert(nul_names(data@, from as int) == rest);
                    }
                }
                from = p + 1;
            },
            None => {
                let mut name: Vec<u8> = Vec::new();
                name.extend_from_slice(&data[from..data.len()]);
                proof {
                    let cur = nul_names(data@, from as int);
                    assert(cur[0] == name@);
                    assert(nul_names(data@, data@.len() as int).len() == 0);
                }
                out.push(name);
                from = data.len();
            },
        }
    }
    out
}

/// Every value no larger than the largest count fills exactly the column
/// width chosen from that count, so the columns line up.
pub proof fn lemma_columns_align(v: u64, total: Counts, width: int)
    requires
        v <= max_count(total),
        width >= digit_count(max_count(total)),
    ensures
        right_aligned(v, width).len() == width,
{
    lemma_decimal_len_mono(v as nat, max_count(total) as nat);
}

} // verus!
