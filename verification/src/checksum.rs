//! File names in checksum lines: escaping backslashes and newlines when
//! printing, undoing it when checking, and recognising hex digests.

use vstd::prelude::*;
use vstd::string::*;
use crate::decimal::{decimal, u64_to_decimal};
use crate::text::{ascii_lower, eq_ignore_ascii_case, eq_ignore_ascii_case_bytes, trailing_end, trailing_end_exec};

verus! {

/// Whether a file name must be escaped in a checksum line: it holds a
/// backslash or a newline.
pub open spec fn spec_needs_escape(name: Seq<u8>) -> bool {
    exists|i: int| 0 <= i < name.len() && (name[i] == 92 || name[i] == 10)
}

/// Whether `name` holds a backslash or a newline, so that it is written
/// escaped (and its checksum line prefixed with a backslash).
pub fn needs_escape(name: &str) -> (r: bool)
    ensures
        r == spec_needs_escape(name.spec_bytes()),
{
    let b = name.as_bytes();
    let mut i: usize = 0;
    while i < b.len()
        invariant
            i <= b@.len(),
            b@ == name.spec_bytes(),
            forall|j: int| 0 <= j < i ==> b@[j] != 92 && b@[j] != 10,
        decreases b@.len() - i,
    {
        if b[i] == 92u8 || b[i] == 10u8 {
            assert(0 <= i < b@.len() && (b@[i as int] == 92 || b@[i as int] == 10));
            assert(spec_needs_escape(b@));
            return true;
        }
        i = i + 1;
    }
    false
}

/// The bytes written for one byte of a name: `\\` for a backslash, `\n` for a
/// newline, and the byte itself otherwise.
pub open spec fn escape_byte(b: u8) -> Seq<u8> {
    if b == 92 {
        seq![92u8, 92u8]
    } else if b == 10 {
        seq![92u8, 110u8]
    } else {
        seq![b]
    }
}

/// The escaped form of the first `k` bytes of `name`.
pub open spec fn escaped(name: Seq<u8>, k: int) -> Seq<u8>
    decreases k,
{
    if k <= 0 {
        Seq::empty()
    } else {
        escaped(name, k - 1) + escape_byte(name[k - 1])
    }
}

/// Escapes a name for a checksum line: backslash becomes `\\` and newline `\n`.
pub fn escape_filename(name: &str) -> (r: Vec<u8>)
    ensures
        r@ == escaped(name.spec_bytes(), name.spec_bytes().len() as int),
{
    let b = name.as_bytes();
    let mut out: Vec<u8> = Vec::new();
    let mut i: usize = 0;
    while i < b.len()
        invariant
            i <= b@.len(),
            out@ == escaped(b@, i as int),
        decreases b@.len() - i,
    {
        let c = b[i];
        if c == 92u8 {
            out.push(92u8);
            out.push(92u8);
        } else if c == 10u8 {
            out.push(92u8);
            out.push(110u8);
        } else {
            out.push(c);
        }
        proof {
            assert(out@ =~= escaped(b@, i as int) + escape_byte(c));
        }
        i = i + 1;
    }
    out
}

/// The unescaped form of `s[i..]`: `\\` gives a backslash, `\n` a newline,
/// any other escaped byte is kept with its backslash, and a trailing lone
/// backslash is kept.
pub open spec fn unescaped_from(s: Seq<u8>, i: int) -> Seq<u8>
    decreases s.len() - i,
{
    if i < 0 || i >= s.len() {
        Seq::empty()
    } else if s[i] != 92 {
        seq![s[i]] + unescaped_from(s, i + 1)
    } else if i + 1 >= s.len() {
        seq![92u8]
    } else if s[i + 1] == 92 {
        seq![92u8] + unescaped_from(s, i + 2)
    } else if s[i + 1] == 110 {
        seq![10u8] + unescaped_from(s, i + 2)
    } else {
        seq![92u8, s[i + 1]] + unescaped_from(s, i + 2)
    }
}

/// Undoes the escaping of a name in a checksum line.
pub fn unescape_filename(s: &str) -> (r: Vec<u8>)
    ensures
        r@ == unescaped_from(s.spec_bytes(), 0),
{
    let b = s.as_bytes();
    let mut out: Vec<u8> = Vec::new();
    let mut i: usize = 0;
    while i < b.len()
        invariant
            i <= b@.len(),
            unescaped_from(b@, 0) == out@ + unescaped_from(b@, i as int),
        decreases b@.len() - i,
    {
        let ghost before = out@;
        let c = b[i];
        if c != 92u8 {
            out.push(c);
            i = i + 1;
            proof {
                assert(out@ =~= before + seq![c]);
            }
        } else if i + 1 >= b.len() {
            out.push(92u8);
            i = i + 1;
            proof {
                assert(out@ =~= before + seq![92u8]);
            }
        } else {
            let d = b[i + 1];
            if d == 92u8 {
                out.push(92u8);
                proof {
                    assert(out@ =~= before + seq![92u8]);
                }
            } else if d == 110u8 {
                out.push(10u8);
                proof {
                    assert(out@ =~= before + seq![10u8]);
                }
            } else {
                out.push(92u8);
                out.push(d);
                proof {
                    assert(out@ =~= before + seq![92u8, d]);
                }
            }
            i = i + 2;
        }
    }
    proof {
        assert(out@ =~= out@ + Seq::<u8>::empty());
    }
    out
}

/// Whether `s` is a digest of `len` hexadecimal digits.
pub open spec fn spec_is_hex_digest(s: Seq<u8>, len: nat) -> bool {
    s.len() == len && forall|i: int| 0 <= i < s.len() ==> {
        let c = #[trigger] s[i];
        (48 <= c <= 57) || (65 <= c <= 70) || (97 <= c <= 102)
    }
}

/// Whether a checksum line's digest is `len` hexadecimal digits (96 for
/// SHA-384, 64 for SHA-256); other lines are improperly formatted.
pub fn is_hex_digest(s: &str, len: usize) -> (r: bool)
    ensures
        r == spec_is_hex_digest(s.spec_bytes(), len as nat),
{
    let b = s.as_bytes();
    if b.len() != len {
        return false;
    }
    let mut i: usize = 0;
    while i < b.len()
        invariant
            i <= b@.len(),
            b@ == s.spec_bytes(),
            b@.len() == len,
            forall|j: int| 0 <= j < i ==> {
                let c = #[trigger] b@[j];
                (48 <= c <= 57) || (65 <= c <= 70) || (97 <= c <= 102)
            },
        decreases b@.len() - i,
    {
        let c = b[i];
        if !((48u8 <= c && c <= 57u8) || (65u8 <= c && c <= 70u8) || (97u8 <= c && c <= 102u8)) {
            assert(b@[i as int] == c);
            assert(!spec_is_hex_digest(b@, len as nat));
            return false;
        }
        i = i + 1;
    }
    true
}

/// Unescaping gives back an escaped name: `unescape(escape(name)) == name`
/// for every name.
pub proof fn lemma_unescape_escape(name: Seq<u8>)
    ensures
        unescaped_from(escaped(name, name.len() as int), 0) == name,
{
    lemma_unescape_escape_from(name, 0);
    lemma_escaped_split(name, 0);
    assert(escaped(name, 0) + escaped_suffix(name, 0) =~= escaped_suffix(name, 0));
    assert(name.subrange(0, name.len() as int) =~= name);
}

/// The escaped form of `name[k..]`.
pub open spec fn escaped_suffix(name: Seq<u8>, k: int) -> Seq<u8>
    decreases name.len() - k,
{
    if k < 0 || k >= name.len() {
        Seq::empty()
    } else {
        escape_byte(name[k]) + escaped_suffix(name, k + 1)
    }
}

proof fn lemma_escaped_split(name: Seq<u8>, k: int)
    requires
        0 <= k <= name.len(),
    ensures
        escaped(name, name.len() as int) == escaped(name, k) + escaped_suffix(name, k),
    decreases name.len() - k,
{
    if k < name.len() {
        lemma_escaped_split(name, k + 1);
        assert(escaped(name, k + 1) == escaped(name, k) + escape_byte(name[k]));
        assert(escaped_suffix(name, k) == escape_byte(name[k]) + escaped_suffix(name, k + 1));
        assert(escaped(name, k) + escaped_suffix(name, k) =~= escaped(name, k + 1) + escaped_suffix(name, k + 1));
    } else {
        assert(escaped(name, k) + escaped_suffix(name, k) =~= escaped(name, k));
    }
}

proof fn lemma_unescape_prefix(prefix: Seq<u8>, rest: Seq<u8>)
    requires
        prefix.len() == 1 && prefix[0] != 92 || prefix =~= seq![92u8, 92u8] || prefix =~= seq![92u8, 110u8],
    ensures
        unescaped_from(prefix + rest, 0) == (if prefix.len() == 1 { prefix } else if prefix[1] == 92 {
            seq![92u8]
        } else {
            seq![10u8]
        }) + unescaped_from(rest, 0),
{
    let s = prefix + rest;
    assert(s.subrange(prefix.len() as int, s.len() as int) =~= rest);
    lemma_unescaped_shift(s, prefix.len() as int, rest);
}

proof fn lemma_unescaped_shift(s: Seq<u8>, d: int, rest: Seq<u8>)
    requires
        0 <= d <= s.len(),
        s.subrange(d, s.len() as int) == rest,
    ensures
        unescaped_from(s, d) == unescaped_from(rest, 0),
{
    lemma_unescaped_shift_from(s, d, rest, 0);
}

proof fn lemma_unescaped_shift_from(s: Seq<u8>, d: int, rest: Seq<u8>, j: int)
    requires
        0 <= d <= s.len(),
        0 <= j,
        s.subrange(d, s.len() as int) == rest,
    ensures
        unescaped_from(s, d + j) == unescaped_from(rest, j),
    decreases rest.len() - j,
{
    if j < rest.len() {
        assert(s[d + j] == rest[j]);
        if j + 1 < rest.len() {
            assert(s[d + j + 1] == rest[j + 1]);
        }
        lemma_unescaped_shift_from(s, d, rest, j + 1);
        if j + 2 <= rest.len() {
            lemma_unescaped_shift_from(s, d, rest, j + 2);
        }
    }
}

proof fn lemma_unescape_escape_from(name: Seq<u8>, k: int)
    requires
        0 <= k <= name.len(),
    ensures
        unescaped_from(escaped_suffix(name, k), 0) == name.subrange(k, name.len() as int),
    decreases name.len() - k,
{
    if k < name.len() {
        lemma_unescape_escape_from(name, k + 1);
        let p = escape_byte(name[k]);
        let rest = escaped_suffix(name, k + 1);
        assert(escaped_suffix(name, k) == p + rest);
        lemma_unescape_prefix(p, rest);
        assert(name.subrange(k, name.len() as int) =~= seq![name[k]] + name.subrange(k + 1, name.len() as int));
    } else {
        assert(name.subrange(k, name.len() as int) =~= Seq::<u8>::empty());
    }
}

// ---------------------------------------------------------------------------
// Output lines
// ---------------------------------------------------------------------------

/// The byte between digest and name: `*` for binary mode, else a space.
pub open spec fn mode_byte(binary: bool) -> u8 {
    if binary { 42 } else { 32 }
}

/// The line written for one file: `ALGO (NAME) = DIGEST` with `--tag`;
/// `DIGEST MNAME` otherwise (M the mode byte), with a leading backslash and an
/// escaped name when the name needs escaping and lines end in newlines. Lines
/// end in NUL with `-z` (and names are then written as they are).
pub open spec fn spec_hash_line(algo: Seq<u8>, digest: Seq<u8>, name: Seq<u8>, tag: bool, zero: bool, binary: bool) -> Seq<u8> {
    let end = if zero { seq![0u8] } else { seq![10u8] };
    if tag {
        algo + seq![32u8, 40] + name + seq![41u8, 32, 61, 32] + digest + end
    } else if !zero && spec_needs_escape(name) {
        seq![92u8] + digest + seq![32u8, mode_byte(binary)] + escaped(name, name.len() as int) + end
    } else {
        digest + seq![32u8, mode_byte(binary)] + name + end
    }
}

/// Writes the checksum line for one file.
pub fn write_output(algo: &[u8], digest: &[u8], name: &str, tag: bool, zero: bool, binary: bool) -> (r: Vec<u8>)
    ensures
        r@ == spec_hash_line(algo@, digest@, name.spec_bytes(), tag, zero, binary),
{
    let nb = name.as_bytes();
    let mut out: Vec<u8> = Vec::new();
    let m: u8 = if binary { 42u8 } else { 32u8 };
    if tag {
        out.extend_from_slice(algo);
        out.push(32u8);
        out.push(40u8);
        out.extend_from_slice(nb);
        out.push(41u8);
        out.push(32u8);
        out.push(61u8);
        out.push(32u8);
        out.extend_from_slice(digest);
    } else if !zero && needs_escape(name) {
        out.push(92u8);
        out.extend_from_slice(digest);
        out.push(32u8);
        out.push(m);
        let e = escape_filename(name);
        out.extend_from_slice(e.as_slice());
    } else {
        out.extend_from_slice(digest);
        out.push(32u8);
        out.push(m);
        out.extend_from_slice(nb);
    }
    if zero {
        out.push(0u8);
    } else {
        out.push(10u8);
    }
    assert(out@ =~= spec_hash_line(algo@, digest@, name.spec_bytes(), tag, zero, binary));
    out
}

// ---------------------------------------------------------------------------
// Checking
// ---------------------------------------------------------------------------

/// A line of a checksum list once trailing white space is removed.
#[derive(Clone, Debug)]
pub enum CheckLine {
    /// Nothing but white space.
    Blank,
    /// The text to read, without a leading backslash, and whether there was
    /// one (then the name in it is escaped).
    Content { escaped: bool, text: Vec<u8> },
}

/// The line without trailing white space.
pub open spec fn line_trimmed(b: Seq<u8>) -> Seq<u8> {
    b.subrange(0, trailing_end(b, b.len() as int))
}

/// Prepares one line of a checksum list: blank, or its text after an
/// optional leading backslash, once trailing white space is removed.
pub fn prepare_check_line(line: &str) -> (r: CheckLine)
    ensures
        line_trimmed(line.spec_bytes()).len() == 0 ==> r is Blank,
        line_trimmed(line.spec_bytes()).len() > 0 ==> (r matches CheckLine::Content { escaped, text } && escaped == (
        line_trimmed(line.spec_bytes())[0] == 92) && text@ == (if escaped {
            line_trimmed(line.spec_bytes()).drop_first()
        } else {
            line_trimmed(line.spec_bytes())
        })),
{
    let b = line.as_bytes();
    let end = trailing_end_exec(b, b.len());
    let t = &b[0..end];
    assert(t@ =~= line_trimmed(b@));
    if t.len() == 0 {
        return CheckLine::Blank;
    }
    let escaped = t[0] == 92u8;
    let mut text: Vec<u8> = Vec::new();
    if escaped {
        text.extend_from_slice(&t[1..t.len()]);
        assert(text@ =~= t@.drop_first());
    } else {
        text.extend_from_slice(t);
    }
    CheckLine::Content { escaped, text }
}

/// The name of the file to check: unescaped when the line was escaped.
pub fn check_filename(parsed: &str, escaped: bool) -> (r: Vec<u8>)
    ensures
        escaped ==> r@ == unescaped_from(parsed.spec_bytes(), 0),
        !escaped ==> r@ == parsed.spec_bytes(),
{
    if escaped {
        unescape_filename(parsed)
    } else {
        let mut v: Vec<u8> = Vec::new();
        v.extend_from_slice(parsed.as_bytes());
        v
    }
}

/// Whether a computed digest matches the expected one, letters compared
/// without case.
pub fn digests_match(actual: &[u8], expected: &[u8]) -> (r: bool)
    ensures
        r == eq_ignore_ascii_case(actual@, expected@),
{
    eq_ignore_ascii_case_bytes(actual, expected)
}

/// How the check of one line ended.
#[derive(Clone, Copy, Debug, PartialEq, Eq, Structural)]
pub enum CheckOutcome {
    /// Not a checksum line, or a digest of the wrong form.
    BadFormat,
    /// The file is missing and missing files are ignored.
    IgnoredMissing,
    /// The file could not be read.
    Unreadable,
    /// The digest matched.
    Matched,
    /// The digest did not match.
    Mismatched,
}

/// The counts of the lines of one checksum list (or of all of them).
#[derive(Clone, Copy, Debug, PartialEq, Eq, Structural)]
pub struct CheckTally {
    pub ok: usize,
    pub mismatches: usize,
    pub format_errors: usize,
    pub read_errors: usize,
    pub ignored_missing: usize,
}

/// The empty tally.
pub fn new_tally() -> (r: CheckTally)
    ensures
        r == (CheckTally { ok: 0, mismatches: 0, format_errors: 0, read_errors: 0, ignored_missing: 0 }),
{
    CheckTally { ok: 0, mismatches: 0, format_errors: 0, read_errors: 0, ignored_missing: 0 }
}

/// The tally with one more line of the given outcome.
pub open spec fn spec_record(t: CheckTally, o: CheckOutcome) -> CheckTally {
    match o {
        CheckOutcome::BadFormat => CheckTally { format_errors: (t.format_errors + 1) as usize, ..t },
        CheckOutcome::IgnoredMissing => CheckTally { ignored_missing: (t.ignored_missing + 1) as usize, ..t },
        CheckOutcome::Unreadable => CheckTally { read_errors: (t.read_errors + 1) as usize, ..t },
        CheckOutcome::Matched => CheckTally { ok: (t.ok + 1) as usize, ..t },
        CheckOutcome::Mismatched => CheckTally { mismatches: (t.mismatches + 1) as usize, ..t },
    }
}

/// Whether every count of the tally can grow by one.
pub open spec fn tally_room(t: CheckTally) -> bool {
    t.ok < usize::MAX && t.mismatches < usize::MAX && t.format_errors < usize::MAX && t.read_errors < usize::MAX
        && t.ignored_missing < usize::MAX
}

/// Counts one more line.
pub fn record(t: CheckTally, o: CheckOutcome) -> (r: CheckTally)
    requires
        tally_room(t),
    ensures
        r == spec_record(t, o),
{
    match o {
        CheckOutcome::BadFormat => CheckTally { format_errors: t.format_errors + 1, ..t },
        CheckOutcome::IgnoredMissing => CheckTally { ignored_missing: t.ignored_missing + 1, ..t },
        CheckOutcome::Unreadable => CheckTally { read_errors: t.read_errors + 1, ..t },
        CheckOutcome::Matched => CheckTally { ok: t.ok + 1, ..t },
        CheckOutcome::Mismatched => CheckTally { mismatches: t.mismatches + 1, ..t },
    }
}

/// What the tally of one checksum list means.
#[derive(Clone, Copy, Debug, PartialEq, Eq, Structural)]
pub struct FileVerdict {
    /// The list makes the exit status a failure.
    pub had_error: bool,
    /// No line of it was properly formatted (reported by itself, and its
    /// format errors are left out of the final warning).
    pub no_proper_lines: bool,
    /// With missing files ignored, no file was verified.
    pub none_verified: bool,
}

/// The verdict on one list's tally.
pub open spec fn spec_file_verdict(t: CheckTally, strict: bool, ignore_missing: bool) -> FileVerdict {
    let no_proper = t.ok == 0 && t.mismatches == 0 && t.read_errors == 0 && t.ignored_missing == 0 && t.format_errors > 0;
    let none_verified = ignore_missing && t.ok == 0 && t.mismatches == 0 && t.ignored_missing > 0;
    FileVerdict {
        had_error: t.mismatches > 0 || t.read_errors > 0 || (strict && t.format_errors > 0) || no_proper || none_verified,
        no_proper_lines: no_proper,
        none_verified,
    }
}

/// Judges one list's tally.
pub fn file_verdict(t: CheckTally, strict: bool, ignore_missing: bool) -> (r: FileVerdict)
    ensures
        r == spec_file_verdict(t, strict, ignore_missing),
{
    let no_proper = t.ok == 0 && t.mismatches == 0 && t.read_errors == 0 && t.ignored_missing == 0 && t.format_errors > 0;
    let none_verified = ignore_missing && t.ok == 0 && t.mismatches == 0 && t.ignored_missing > 0;
    FileVerdict {
        had_error: t.mismatches > 0 || t.read_errors > 0 || (strict && t.format_errors > 0) || no_proper || none_verified,
        no_proper_lines: no_proper,
        none_verified,
    }
}

/// The checksum tool whose lines are being checked.
#[derive(Clone, Copy, Debug, PartialEq, Eq, Structural)]
pub enum DigestKind {
    Sha256,
    Sha384,
}

/// Whether an improperly formatted line is reported: always when warning;
/// for SHA-256, a digest of the wrong form is reported when strict too.
pub fn report_format_error(kind: DigestKind, digest_form_wrong: bool, warn: bool, strict: bool) -> (r: bool)
    ensures
        r == (warn || (kind == DigestKind::Sha256 && digest_form_wrong && strict)),
{
    match kind {
        DigestKind::Sha256 => warn || (digest_form_wrong && strict),
        DigestKind::Sha384 => warn,
    }
}

/// A verified line is reported as `OK` unless `--quiet` or `--status`;
/// failures are reported unless `--status`.
pub fn report_outcome(o: CheckOutcome, quiet: bool, status: bool) -> (r: bool)
    ensures
        r == (match o {
            CheckOutcome::Matched => !quiet && !status,
            CheckOutcome::Mismatched => !status,
            CheckOutcome::Unreadable => !status,
            _ => false,
        }),
{
    match o {
        CheckOutcome::Matched => !quiet && !status,
        CheckOutcome::Mismatched => !status,
        CheckOutcome::Unreadable => !status,
        _ => false,
    }
}

/// The final warnings: mismatches, unreadable files and improperly
/// formatted lines, each only when there are some, in that order.
pub open spec fn spec_summary(mismatches: usize, read_errors: usize, format_errors: usize) -> Seq<Seq<u8>> {
    (if mismatches > 0 {
        seq![warning_prefix() + decimal(mismatches as nat) + (if mismatches == 1 {
            words_checksum_one()
        } else {
            words_checksum_many()
        })]
    } else {
        Seq::empty()
    }) + (if read_errors > 0 {
        seq![warning_prefix() + decimal(read_errors as nat) + (if read_errors == 1 {
            words_read_one()
        } else {
            words_read_many()
        })]
    } else {
        Seq::empty()
    }) + (if format_errors > 0 {
        seq![warning_prefix() + decimal(format_errors as nat) + (if format_errors == 1 {
            words_format_one()
        } else {
            words_format_many()
        })]
    } else {
        Seq::empty()
    })
}

/// `WARNING: `
pub open spec fn warning_prefix() -> Seq<u8> {
    seq![87u8, 65, 82, 78, 73, 78, 71, 58, 32]
}

/// ` computed checksum did NOT match`
pub open spec fn words_checksum_one() -> Seq<u8> {
    seq![32u8, 99, 111, 109, 112, 117, 116, 101, 100, 32, 99, 104, 101, 99, 107, 115, 117, 109, 32, 100, 105, 100, 32, 78, 79, 84, 32, 109, 97, 116, 99, 104]
}

/// ` computed checksums did NOT match`
pub open spec fn words_checksum_many() -> Seq<u8> {
    seq![32u8, 99, 111, 109, 112, 117, 116, 101, 100, 32, 99, 104, 101, 99, 107, 115, 117, 109, 115, 32, 100, 105, 100, 32, 78, 79, 84, 32, 109, 97, 116, 99, 104]
}

/// ` listed file could not be read`
pub open spec fn words_read_one() -> Seq<u8> {
    seq![32u8, 108, 105, 115, 116, 101, 100, 32, 102, 105, 108, 101, 32, 99, 111, 117, 108, 100, 32, 110, 111, 116, 32, 98, 101, 32, 114, 101, 97, 100]
}

/// ` listed files could not be read`
pub open spec fn words_read_many() -> Seq<u8> {
    seq![32u8, 108, 105, 115, 116, 101, 100, 32, 102, 105, 108, 101, 115, 32, 99, 111, 117, 108, 100, 32, 110, 111, 116, 32, 98, 101, 32, 114, 101, 97, 100]
}

/// ` line is improperly formatted`
pub open spec fn words_format_one() -> Seq<u8> {
    seq![32u8, 108, 105, 110, 101, 32, 105, 115, 32, 105, 109, 112, 114, 111, 112, 101, 114, 108, 121, 32, 102, 111, 114, 109, 97, 116, 116, 101, 100]
}

/// ` lines are improperly formatted`
pub open spec fn words_format_many() -> Seq<u8> {
    seq![32u8, 108, 105, 110, 101, 115, 32, 97, 114, 101, 32, 105, 109, 112, 114, 111, 112, 101, 114, 108, 121, 32, 102, 111, 114, 109, 97, 116, 116, 101, 100]
}

fn warning_line(n: usize, one: &[u8], many: &[u8]) -> (r: Vec<u8>)
    ensures
        r@ == seq![87u8, 65, 82, 78, 73, 78, 71, 58, 32] + decimal(n as nat) + (if n == 1 { one@ } else { many@ }),
{
    let mut v: Vec<u8> = Vec::new();
    let p: [u8; 9] = [87, 65, 82, 78, 73, 78, 71, 58, 32];
    v.extend_from_slice(&p);
    let d = u64_to_decimal(n as u64);
    v.extend_from_slice(d.as_slice());
    if n == 1 {
        v.extend_from_slice(one);
    } else {
        v.extend_from_slice(many);
    }
    assert(v@ =~= seq![87u8, 65, 82, 78, 73, 78, 71, 58, 32] + decimal(n as nat) + (if n == 1 { one@ } else { many@ }));
    v
}

/// Writes the final warnings of a check (each to follow the program's name).
pub fn summary_warnings(mismatches: usize, read_errors: usize, format_errors: usize) -> (r: Vec<Vec<u8>>)
    ensures
        r@.len() == spec_summary(mismatches, read_errors, format_errors).len(),
        forall|i: int| 0 <= i < r@.len() ==> (#[trigger] r@[i])@ == spec_summary(mismatches, read_errors, format_errors)[i],
{
    let mut out: Vec<Vec<u8>> = Vec::new();
    let c1: [u8; 32] = [32, 99, 111, 109, 112, 117, 116, 101, 100, 32, 99, 104, 101, 99, 107, 115, 117, 109, 32, 100, 105, 100, 32, 78, 79, 84, 32, 109, 97, 116, 99, 104];
    let c2: [u8; 33] = [32, 99, 111, 109, 112, 117, 116, 101, 100, 32, 99, 104, 101, 99, 107, 115, 117, 109, 115, 32, 100, 105, 100, 32, 78, 79, 84, 32, 109, 97, 116, 99, 104];
    let r1: [u8; 30] = [32, 108, 105, 115, 116, 101, 100, 32, 102, 105, 108, 101, 32, 99, 111, 117, 108, 100, 32, 110, 111, 116, 32, 98, 101, 32, 114, 101, 97, 100];
    let r2: [u8; 31] = [32, 108, 105, 115, 116, 101, 100, 32, 102, 105, 108, 101, 115, 32, 99, 111, 117, 108, 100, 32, 110, 111, 116, 32, 98, 101, 32, 114, 101, 97, 100];
    let f1: [u8; 29] = [32, 108, 105, 110, 101, 32, 105, 115, 32, 105, 109, 112, 114, 111, 112, 101, 114, 108, 121, 32, 102, 111, 114, 109, 97, 116, 116, 101, 100];
    let f2: [u8; 31] = [32, 108, 105, 110, 101, 115, 32, 97, 114, 101, 32, 105, 109, 112, 114, 111, 112, 101, 114, 108, 121, 32, 102, 111, 114, 109, 97, 116, 116, 101, 100];
    assert(c1@ =~= words_checksum_one());
    assert(c2@ =~= words_checksum_many());
    assert(r1@ =~= words_read_one());
    assert(r2@ =~= words_read_many());
    assert(f1@ =~= words_format_one());
    assert(f2@ =~= words_format_many());
    assert(seq![87u8, 65, 82, 78, 73, 78, 71, 58, 32] =~= warning_prefix());
    let ghost want = spec_summary(mismatches, read_errors, format_errors);
    if mismatches > 0 {
        out.push(warning_line(mismatches, &c1, &c2));
    }
    if read_errors > 0 {
        out.push(warning_line(read_errors, &r1, &r2));
    }
    if format_errors > 0 {
        out.push(warning_line(format_errors, &f1, &f2));
    }
    assert(out@.len() == want.len());
    out
}

/// Whether a digest is well formed does not depend on the case of its
/// letters: an upper-case digest is checked like its lower-case form.
pub proof fn lemma_hex_digest_ignores_case(s: Seq<u8>, t: Seq<u8>, len: nat)
    requires
        eq_ignore_ascii_case(s, t),
    ensures
        spec_is_hex_digest(s, len) == spec_is_hex_digest(t, len),
{
    assert forall|i: int| 0 <= i < s.len() implies {
        let c = #[trigger] s[i];
        let e = t[i];
        ((48 <= c <= 57) || (65 <= c <= 70) || (97 <= c <= 102)) == ((48 <= e <= 57) || (65 <= e <= 70) || (97 <= e <= 102))
    } by {
        assert(ascii_lower(s[i]) == ascii_lower(t[i]));
    }
    if spec_is_hex_digest(s, len) {
        assert forall|i: int| 0 <= i < t.len() implies {
            let c = #[trigger] t[i];
            (48 <= c <= 57) || (65 <= c <= 70) || (97 <= c <= 102)
        } by {
            assert(s.len() == t.len());
            let c = s[i];
            assert((48 <= c <= 57) || (65 <= c <= 70) || (97 <= c <= 102));
        }
    }
    if spec_is_hex_digest(t, len) {
        assert forall|i: int| 0 <= i < s.len() implies {
            let c = #[trigger] s[i];
            (48 <= c <= 57) || (65 <= c <= 70) || (97 <= c <= 102)
        } by {
            let e = t[i];
            assert((48 <= e <= 57) || (65 <= e <= 70) || (97 <= e <= 102));
        }
    }
}

/// The sixteen hexadecimal digits as written in lower case.
pub open spec fn hex_digits() -> Seq<u8> {
    seq![48u8, 49, 50, 51, 52, 53, 54, 55, 56, 57, 97, 98, 99, 100, 101, 102]
}

/// A digest is well formed exactly when it has `len` bytes, each of which is,
/// in lower case, one of the sixteen hexadecimal digits.
pub proof fn lemma_hex_digest_digits(s: Seq<u8>, len: nat)
    ensures
        spec_is_hex_digest(s, len) <==> (s.len() == len && forall|i: int| 0 <= i < s.len() ==> hex_digits().contains(
            ascii_lower(#[trigger] s[i]),
        )),
{
    let h = hex_digits();
    assert forall|i: int| 0 <= i < s.len() implies {
        let c = #[trigger] s[i];
        ((48 <= c <= 57) || (65 <= c <= 70) || (97 <= c <= 102)) == h.contains(ascii_lower(c))
    } by {
        let c = s[i];
        let x = ascii_lower(c);
        if 48 <= c <= 57 {
            assert(h[c - 48] == c);
        } else if 65 <= c <= 70 {
            assert(h[c - 55] == x);
        } else if 97 <= c <= 102 {
            assert(h[c - 87] == c);
        }
        if h.contains(x) {
            let k = choose|k: int| 0 <= k < h.len() && h[k] == x;
            assert(0 <= k < 16);
            assert(h[0] == 48 && h[1] == 49 && h[2] == 50 && h[3] == 51 && h[4] == 52 && h[5] == 53 && h[6] == 54 && h[7] == 55);
            assert(h[8] == 56 && h[9] == 57 && h[10] == 97 && h[11] == 98 && h[12] == 99 && h[13] == 100 && h[14] == 101 && h[15] == 102);
        }
    }
}

} // verus!
