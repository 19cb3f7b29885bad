//! Running a command with a time limit: signal names and numbers, duration
//! suffixes, and the exit code reported for the command's wait status.

use vstd::prelude::*;
use vstd::string::*;
use crate::decimal::{parse_i32, spec_parse_i32};

verus! {

/// Exit code when the command timed out.
pub const EXIT_TIMEOUT: i32 = 124;
/// Exit code when the time limiter itself fails.
pub const EXIT_FAILURE: i32 = 125;
/// Exit code when the command was found but could not be run.
pub const EXIT_CANNOT_INVOKE: i32 = 126;
/// Exit code when the command was not found.
pub const EXIT_ENOENT: i32 = 127;
/// The number of the termination signal.
pub const SIGTERM: i32 = 15;

/// Whether the wait status is that of a normal exit: its low seven bits are
/// zero (as `WIFEXITED` reads it on Linux).
fn wifexited(status: i32) -> (r: bool)
    ensures
        r == (status & 0x7f == 0),
{
    status & 0x7f == 0
}

/// The exit code in a wait status: bits 8 to 15 (`WEXITSTATUS`).
fn wexitstatus(status: i32) -> (r: i32)
    ensures
        r == ((status >> 8u32) & 0xff),
{
    (status >> 8u32) & 0xff
}

/// Whether the wait status is that of a death by a signal: the low seven
/// bits plus one, as a signed byte, are at least 2 (`WIFSIGNALED`).
fn wifsignaled(status: i32) -> (r: bool)
    ensures
        r == ((((status & 0x7f) + 1) as i8) >= 2),
{
    let low: i32 = status & 0x7f;
    assert(0 <= low <= 0x7f) by (bit_vector)
        requires
            low == status & 0x7f,
    ;
    ((low + 1) as i8) >= 2
}

/// The signal number in a wait status: its low seven bits (`WTERMSIG`).
fn wtermsig(status: i32) -> (r: i32)
    ensures
        r == (status & 0x7f),
{
    status & 0x7f
}

/// The exit code for a wait status: the command's own exit code after a
/// normal exit, 128 plus the signal after a death by a signal, else
/// `EXIT_FAILURE`.
pub open spec fn spec_status_code(status: i32) -> int {
    if status & 0x7f == 0 {
        ((status >> 8u32) & 0xff) as int
    } else if (((status & 0x7f) + 1) as i8) >= 2 {
        128 + (status & 0x7f)
    } else {
        EXIT_FAILURE as int
    }
}

/// The exit code reported for the command's wait status.
pub fn status_to_code(status: i32) -> (r: i32)
    ensures
        r == spec_status_code(status),
        0 <= r <= 255,
{
    if wifexited(status) {
        proof {
            assert(0 <= ((status >> 8u32) & 0xff) <= 255) by (bit_vector);
        }
        wexitstatus(status)
    } else if wifsignaled(status) {
        proof {
            assert(0 <= (status & 0x7f) <= 127) by (bit_vector);
        }
        128 + wtermsig(status)
    } else {
        EXIT_FAILURE
    }
}

/// The exit code after the time limit was reached: the command's own with
/// `--preserve-status`; else 128 plus the signal when a signal other than
/// the termination signal killed it; else `EXIT_TIMEOUT`.
pub open spec fn spec_timeout_code(preserve_status: bool, sig: i32, status: i32) -> int {
    if preserve_status {
        spec_status_code(status)
    } else if sig != SIGTERM && spec_status_code(status) > 128 {
        spec_status_code(status)
    } else {
        EXIT_TIMEOUT as int
    }
}

/// Decides the exit code after the time limit was reached.
pub fn timeout_exit_code(preserve_status: bool, sig: i32, status: i32) -> (r: i32)
    ensures
        r == spec_timeout_code(preserve_status, sig, status),
{
    let code = status_to_code(status);
    if preserve_status {
        code
    } else if sig != SIGTERM && code > 128 {
        code
    } else {
        EXIT_TIMEOUT
    }
}

/// The exit code when the command could not be run.
pub fn exec_failure_code(not_found: bool) -> (r: i32)
    ensures
        r == (if not_found { EXIT_ENOENT } else { EXIT_CANNOT_INVOKE }),
{
    if not_found { EXIT_ENOENT } else { EXIT_CANNOT_INVOKE }
}

/// A duration's number and its multiplier in seconds: a final `s`, `m`, `h`
/// or `d` selects 1, 60, 3600 or 86400 and is removed; without one the
/// number is seconds.
pub open spec fn spec_duration_unit(b: Seq<u8>) -> (Seq<u8>, u32) {
    if b.len() > 0 && b.last() == 115 {
        (b.drop_last(), 1)
    } else if b.len() > 0 && b.last() == 109 {
        (b.drop_last(), 60)
    } else if b.len() > 0 && b.last() == 104 {
        (b.drop_last(), 3600)
    } else if b.len() > 0 && b.last() == 100 {
        (b.drop_last(), 86400)
    } else {
        (b, 1)
    }
}

/// Splits a duration into its number and the multiplier its suffix selects.
pub fn duration_unit(s: &str) -> (r: (Vec<u8>, u32))
    ensures
        r.0@ == spec_duration_unit(s.spec_bytes()).0,
        r.1 == spec_duration_unit(s.spec_bytes()).1,
{
    let b = s.as_bytes();
    let n = b.len();
    let (keep, mult): (usize, u32) = if n > 0 && b[n - 1] == 115u8 {
        (n - 1, 1)
    } else if n > 0 && b[n - 1] == 109u8 {
        (n - 1, 60)
    } else if n > 0 && b[n - 1] == 104u8 {
        (n - 1, 3600)
    } else if n > 0 && b[n - 1] == 100u8 {
        (n - 1, 86400)
    } else {
        (n, 1)
    };
    let mut v: Vec<u8> = Vec::new();
    v.extend_from_slice(&b[0..keep]);
    assert(keep < n ==> v@ =~= b@.drop_last());
    assert(keep == n ==> v@ =~= b@);
    (v, mult)
}

/// The text of `s` in upper case, as `str::to_uppercase` gives it.
pub uninterp spec fn uppercase_of(s: Seq<u8>) -> Seq<u8>;

/// ASCII letters mapped to upper case.
pub open spec fn ascii_upper(s: Seq<u8>) -> Seq<u8> {
    Seq::new(s.len(), |i: int| if 97 <= s[i] <= 122 { (s[i] - 32) as u8 } else { s[i] })
}

/// Whether every byte of `s` is ASCII.
pub open spec fn all_ascii(s: Seq<u8>) -> bool {
    forall|i: int| 0 <= i < s.len() ==> s[i] < 128
}

/// `str::to_uppercase`, as bytes: the Unicode upper case of the text. For
/// ASCII text this maps `a` to `z` onto `A` to `Z` and keeps every other
/// byte; what other characters become is only named here.
#[verifier::external_body]
fn to_uppercase_bytes(s: &str) -> (r: Vec<u8>)
    ensures
        r@ == uppercase_of(s.spec_bytes()),
        all_ascii(s.spec_bytes()) ==> r@ == ascii_upper(s.spec_bytes()),
{
    s.to_uppercase().into_bytes()
}

/// The signal names understood, upper case and without `SIG`, with their
/// (Linux) numbers.
pub open spec fn signal_table() -> Seq<(Seq<u8>, i32)> {
    seq![
        (seq![72u8, 85, 80], 1i32),
        (seq![73u8, 78, 84], 2i32),
        (seq![81u8, 85, 73, 84], 3i32),
        (seq![73u8, 76, 76], 4i32),
        (seq![84u8, 82, 65, 80], 5i32),
        (seq![65u8, 66, 82, 84], 6i32),
        (seq![73u8, 79, 84], 6i32),
        (seq![66u8, 85, 83], 7i32),
        (seq![70u8, 80, 69], 8i32),
        (seq![75u8, 73, 76, 76], 9i32),
        (seq![85u8, 83, 82, 49], 10i32),
        (seq![83u8, 69, 71, 86], 11i32),
        (seq![85u8, 83, 82, 50], 12i32),
        (seq![80u8, 73, 80, 69], 13i32),
        (seq![65u8, 76, 82, 77], 14i32),
        (seq![84u8, 69, 82, 77], 15i32),
        (seq![67u8, 72, 76, 68], 17i32),
        (seq![67u8, 79, 78, 84], 18i32),
        (seq![83u8, 84, 79, 80], 19i32),
        (seq![84u8, 83, 84, 80], 20i32),
        (seq![84u8, 84, 73, 78], 21i32),
        (seq![84u8, 84, 79, 85], 22i32),
        (seq![85u8, 82, 71], 23i32),
        (seq![88u8, 67, 80, 85], 24i32),
        (seq![88u8, 70, 83, 90], 25i32),
        (seq![86u8, 84, 65, 76, 82, 77], 26i32),
        (seq![80u8, 82, 79, 70], 27i32),
        (seq![87u8, 73, 78, 67, 72], 28i32),
        (seq![73u8, 79], 29i32),
        (seq![80u8, 79, 76, 76], 29i32),
        (seq![83u8, 89, 83], 31i32),
    ]
}

/// The number of the first entry of `table` named `name`, from entry `i` on.
pub open spec fn lookup_signal(table: Seq<(Seq<u8>, i32)>, name: Seq<u8>, i: int) -> Option<i32>
    decreases table.len() - i,
{
    if i < 0 || i >= table.len() {
        None
    } else if table[i].0 == name {
        Some(table[i].1)
    } else {
        lookup_signal(table, name, i + 1)
    }
}

/// `s` without a leading `SIG`.
pub open spec fn strip_sig(s: Seq<u8>) -> Seq<u8> {
    if s.len() >= 3 && s[0] == 83 && s[1] == 73 && s[2] == 71 { s.subrange(3, s.len() as int) } else { s }
}

/// The signal an upper-case name denotes, with or without `SIG`.
pub open spec fn spec_signal_from_upper(upper: Seq<u8>) -> Option<i32> {
    lookup_signal(signal_table(), strip_sig(upper), 0)
}

fn bytes_eq(a: &[u8], b: &[u8]) -> (r: bool)
    ensures
        r == (a@ =~= b@),
{
    if a.len() != b.len() {
        return false;
    }
    let mut i: usize = 0;
    while i < a.len()
        invariant
            a.len() == b.len(),
            i <= a.len(),
            forall|k: int| 0 <= k < i ==> a@[k] == b@[k],
        decreases a.len() - i,
    {
        if a[i] != b[i] {
            return false;
        }
        i = i + 1;
    }
    true
}

fn signal_table_exec() -> (r: Vec<(Vec<u8>, i32)>)
    ensures
        r@.len() == signal_table().len(),
        forall|i: int| 0 <= i < r@.len() ==> (#[trigger] r@[i]).0@ == signal_table()[i].0 && r@[i].1 == signal_table()[i].1,
{
    let mut t: Vec<(Vec<u8>, i32)> = Vec::new();
    t.push((vec![72u8, 85, 80], 1i32));
    t.push((vec![73u8, 78, 84], 2i32));
    t.push((vec![81u8, 85, 73, 84], 3i32));
    t.push((vec![73u8, 76, 76], 4i32));
    t.push((vec![84u8, 82, 65, 80], 5i32));
    t.push((vec![65u8, 66, 82, 84], 6i32));
    t.push((vec![73u8, 79, 84], 6i32));
    t.push((vec![66u8, 85, 83], 7i32));
    t.push((vec![70u8, 80, 69], 8i32));
    t.push((vec![75u8, 73, 76, 76], 9i32));
    t.push((vec![85u8, 83, 82, 49], 10i32));
    t.push((vec![83u8, 69, 71, 86], 11i32));
    t.push((vec![85u8, 83, 82, 50], 12i32));
    t.push((vec![80u8, 73, 80, 69], 13i32));
    t.push((vec![65u8, 76, 82, 77], 14i32));
    t.push((vec![84u8, 69, 82, 77], 15i32));
    t.push((vec![67u8, 72, 76, 68], 17i32));
    t.push((vec![67u8, 79, 78, 84], 18i32));
    t.push((vec![83u8, 84, 79, 80], 19i32));
    t.push((vec![84u8, 83, 84, 80], 20i32));
    t.push((vec![84u8, 84, 73, 78], 21i32));
    t.push((vec![84u8, 84, 79, 85], 22i32));
    t.push((vec![85u8, 82, 71], 23i32));
    t.push((vec![88u8, 67, 80, 85], 24i32));
    t.push((vec![88u8, 70, 83, 90], 25i32));
    t.push((vec![86u8, 84, 65, 76, 82, 77], 26i32));
    t.push((vec![80u8, 82, 79, 70], 27i32));
    t.push((vec![87u8, 73, 78, 67, 72], 28i32));
    t.push((vec![73u8, 79], 29i32));
    t.push((vec![80u8, 79, 76, 76], 29i32));
    t.push((vec![83u8, 89, 83], 31i32));
    assert(t@.len() == signal_table().len());
    assert forall|i: int| 0 <= i < t@.len() implies (#[trigger] t@[i]).0@ == signal_table()[i].0 && t@[i].1
        == signal_table()[i].1 by {
        assert(t@[i].0@ =~= signal_table()[i].0);
    }
    t
}

/// The signal an upper-case name denotes (`TERM` or `SIGTERM`, `KILL`, ...).
pub fn signal_from_upper(upper: &[u8]) -> (r: Option<i32>)
    ensures
        r == spec_signal_from_upper(upper@),
{
    let name: &[u8] = if upper.len() >= 3 && upper[0] == 83u8 && upper[1] == 73u8 && upper[2] == 71u8 {
        &upper[3..upper.len()]
    } else {
        upper
    };
    assert(name@ =~= strip_sig(upper@));
    let table = signal_table_exec();
    let mut i: usize = 0;
    while i < table.len()
        invariant
            i <= table@.len(),
            table@.len() == signal_table().len(),
            forall|k: int| 0 <= k < table@.len() ==> (#[trigger] table@[k]).0@ == signal_table()[k].0 && table@[k].1
                == signal_table()[k].1,
            name@ == strip_sig(upper@),
            lookup_signal(signal_table(), name@, 0) == lookup_signal(signal_table(), name@, i as int),
        decreases table.len() - i,
    {
        if bytes_eq(table[i].0.as_slice(), name) {
            assert(signal_table()[i as int].0 == name@);
            return Some(table[i].1);
        }
        i = i + 1;
    }
    None
}

/// What a signal argument denotes: a number as `i32::from_str` reads it,
/// else the name in upper case, with or without `SIG`.
pub open spec fn spec_parse_signal(b: Seq<u8>) -> Option<i32> {
    match spec_parse_i32(b) {
        Some(n) => Some(n),
        None => spec_signal_from_upper(uppercase_of(b)),
    }
}

/// Reads a signal given by number or by name.
pub fn parse_signal(name: &str) -> (r: Option<i32>)
    ensures
        r == spec_parse_signal(name.spec_bytes()),
        all_ascii(name.spec_bytes()) && spec_parse_i32(name.spec_bytes()) is None ==> r == spec_signal_from_upper(
            ascii_upper(name.spec_bytes()),
        ),
{
    match parse_i32(name.as_bytes()) {
        Some(n) => Some(n),
        None => {
            let upper = to_uppercase_bytes(name);
            signal_from_upper(upper.as_slice())
        },
    }
}

/// A duration's suffix selects seconds, minutes (60 seconds), hours
/// (60 minutes) or days (24 hours) and is taken off the number; a number
/// without one is in seconds.
pub proof fn lemma_duration_units(b: Seq<u8>)
    ensures
        spec_duration_unit(b.push(115u8)) == (b, 1u32),
        spec_duration_unit(b.push(109u8)) == (b, (60 * spec_duration_unit(b.push(115u8)).1) as u32),
        spec_duration_unit(b.push(104u8)) == (b, (60 * spec_duration_unit(b.push(109u8)).1) as u32),
        spec_duration_unit(b.push(100u8)) == (b, (24 * spec_duration_unit(b.push(104u8)).1) as u32),
        b.len() == 0 || (b.last() != 115 && b.last() != 109 && b.last() != 104 && b.last() != 100) ==> spec_duration_unit(b)
            == (b, 1u32),
{
    assert(b.push(115u8).drop_last() =~= b);
    assert(b.push(109u8).drop_last() =~= b);
    assert(b.push(104u8).drop_last() =~= b);
    assert(b.push(100u8).drop_last() =~= b);
}

/// Wait statuses read back: a normal exit with code `c` gives `c`, and a
/// death by signal `s` gives `128 + s`.
pub proof fn lemma_status_codes(c: i32, s: i32)
    requires
        0 <= c <= 255,
        1 <= s <= 126,
    ensures
        spec_status_code(c << 8u32) == c,
        spec_status_code(s) == 128 + s,
{
    assert((c << 8u32) & 0x7f == 0 && ((c << 8u32) >> 8u32) & 0xff == c) by (bit_vector)
        requires
            0 <= c <= 255,
    ;
    assert(s & 0x7f == s && (((s & 0x7f) + 1) as i8) >= 2 && s & 0x7f != 0) by (bit_vector)
        requires
            1 <= s <= 126,
    ;
}

/// After the time limit, without `--preserve-status`, the termination signal
/// always gives `EXIT_TIMEOUT`, whatever the command's status; with it, the
/// command's own exit code is kept.
pub proof fn lemma_timeout_code(sig: i32, status: i32)
    ensures
        spec_timeout_code(false, SIGTERM, status) == EXIT_TIMEOUT,
        spec_timeout_code(true, sig, status) == spec_status_code(status),
        spec_timeout_code(false, sig, status) == EXIT_TIMEOUT || spec_timeout_code(false, sig, status) == spec_status_code(status),
{
}

/// A number that differs between byte strings of up to six bytes that differ.
spec fn name_code(s: Seq<u8>) -> int {
    s.len() * 281474976710656
        + (if s.len() > 0 { s[0] as int } else { 0 })
        + (if s.len() > 1 { s[1] * 256 } else { 0 })
        + (if s.len() > 2 { s[2] * 65536 } else { 0 })
        + (if s.len() > 3 { s[3] * 16777216 } else { 0 })
        + (if s.len() > 4 { s[4] * 4294967296 } else { 0 })
        + (if s.len() > 5 { s[5] * 1099511627776 } else { 0 })
}

/// Each signal name, with or without `SIG`, denotes its Linux signal number
/// (`INT` is 2, `KILL` 9, `TERM` 15, ...), and a number is denoted by its own
/// name and no other: only `ABRT`/`IOT` and `IO`/`POLL` share one.
#[verifier::rlimit(100)]
pub proof fn lemma_signal_numbers(name: Seq<u8>)
    ensures
        (spec_signal_from_upper(name) == Some(1i32)) == (strip_sig(name) == seq![72u8, 85, 80]),
        (spec_signal_from_upper(name) == Some(2i32)) == (strip_sig(name) == seq![73u8, 78, 84]),
        (spec_signal_from_upper(name) == Some(3i32)) == (strip_sig(name) == seq![81u8, 85, 73, 84]),
        (spec_signal_from_upper(name) == Some(4i32)) == (strip_sig(name) == seq![73u8, 76, 76]),
        (spec_signal_from_upper(name) == Some(5i32)) == (strip_sig(name) == seq![84u8, 82, 65, 80]),
        (spec_signal_from_upper(name) == Some(6i32)) == (strip_sig(name) == seq![65u8, 66, 82, 84] || strip_sig(name) == seq![73u8, 79, 84]),
        (spec_signal_from_upper(name) == Some(7i32)) == (strip_sig(name) == seq![66u8, 85, 83]),
        (spec_signal_from_upper(name) == Some(8i32)) == (strip_sig(name) == seq![70u8, 80, 69]),
        (spec_signal_from_upper(name) == Some(9i32)) == (strip_sig(name) == seq![75u8, 73, 76, 76]),
        (spec_signal_from_upper(name) == Some(10i32)) == (strip_sig(name) == seq![85u8, 83, 82, 49]),
        (spec_signal_from_upper(name) == Some(11i32)) == (strip_sig(name) == seq![83u8, 69, 71, 86]),
        (spec_signal_from_upper(name) == Some(12i32)) == (strip_sig(name) == seq![85u8, 83, 82, 50]),
        (spec_signal_from_upper(name) == Some(13i32)) == (strip_sig(name) == seq![80u8, 73, 80, 69]),
        (spec_signal_from_upper(name) == Some(14i32)) == (strip_sig(name) == seq![65u8, 76, 82, 77]),
        (spec_signal_from_upper(name) == Some(15i32)) == (strip_sig(name) == seq![84u8, 69, 82, 77]),
        (spec_signal_from_upper(name) == Some(17i32)) == (strip_sig(name) == seq![67u8, 72, 76, 68]),
        (spec_signal_from_upper(name) == Some(18i32)) == (strip_sig(name) == seq![67u8, 79, 78, 84]),
        (spec_signal_from_upper(name) == Some(19i32)) == (strip_sig(name) == seq![83u8, 84, 79, 80]),
        (spec_signal_from_upper(name) == Some(20i32)) == (strip_sig(name) == seq![84u8, 83, 84, 80]),
        (spec_signal_from_upper(name) == Some(21i32)) == (strip_sig(name) == seq![84u8, 84, 73, 78]),
        (spec_signal_from_upper(name) == Some(22i32)) == (strip_sig(name) == seq![84u8, 84, 79, 85]),
        (spec_signal_from_upper(name) == Some(23i32)) == (strip_sig(name) == seq![85u8, 82, 71]),
        (spec_signal_from_upper(name) == Some(24i32)) == (strip_sig(name) == seq![88u8, 67, 80, 85]),
        (spec_signal_from_upper(name) == Some(25i32)) == (strip_sig(name) == seq![88u8, 70, 83, 90]),
        (spec_signal_from_upper(name) == Some(26i32)) == (strip_sig(name) == seq![86u8, 84, 65, 76, 82, 77]),
        (spec_signal_from_upper(name) == Some(27i32)) == (strip_sig(name) == seq![80u8, 82, 79, 70]),
        (spec_signal_from_upper(name) == Some(28i32)) == (strip_sig(name) == seq![87u8, 73, 78, 67, 72]),
        (spec_signal_from_upper(name) == Some(29i32)) == (strip_sig(name) == seq![73u8, 79] || strip_sig(name) == seq![80u8, 79, 76, 76]),
        (spec_signal_from_upper(name) == Some(31i32)) == (strip_sig(name) == seq![83u8, 89, 83]),
        spec_signal_from_upper(name) is Some ==> 1 <= spec_signal_from_upper(name)->0 <= 31
            && spec_signal_from_upper(name)->0 != 16 && spec_signal_from_upper(name)->0 != 30,
{
    let t = signal_table();
    reveal_with_fuel(lookup_signal, 32);
    assert(t[0] == (seq![72u8, 85, 80], 1i32));
    assert(t[1] == (seq![73u8, 78, 84], 2i32));
    assert(t[2] == (seq![81u8, 85, 73, 84], 3i32));
    assert(t[3] == (seq![73u8, 76, 76], 4i32));
    assert(t[4] == (seq![84u8, 82, 65, 80], 5i32));
    assert(t[5] == (seq![65u8, 66, 82, 84], 6i32));
    assert(t[6] == (seq![73u8, 79, 84], 6i32));
    assert(t[7] == (seq![66u8, 85, 83], 7i32));
    assert(t[8] == (seq![70u8, 80, 69], 8i32));
    assert(t[9] == (seq![75u8, 73, 76, 76], 9i32));
    assert(t[10] == (seq![85u8, 83, 82, 49], 10i32));
    assert(t[11] == (seq![83u8, 69, 71, 86], 11i32));
    assert(t[12] == (seq![85u8, 83, 82, 50], 12i32));
    assert(t[13] == (seq![80u8, 73, 80, 69], 13i32));
    assert(t[14] == (seq![65u8, 76, 82, 77], 14i32));
    assert(t[15] == (seq![84u8, 69, 82, 77], 15i32));
    assert(t[16] == (seq![67u8, 72, 76, 68], 17i32));
    assert(t[17] == (seq![67u8, 79, 78, 84], 18i32));
    assert(t[18] == (seq![83u8, 84, 79, 80], 19i32));
    assert(t[19] == (seq![84u8, 83, 84, 80], 20i32));
    assert(t[20] == (seq![84u8, 84, 73, 78], 21i32));
    assert(t[21] == (seq![84u8, 84, 79, 85], 22i32));
    assert(t[22] == (seq![85u8, 82, 71], 23i32));
    assert(t[23] == (seq![88u8, 67, 80, 85], 24i32));
    assert(t[24] == (seq![88u8, 70, 83, 90], 25i32));
    assert(t[25] == (seq![86u8, 84, 65, 76, 82, 77], 26i32));
    assert(t[26] == (seq![80u8, 82, 79, 70], 27i32));
    assert(t[27] == (seq![87u8, 73, 78, 67, 72], 28i32));
    assert(t[28] == (seq![73u8, 79], 29i32));
    assert(t[29] == (seq![80u8, 79, 76, 76], 29i32));
    assert(t[30] == (seq![83u8, 89, 83], 31i32));
    assert(name_code(seq![72u8, 85, 80]) == 844424935396680);
    assert(name_code(seq![73u8, 78, 84]) == 844424935657033);
    assert(name_code(seq![81u8, 85, 73, 84]) == 1125901320934737);
    assert(name_code(seq![73u8, 76, 76]) == 844424935132233);
    assert(name_code(seq![84u8, 82, 65, 80]) == 1125901253300820);
    assert(name_code(seq![65u8, 66, 82, 84]) == 1125901321519681);
    assert(name_code(seq![73u8, 79, 84]) == 844424935657289);
    assert(name_code(seq![66u8, 85, 83]) == 844424935593282);
    assert(name_code(seq![70u8, 80, 69]) == 844424934674502);
    assert(name_code(seq![75u8, 73, 76, 76]) == 1125901186910539);
    assert(name_code(seq![85u8, 83, 82, 49]) == 1125900734321493);
    assert(name_code(seq![83u8, 69, 71, 86]) == 1125901354354003);
    assert(name_code(seq![85u8, 83, 82, 50]) == 1125900751098709);
    assert(name_code(seq![80u8, 73, 80, 69]) == 1125901069732176);
    assert(name_code(seq![65u8, 76, 82, 77]) == 1125901204081729);
    assert(name_code(seq![84u8, 69, 82, 77]) == 1125901204079956);
    assert(name_code(seq![67u8, 72, 76, 68]) == 1125901052692547);
    assert(name_code(seq![67u8, 79, 78, 84]) == 1125901321260867);
    assert(name_code(seq![83u8, 84, 79, 80]) == 1125901254218835);
    assert(name_code(seq![84u8, 83, 84, 80]) == 1125901254546260);
    assert(name_code(seq![84u8, 84, 73, 78]) == 1125901220271188);
    assert(name_code(seq![84u8, 84, 79, 85]) == 1125901338104916);
    assert(name_code(seq![85u8, 82, 71]) == 844424934806101);
    assert(name_code(seq![88u8, 67, 80, 85]) == 1125901338166104);
    assert(name_code(seq![88u8, 70, 83, 90]) == 1125901422249560);
    assert(name_code(seq![86u8, 84, 65, 76, 82, 77]) == 1773865722270806);
    assert(name_code(seq![80u8, 82, 79, 70]) == 1125901086446160);
    assert(name_code(seq![87u8, 73, 78, 67, 72]) == 1407685250402647);
    assert(name_code(seq![73u8, 79]) == 562949953441609);
    assert(name_code(seq![80u8, 79, 76, 76]) == 1125901186912080);
    assert(name_code(seq![83u8, 89, 83]) == 844424935594323);
}

} // verus!
