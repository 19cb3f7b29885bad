//! Count arguments of `tail -n` and `tail -c`: where the count is taken
//! from (the end, or the start with `+`) and the check that refuses a count
//! too large for 64 bits.

use vstd::prelude::*;
use vstd::string::*;
use crate::decimal::{is_digit, parse_u64, spec_parse_u64, unsigned_body};

verus! {

/// Where a count is measured from.
#[derive(Clone, Copy, Debug, PartialEq, Eq, Structural)]
pub enum CountOrigin {
    /// The last N lines or bytes (`N` or `-N`).
    FromEnd,
    /// From line or byte N on (`+N`).
    FromStart,
}

/// `s` without one leading `+`, or else without one leading `-`.
pub open spec fn strip_sign(s: Seq<u8>) -> Seq<u8> {
    if s.len() > 0 && (s[0] == 43 || s[0] == 45) { s.drop_first() } else { s }
}

/// The number of leading ASCII digits of `s` from position `i` on.
pub open spec fn digit_run(s: Seq<u8>, i: int) -> int
    decreases s.len() - i,
{
    if i < 0 || i >= s.len() || !is_digit(s[i]) {
        0
    } else {
        1 + digit_run(s, i + 1)
    }
}

/// Whether the count's leading digits (after an optional sign) are present
/// but do not fit in 64 bits.
pub open spec fn spec_numeric_overflow(b: Seq<u8>) -> bool {
    let clean = strip_sign(b);
    let n = digit_run(clean, 0);
    n > 0 && spec_parse_u64(clean.subrange(0, n)) is None
}

proof fn lemma_digit_run_bounds(s: Seq<u8>, i: int)
    requires
        0 <= i <= s.len(),
    ensures
        0 <= digit_run(s, i) <= s.len() - i,
        forall|k: int| i <= k < i + digit_run(s, i) ==> is_digit(#[trigger] s[k]),
    decreases s.len() - i,
{
    if i < s.len() && is_digit(s[i]) {
        lemma_digit_run_bounds(s, i + 1);
    }
}

/// Whether the count's leading digits, after an optional `+` or `-`, form a
/// number too large for 64 bits.
pub fn check_numeric_overflow(val: &str) -> (r: bool)
    ensures
        r == spec_numeric_overflow(val.spec_bytes()),
{
    let b = val.as_bytes();
    let clean = if b.len() > 0 && (b[0] == 43u8 || b[0] == 45u8) { &b[1..b.len()] } else { b };
    assert(clean@ =~= strip_sign(b@));
    let mut n: usize = 0;
    proof { lemma_digit_run_bounds(clean@, 0); }
    while n < clean.len() && clean[n] >= 48u8 && clean[n] <= 57u8
        invariant
            n <= clean.len(),
            digit_run(clean@, 0) == n + digit_run(clean@, n as int),
        decreases clean.len() - n,
    {
        n = n + 1;
    }
    assert(digit_run(clean@, n as int) == 0);
    if n == 0 {
        return false;
    }
    let num = &clean[0..n];
    parse_u64(num).is_none()
}

proof fn lemma_digit_run_all(s: Seq<u8>, i: int)
    requires
        0 <= i <= s.len(),
        forall|k: int| 0 <= k < s.len() ==> is_digit(#[trigger] s[k]),
    ensures
        digit_run(s, i) == s.len() - i,
    decreases s.len() - i,
{
    if i < s.len() {
        lemma_digit_run_all(s, i + 1);
    }
}

/// A count whose text after the sign reads as a 64-bit number is never
/// refused as too large.
pub proof fn lemma_small_count_no_overflow(b: Seq<u8>)
    requires
        spec_parse_u64(strip_sign(b)) is Some,
        strip_sign(b).len() > 0 && strip_sign(b)[0] != 43,
    ensures
        !spec_numeric_overflow(b),
{
    let clean = strip_sign(b);
    assert(unsigned_body(clean) == clean);
    lemma_digit_run_all(clean, 0);
    assert(clean.subrange(0, clean.len() as int) =~= clean);
}

/// Where the count `val` is measured from, and its text without that sign:
/// `+N` counts from the start; `N` and `-N` count from the end.
pub fn count_origin(val: &str) -> (r: (CountOrigin, Vec<u8>))
    ensures
        val.spec_bytes().len() > 0 && val.spec_bytes()[0] == 43 ==> r.0 == CountOrigin::FromStart
            && r.1@ == val.spec_bytes().drop_first(),
        !(val.spec_bytes().len() > 0 && val.spec_bytes()[0] == 43) ==> r.0 == CountOrigin::FromEnd
            && r.1@ == strip_sign(val.spec_bytes()),
{
    let b = val.as_bytes();
    if b.len() > 0 && b[0] == 43u8 {
        let mut v: Vec<u8> = Vec::new();
        v.extend_from_slice(&b[1..b.len()]);
        assert(v@ =~= b@.drop_first());
        (CountOrigin::FromStart, v)
    } else {
        let mut v: Vec<u8> = Vec::new();
        let t = if b.len() > 0 && b[0] == 45u8 { &b[1..b.len()] } else { b };
        v.extend_from_slice(t);
        assert(v@ =~= strip_sign(b@));
        (CountOrigin::FromEnd, v)
    }
}

} // verus!
