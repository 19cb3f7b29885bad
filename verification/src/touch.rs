//! Dates and timestamps for setting file times.
//!
//! A `-d` date is one of `now`, `yesterday`, `tomorrow`, `N days`, `N days ago`,
//! `@SECONDS[.FRACTION]` or `YYYY-MM-DD[ HH:MM[:SS][.FRACTION]]` (a `T` may stand
//! for the space). A `-t` stamp is `[[CC]YY]MMDDhhmm[.ss]`. Local civil times are
//! returned as fields; turning them into seconds since the epoch needs the
//! system's time zone and is left to the caller.

use vstd::prelude::*;
use vstd::string::*;
use crate::bytes::{find_byte_from, first_index_from, lemma_first_index_from};
use crate::decimal::{
    all_digits, digits_value, is_digit, parse_i32, parse_i64, parse_u32, signed_body, spec_parse_i32,
    spec_parse_i64, spec_parse_int, spec_parse_u32, signed_decimal, lemma_signed_decimal_roundtrip,
};
use crate::text::{
    ascii_lower, drop_tail, ends_with, ends_with_bytes, eq_ignore_ascii_case,
    eq_ignore_ascii_case_bytes, is_continuation, leading_ws, trailing_end, trim, trim_bytes,
    trim_start, ws_len_at, ws_len_before,
};

verus! {

/// Seconds in one day, the step of the relative date forms.
pub const SECONDS_PER_DAY: i64 = 86400;

/// A local calendar date and time of day, as its fields.
#[derive(Clone, Copy, Debug, PartialEq, Eq, Structural)]
pub struct CivilTime {
    pub year: i32,
    pub month: u32,
    pub day: u32,
    pub hour: u32,
    pub minute: u32,
    pub second: u32,
}

/// What a `-d` date string denotes.
#[derive(Clone, Copy, Debug, PartialEq, Eq, Structural)]
pub enum DateSpec {
    /// The reference time itself.
    Now,
    /// This many days before the reference time, at a whole second.
    DaysBefore(i64),
    /// This many days after the reference time, at a whole second.
    DaysAfter(i64),
    /// Seconds and nanoseconds since the epoch.
    Epoch(i64, i64),
    /// A local civil time, with nanoseconds.
    Local(CivilTime, i64),
}

/// A date once relative forms are resolved against a reference time.
#[derive(Clone, Copy, Debug, PartialEq, Eq, Structural)]
pub enum DateValue {
    /// Seconds and nanoseconds since the epoch.
    Instant(i64, i64),
    /// A local civil time, with nanoseconds.
    Local(CivilTime, i64),
}

/// Why a date or stamp was refused.
#[derive(Clone, Copy, Debug, PartialEq, Eq, Structural)]
pub enum DateError {
    /// A `-d` string that matches none of the accepted forms.
    InvalidDate,
    /// A `-t` stamp that is not `[[CC]YY]MMDDhhmm[.ss]` with fields in range.
    InvalidFormat,
}

pub open spec fn word_now() -> Seq<u8> {
    seq![110u8, 111, 119]
}

pub open spec fn word_yesterday() -> Seq<u8> {
    seq![121u8, 101, 115, 116, 101, 114, 100, 97, 121]
}

pub open spec fn word_tomorrow() -> Seq<u8> {
    seq![116u8, 111, 109, 111, 114, 114, 111, 119]
}

/// ` ago`
pub open spec fn suffix_ago() -> Seq<u8> {
    seq![32u8, 97, 103, 111]
}

/// ` days`
pub open spec fn suffix_days() -> Seq<u8> {
    seq![32u8, 100, 97, 121, 115]
}

/// ` day`
pub open spec fn suffix_day() -> Seq<u8> {
    seq![32u8, 100, 97, 121]
}

/// The count of `N days` or `N day`: the text before the suffix, trimmed,
/// read as an `i64`.
pub open spec fn day_count(s: Seq<u8>) -> Option<i64> {
    if ends_with(s, suffix_days()) {
        spec_parse_i64(trim(drop_tail(s, 5)))
    } else if ends_with(s, suffix_day()) {
        spec_parse_i64(trim(drop_tail(s, 4)))
    } else {
        None
    }
}

/// The relative forms `N days ago`, then `N days`, of trimmed text `t`.
pub open spec fn relative_days(t: Seq<u8>) -> Option<DateSpec> {
    let before = if ends_with(t, suffix_ago()) {
        day_count(trim(drop_tail(t, 4)))
    } else {
        None
    };
    match before {
        Some(n) => Some(DateSpec::DaysBefore(n)),
        None => match day_count(t) {
            Some(n) => Some(DateSpec::DaysAfter(n)),
            None => None,
        },
    }
}

/// A fraction of a second as nine digits: the first nine bytes of `f`,
/// padded on the right with `0`.
pub open spec fn frac9(f: Seq<u8>) -> Seq<u8> {
    if f.len() >= 9 {
        f.subrange(0, 9)
    } else {
        f + Seq::new((9 - f.len()) as nat, |i: int| 48u8)
    }
}

/// Whether taking the first nine bytes of `f` cuts a character in two.
pub open spec fn frac_splits_char(f: Seq<u8>) -> bool {
    f.len() > 9 && is_continuation(f[9])
}

/// `s` from byte `i` on.
pub open spec fn tail(s: Seq<u8>, i: int) -> Seq<u8> {
    s.subrange(i, s.len() as int)
}

/// The text after `@`: seconds, optionally a `.` and a fraction.
pub open spec fn spec_epoch(rest: Seq<u8>) -> Option<DateSpec> {
    match first_index_from(rest, 46, 0) {
        Some(d) => match spec_parse_i64(rest.subrange(0, d)) {
            Some(sec) => match spec_parse_i64(frac9(tail(rest, d + 1))) {
                Some(nsec) => Some(DateSpec::Epoch(sec, nsec)),
                None => None,
            },
            None => None,
        },
        None => match spec_parse_i64(rest) {
            Some(sec) => Some(DateSpec::Epoch(sec, 0)),
            None => None,
        },
    }
}

/// Whether reading the text after `@` would cut a character in two.
pub open spec fn epoch_splits_char(rest: Seq<u8>) -> bool {
    match first_index_from(rest, 46, 0) {
        Some(d) => spec_parse_i64(rest.subrange(0, d)) is Some && frac_splits_char(tail(rest, d + 1)),
        None => false,
    }
}

/// `s` with every `T` replaced by a space.
pub open spec fn t_to_space(s: Seq<u8>) -> Seq<u8> {
    Seq::new(s.len(), |i: int| if s[i] == 84 { 32u8 } else { s[i] })
}

/// The positions of the two `-` of a date part made of exactly three fields.
pub open spec fn date_dashes(dp: Seq<u8>) -> Option<(int, int)> {
    match first_index_from(dp, 45, 0) {
        Some(a) => match first_index_from(dp, 45, a + 1) {
            Some(b) => if first_index_from(dp, 45, b + 1) is None {
                Some((a, b))
            } else {
                None
            },
            None => None,
        },
        None => None,
    }
}

/// Year, month and day of a `YYYY-MM-DD` date part.
pub open spec fn date_fields(dp: Seq<u8>) -> Option<(i32, u32, u32)> {
    match date_dashes(dp) {
        Some((a, b)) => match (
            spec_parse_i32(dp.subrange(0, a)),
            spec_parse_u32(dp.subrange(a + 1, b)),
            spec_parse_u32(tail(dp, b + 1)),
        ) {
            (Some(y), Some(m), Some(d)) => Some((y, m, d)),
            _ => None,
        },
        None => None,
    }
}

/// Hour, minute and second of an `HH:MM[:SS]` time.
pub open spec fn clock_fields(ts: Seq<u8>) -> Option<(u32, u32, u32)> {
    match first_index_from(ts, 58, 0) {
        Some(a) => match first_index_from(ts, 58, a + 1) {
            Some(b) => if first_index_from(ts, 58, b + 1) is None {
                match (
                    spec_parse_u32(ts.subrange(0, a)),
                    spec_parse_u32(ts.subrange(a + 1, b)),
                    spec_parse_u32(tail(ts, b + 1)),
                ) {
                    (Some(h), Some(m), Some(s)) => Some((h, m, s)),
                    _ => None,
                }
            } else {
                None
            },
            None => match (spec_parse_u32(ts.subrange(0, a)), spec_parse_u32(tail(ts, a + 1))) {
                (Some(h), Some(m)) => Some((h, m, 0u32)),
                _ => None,
            },
        },
        None => None,
    }
}

/// Hour, minute, second and nanoseconds of the (trimmed) time part.
pub open spec fn time_fields(tp: Seq<u8>) -> Option<(u32, u32, u32, i64)> {
    match first_index_from(tp, 46, 0) {
        Some(d) => match spec_parse_i64(frac9(tail(tp, d + 1))) {
            Some(ns) => match clock_fields(tp.subrange(0, d)) {
                Some((h, m, s)) => Some((h, m, s, ns)),
                None => None,
            },
            None => None,
        },
        None => match clock_fields(tp) {
            Some((h, m, s)) => Some((h, m, s, 0i64)),
            None => None,
        },
    }
}

/// The date part (before the first space) and the time part, if any, of
/// trimmed text with `T` read as a space.
pub open spec fn iso_parts(t: Seq<u8>) -> (Seq<u8>, Option<Seq<u8>>) {
    let n = t_to_space(t);
    match first_index_from(n, 32, 0) {
        Some(p) => (n.subrange(0, p), Some(tail(n, p + 1))),
        None => (n, None),
    }
}

/// Whether the fields make a plausible date and time of day.
pub open spec fn fields_in_range(month: u32, day: u32, hour: u32, minute: u32, second: u32) -> bool {
    1 <= month <= 12 && 1 <= day <= 31 && hour <= 23 && minute <= 59 && second <= 60
}

/// The ISO form `YYYY-MM-DD[ HH:MM[:SS][.FRACTION]]` of trimmed text `t`.
pub open spec fn spec_iso(t: Seq<u8>) -> Option<DateSpec> {
    let (dp, tp) = iso_parts(t);
    match date_fields(dp) {
        Some((y, mo, d)) => {
            let clock = match tp {
                Some(x) => time_fields(trim(x)),
                None => Some((0u32, 0u32, 0u32, 0i64)),
            };
            match clock {
                Some((h, mi, s, ns)) => if fields_in_range(mo, d, h, mi, s) {
                    Some(DateSpec::Local(CivilTime { year: y, month: mo, day: d, hour: h, minute: mi, second: s }, ns))
                } else {
                    None
                },
                None => None,
            }
        },
        None => None,
    }
}

/// Whether reading the ISO form would cut a character in two.
pub open spec fn iso_splits_char(t: Seq<u8>) -> bool {
    let (dp, tp) = iso_parts(t);
    match tp {
        Some(x) => date_fields(dp) is Some && match first_index_from(trim(x), 46, 0) {
            Some(d) => frac_splits_char(tail(trim(x), d + 1)),
            None => false,
        },
        None => false,
    }
}

/// What the date string with bytes `b` denotes, or `None` if it is invalid.
pub open spec fn spec_parse_date(b: Seq<u8>) -> Option<DateSpec> {
    let t = trim(b);
    if eq_ignore_ascii_case(t, word_now()) {
        Some(DateSpec::Now)
    } else if eq_ignore_ascii_case(t, word_yesterday()) {
        Some(DateSpec::DaysBefore(1))
    } else if eq_ignore_ascii_case(t, word_tomorrow()) {
        Some(DateSpec::DaysAfter(1))
    } else if relative_days(t) is Some {
        relative_days(t)
    } else if t.len() > 0 && t[0] == 64 {
        spec_epoch(t.drop_first())
    } else {
        spec_iso(t)
    }
}

/// Whether reading the date string would cut a character in two (where the
/// fraction of a second is cut at nine bytes).
pub open spec fn date_splits_char(b: Seq<u8>) -> bool {
    let t = trim(b);
    if eq_ignore_ascii_case(t, word_now()) || eq_ignore_ascii_case(t, word_yesterday())
        || eq_ignore_ascii_case(t, word_tomorrow()) || relative_days(t) is Some {
        false
    } else if t.len() > 0 && t[0] == 64 {
        epoch_splits_char(t.drop_first())
    } else {
        iso_splits_char(t)
    }
}

fn day_count_exec(s: &[u8]) -> (r: Option<i64>)
    ensures
        r == day_count(s@),
{
    let days: [u8; 5] = [32, 100, 97, 121, 115];
    let day: [u8; 4] = [32, 100, 97, 121];
    assert(days@ =~= suffix_days());
    assert(day@ =~= suffix_day());
    if ends_with_bytes(s, &days) {
        let n = trim_bytes(&s[0..s.len() - 5]);
        parse_i64(n)
    } else if ends_with_bytes(s, &day) {
        let n = trim_bytes(&s[0..s.len() - 4]);
        parse_i64(n)
    } else {
        None
    }
}

fn relative_days_exec(t: &[u8]) -> (r: Option<DateSpec>)
    ensures
        r == relative_days(t@),
{
    let ago: [u8; 4] = [32, 97, 103, 111];
    assert(ago@ =~= suffix_ago());
    let before = if ends_with_bytes(t, &ago) {
        let rest = trim_bytes(&t[0..t.len() - 4]);
        day_count_exec(rest)
    } else {
        None
    };
    match before {
        Some(n) => Some(DateSpec::DaysBefore(n)),
        None => match day_count_exec(t) {
            Some(n) => Some(DateSpec::DaysAfter(n)),
            None => None,
        },
    }
}

/// Reads a fraction of a second as nine digits.
fn parse_frac9(f: &[u8]) -> (r: Option<i64>)
    ensures
        r == spec_parse_i64(frac9(f@)),
{
    let mut buf: Vec<u8> = Vec::new();
    let mut i: usize = 0;
    while i < 9
        invariant
            i <= 9,
            buf@.len() == i,
            forall|k: int| 0 <= k < i ==> buf@[k] == (if k < f@.len() { f@[k] } else { 48u8 }),
        decreases 9 - i,
    {
        if i < f.len() {
            buf.push(f[i]);
        } else {
            buf.push(48u8);
        }
        i = i + 1;
    }
    assert(buf@ =~= frac9(f@));
    parse_i64(buf.as_slice())
}

fn parse_epoch(rest: &[u8]) -> (r: Option<DateSpec>)
    ensures
        r == spec_epoch(rest@),
{
    match find_byte_from(46u8, rest, 0) {
        Some(d) => {
            assert(rest@.subrange(0, d as int) == rest@.subrange(0, d as int));
            match parse_i64(&rest[0..d]) {
                Some(sec) => {
                    let f = &rest[d + 1..rest.len()];
                    assert(f@ =~= tail(rest@, d + 1));
                    match parse_frac9(f) {
                        Some(nsec) => Some(DateSpec::Epoch(sec, nsec)),
                        None => None,
                    }
                },
                None => None,
            }
        },
        None => match parse_i64(rest) {
            Some(sec) => Some(DateSpec::Epoch(sec, 0)),
            None => None,
        },
    }
}

fn clock_fields_exec(ts: &[u8]) -> (r: Option<(u32, u32, u32)>)
    ensures
        r == clock_fields(ts@),
{
    match find_byte_from(58u8, ts, 0) {
        Some(a) => match find_byte_from(58u8, ts, a + 1) {
            Some(b) => {
                if b + 1 <= ts.len() && find_byte_from(58u8, ts, b + 1).is_none() {
                    let h = parse_u32(&ts[0..a]);
                    let m = parse_u32(&ts[a + 1..b]);
                    let sl = &ts[b + 1..ts.len()];
                    assert(sl@ =~= tail(ts@, b + 1));
                    let s = parse_u32(sl);
                    match (h, m, s) {
                        (Some(h), Some(m), Some(s)) => Some((h, m, s)),
                        _ => None,
                    }
                } else {
                    None
                }
            },
            None => {
                let h = parse_u32(&ts[0..a]);
                let sl = &ts[a + 1..ts.len()];
                assert(sl@ =~= tail(ts@, a + 1));
                let m = parse_u32(sl);
                match (h, m) {
                    (Some(h), Some(m)) => Some((h, m, 0u32)),
                    _ => None,
                }
            },
        },
        None => None,
    }
}

fn time_fields_exec(tp: &[u8]) -> (r: Option<(u32, u32, u32, i64)>)
    ensures
        r == time_fields(tp@),
{
    match find_byte_from(46u8, tp, 0) {
        Some(d) => {
            let f = &tp[d + 1..tp.len()];
            assert(f@ =~= tail(tp@, d + 1));
            match parse_frac9(f) {
                Some(ns) => match clock_fields_exec(&tp[0..d]) {
                    Some((h, m, s)) => Some((h, m, s, ns)),
                    None => None,
                },
                None => None,
            }
        },
        None => match clock_fields_exec(tp) {
            Some((h, m, s)) => Some((h, m, s, 0i64)),
            None => None,
        },
    }
}

fn date_fields_exec(dp: &[u8]) -> (r: Option<(i32, u32, u32)>)
    ensures
        r == date_fields(dp@),
{
    match find_byte_from(45u8, dp, 0) {
        Some(a) => match find_byte_from(45u8, dp, a + 1) {
            Some(b) => {
                if find_byte_from(45u8, dp, b + 1).is_none() {
                    let y = parse_i32(&dp[0..a]);
                    let m = parse_u32(&dp[a + 1..b]);
                    let sl = &dp[b + 1..dp.len()];
                    assert(sl@ =~= tail(dp@, b + 1));
                    let d = parse_u32(sl);
                    match (y, m, d) {
                        (Some(y), Some(m), Some(d)) => Some((y, m, d)),
                        _ => None,
                    }
                } else {
                    None
                }
            },
            None => None,
        },
        None => None,
    }
}

fn parse_iso(t: &[u8]) -> (r: Option<DateSpec>)
    ensures
        r == spec_iso(t@),
{
    let mut n: Vec<u8> = Vec::new();
    let mut i: usize = 0;
    while i < t.len()
        invariant
            i <= t.len(),
            n@.len() == i,
            forall|k: int| 0 <= k < i ==> n@[k] == (if t@[k] == 84 { 32u8 } else { t@[k] }),
        decreases t.len() - i,
    {
        if t[i] == 84u8 {
            n.push(32u8);
        } else {
            n.push(t[i]);
        }
        i = i + 1;
    }
    assert(n@ =~= t_to_space(t@));
    let ns = n.as_slice();
    let (dp, tp): (&[u8], Option<&[u8]>) = match find_byte_from(32u8, ns, 0) {
        Some(p) => {
            let x = &ns[p + 1..ns.len()];
            assert(x@ =~= tail(ns@, p + 1));
            (&ns[0..p], Some(x))
        },
        None => (ns, None),
    };
    assert(dp@ == iso_parts(t@).0);
    assert(tp matches Some(x) ==> iso_parts(t@).1 == Some(x@));
    assert(tp is None ==> iso_parts(t@).1 is None);
    match date_fields_exec(dp) {
        Some((y, mo, d)) => {
            let clock = match tp {
                Some(x) => time_fields_exec(trim_bytes(x)),
                None => Some((0u32, 0u32, 0u32, 0i64)),
            };
            match clock {
                Some((h, mi, s, ns)) => {
                    if 1 <= mo && mo <= 12 && 1 <= d && d <= 31 && h <= 23 && mi <= 59 && s <= 60 {
                        Some(DateSpec::Local(CivilTime { year: y, month: mo, day: d, hour: h, minute: mi, second: s }, ns))
                    } else {
                        None
                    }
                },
                None => None,
            }
        },
        None => None,
    }
}

/// Reads a `-d` date string into what it denotes, independently of the
/// current time: `now`, `yesterday` and `tomorrow` (letters in any case),
/// `N days ago`, `N days` or `N day` (N a signed integer), `@SECONDS` with an
/// optional fraction, or `YYYY-MM-DD` with an optional time `HH:MM[:SS]` and
/// fraction after a space or `T`. Surrounding white space is ignored.
pub fn parse_date_string(s: &str) -> (r: Result<DateSpec, DateError>)
    requires
        !date_splits_char(s.spec_bytes()),
    ensures
        r == (match spec_parse_date(s.spec_bytes()) {
            Some(d) => Ok(d),
            None => Err(DateError::InvalidDate),
        }),
        r matches Ok(DateSpec::Local(c, _)) ==> fields_in_range(c.month, c.day, c.hour, c.minute, c.second),
{
    let t = trim_bytes(s.as_bytes());
    let now: [u8; 3] = [110, 111, 119];
    let yesterday: [u8; 9] = [121, 101, 115, 116, 101, 114, 100, 97, 121];
    let tomorrow: [u8; 8] = [116, 111, 109, 111, 114, 114, 111, 119];
    assert(now@ =~= word_now());
    assert(yesterday@ =~= word_yesterday());
    assert(tomorrow@ =~= word_tomorrow());
    let found = if eq_ignore_ascii_case_bytes(t, &now) {
        Some(DateSpec::Now)
    } else if eq_ignore_ascii_case_bytes(t, &yesterday) {
        Some(DateSpec::DaysBefore(1))
    } else if eq_ignore_ascii_case_bytes(t, &tomorrow) {
        Some(DateSpec::DaysAfter(1))
    } else {
        match relative_days_exec(t) {
            Some(d) => Some(d),
            None => if t.len() > 0 && t[0] == 64u8 {
                let rest = &t[1..t.len()];
                assert(rest@ =~= t@.drop_first());
                parse_epoch(rest)
            } else {
                parse_iso(t)
            },
        }
    };
    match found {
        Some(d) => Ok(d),
        None => Err(DateError::InvalidDate),
    }
}

/// Whether `days` whole days before (or after, when `forward`) the second
/// `base` can be computed in 64 bits.
pub open spec fn day_shift_fits(base: i64, days: i64, forward: bool) -> bool {
    let shift = days * SECONDS_PER_DAY;
    i64::MIN <= shift <= i64::MAX && i64::MIN <= (if forward { base + shift } else { base - shift }) <= i64::MAX
}

/// Whether resolving `d` against `base` stays within 64 bits.
pub open spec fn resolve_fits(d: DateSpec, base: (i64, i64)) -> bool {
    match d {
        DateSpec::DaysBefore(n) => day_shift_fits(base.0, n, false),
        DateSpec::DaysAfter(n) => day_shift_fits(base.0, n, true),
        _ => true,
    }
}

/// `d` resolved against the reference time `base` (seconds, nanoseconds).
pub open spec fn spec_resolve(d: DateSpec, base: (i64, i64)) -> DateValue {
    match d {
        DateSpec::Now => DateValue::Instant(base.0, base.1),
        DateSpec::DaysBefore(n) => DateValue::Instant((base.0 - n * SECONDS_PER_DAY) as i64, 0),
        DateSpec::DaysAfter(n) => DateValue::Instant((base.0 + n * SECONDS_PER_DAY) as i64, 0),
        DateSpec::Epoch(sec, nsec) => DateValue::Instant(sec, nsec),
        DateSpec::Local(c, nsec) => DateValue::Local(c, nsec),
    }
}

/// Resolves the relative forms of `d` against the reference time `base`.
pub fn resolve_date(d: DateSpec, base: (i64, i64)) -> (r: DateValue)
    requires
        resolve_fits(d, base),
    ensures
        r == spec_resolve(d, base),
{
    match d {
        DateSpec::Now => DateValue::Instant(base.0, base.1),
        DateSpec::DaysBefore(n) => DateValue::Instant(base.0 - n * SECONDS_PER_DAY, 0),
        DateSpec::DaysAfter(n) => DateValue::Instant(base.0 + n * SECONDS_PER_DAY, 0),
        DateSpec::Epoch(sec, nsec) => DateValue::Instant(sec, nsec),
        DateSpec::Local(c, nsec) => DateValue::Local(c, nsec),
    }
}

/// Reads a `-d` date string and resolves its relative forms against the
/// reference time `base`: `now` is `base`, `N days` is N times 86400 seconds
/// after it and `N days ago` as many before it, at a whole second.
pub fn parse_date_string_with_base(s: &str, base: (i64, i64)) -> (r: Result<DateValue, DateError>)
    requires
        !date_splits_char(s.spec_bytes()),
        spec_parse_date(s.spec_bytes()) matches Some(d) ==> resolve_fits(d, base),
    ensures
        r == (match spec_parse_date(s.spec_bytes()) {
            Some(d) => Ok(spec_resolve(d, base)),
            None => Err(DateError::InvalidDate),
        }),
{
    match parse_date_string(s) {
        Ok(d) => Ok(resolve_date(d, base)),
        Err(e) => Err(e),
    }
}

/// A `-t` stamp: the year when it was given, and the other fields.
#[derive(Clone, Copy, Debug, PartialEq, Eq, Structural)]
pub struct TouchStamp {
    /// `None` for the `MMDDhhmm` form, which means the current year.
    pub year: Option<i32>,
    pub month: u32,
    pub day: u32,
    pub hour: u32,
    pub minute: u32,
    pub second: u32,
}

/// The index of the last `c` in `s` before position `j`, if any.
pub open spec fn last_index_before(s: Seq<u8>, c: u8, j: int) -> Option<int>
    decreases j,
{
    if j <= 0 || j > s.len() {
        None
    } else if s[j - 1] == c {
        Some(j - 1)
    } else {
        last_index_before(s, c, j - 1)
    }
}

/// The stamp split at its last `.`: the main part and the seconds, which
/// must be two bytes reading as at most 60; without a `.` the seconds are 0.
pub open spec fn stamp_split(b: Seq<u8>) -> Option<(Seq<u8>, u32)> {
    match last_index_before(b, 46, b.len() as int) {
        Some(d) => {
            let ss = tail(b, d + 1);
            if ss.len() != 2 {
                None
            } else {
                match spec_parse_u32(ss) {
                    Some(v) => if v > 60 { None } else { Some((b.subrange(0, d), v)) },
                    None => None,
                }
            }
        },
        None => Some((b, 0u32)),
    }
}

/// The `u32` read from bytes `a` to `e` of `m`.
pub open spec fn u32_at(m: Seq<u8>, a: int, e: int) -> Option<u32> {
    spec_parse_u32(m.subrange(a, e))
}

/// A two-digit year: 69 to 99 are in the 1900s, the others in the 2000s.
pub open spec fn century_year(yy: i32) -> i32 {
    if yy >= 69 { (1900 + yy) as i32 } else { (2000 + yy) as i32 }
}

/// Month, day, hour and minute read from `m` starting at byte `k`, two bytes each.
pub open spec fn mdhm_at(m: Seq<u8>, k: int) -> Option<(u32, u32, u32, u32)> {
    match (u32_at(m, k, k + 2), u32_at(m, k + 2, k + 4), u32_at(m, k + 4, k + 6), u32_at(m, k + 6, k + 8)) {
        (Some(mo), Some(d), Some(h), Some(mi)) => Some((mo, d, h, mi)),
        _ => None,
    }
}

/// The fields of the main part `[[CC]YY]MMDDhhmm` of a stamp.
pub open spec fn stamp_fields(m: Seq<u8>) -> Option<(Option<i32>, (u32, u32, u32, u32))> {
    if m.len() == 8 {
        match mdhm_at(m, 0) {
            Some(f) => Some((None, f)),
            None => None,
        }
    } else if m.len() == 10 {
        match (spec_parse_i32(m.subrange(0, 2)), mdhm_at(m, 2)) {
            (Some(yy), Some(f)) => Some((Some(century_year(yy)), f)),
            _ => None,
        }
    } else if m.len() == 12 {
        match (spec_parse_i32(m.subrange(0, 4)), mdhm_at(m, 4)) {
            (Some(y), Some(f)) => Some((Some(y), f)),
            _ => None,
        }
    } else {
        None
    }
}

/// What the `-t` stamp with bytes `b` denotes, or `None` if it is invalid.
pub open spec fn spec_parse_stamp(b: Seq<u8>) -> Option<TouchStamp> {
    match stamp_split(b) {
        Some((m, sec)) => match stamp_fields(m) {
            Some((year, (mo, d, h, mi))) => if 1 <= mo <= 12 && 1 <= d <= 31 && h <= 23 && mi <= 59 {
                Some(TouchStamp { year, month: mo, day: d, hour: h, minute: mi, second: sec })
            } else {
                None
            },
            None => None,
        },
        None => None,
    }
}

/// Whether cutting `m` at byte `p` would cut a character in two.
pub open spec fn cut_bad(m: Seq<u8>, p: int) -> bool {
    p < m.len() && is_continuation(m[p])
}

/// Whether reading the two-byte fields of `m` from byte `k` on, field by
/// field, reaches a cut inside a character before a field fails to read.
pub open spec fn mdhm_splits_char(m: Seq<u8>, k: int) -> bool {
    cut_bad(m, k + 2) || (u32_at(m, k, k + 2) is Some && (cut_bad(m, k + 4) || (u32_at(m, k + 2, k + 4) is Some
        && (cut_bad(m, k + 6) || (u32_at(m, k + 4, k + 6) is Some && cut_bad(m, k + 8))))))
}

/// Whether reading the stamp with bytes `b` would cut a character in two.
pub open spec fn stamp_splits_char(b: Seq<u8>) -> bool {
    match stamp_split(b) {
        Some((m, _)) => if m.len() == 8 {
            mdhm_splits_char(m, 0)
        } else if m.len() == 10 {
            cut_bad(m, 2) || (spec_parse_i32(m.subrange(0, 2)) is Some && mdhm_splits_char(m, 2))
        } else if m.len() == 12 {
            cut_bad(m, 4) || (spec_parse_i32(m.subrange(0, 4)) is Some && mdhm_splits_char(m, 4))
        } else {
            false
        },
        None => false,
    }
}

fn last_index_of(s: &[u8], c: u8) -> (r: Option<usize>)
    ensures
        r matches Some(i) ==> i < s.len() && last_index_before(s@, c, s@.len() as int) == Some(i as int),
        r is None ==> last_index_before(s@, c, s@.len() as int) is None,
{
    let mut j: usize = s.len();
    while j > 0
        invariant
            j <= s.len(),
            last_index_before(s@, c, s@.len() as int) == last_index_before(s@, c, j as int),
        decreases j,
    {
        if s[j - 1] == c {
            return Some(j - 1);
        }
        j = j - 1;
    }
    None
}

/// A signed number of at most two bytes lies between -99 and 99.
proof fn lemma_two_byte_int(t: Seq<u8>)
    requires
        t.len() <= 2,
    ensures
        spec_parse_int(t) matches Some(v) ==> -99 <= v <= 99,
{
    let body = signed_body(t);
    if body.len() > 0 && all_digits(body) {
        assert(is_digit(body[0]));
        assert(is_digit(body.last()));
        if body.len() == 1 {
            assert(digits_value(body.drop_last()) == 0);
        } else {
            let first = body.drop_last();
            assert(first.last() == body[0]);
            assert(digits_value(first.drop_last()) == 0);
            assert(digits_value(first) <= 9);
        }
        assert(digits_value(body) <= 99);
    }
}

fn mdhm_exec(m: &[u8], k: usize) -> (r: Option<(u32, u32, u32, u32)>)
    requires
        k + 8 == m.len(),
    ensures
        r == mdhm_at(m@, k as int),
{
    let mo = parse_u32(&m[k..k + 2]);
    let d = parse_u32(&m[k + 2..k + 4]);
    let h = parse_u32(&m[k + 4..k + 6]);
    let mi = parse_u32(&m[k + 6..k + 8]);
    match (mo, d, h, mi) {
        (Some(mo), Some(d), Some(h), Some(mi)) => Some((mo, d, h, mi)),
        _ => None,
    }
}

/// Reads a `-t` stamp `[[CC]YY]MMDDhhmm[.ss]`. With two year digits, 69 to
/// 99 mean 1969 to 1999 and the others 2000 to 2068; without a year the
/// current year is meant. The seconds are at most 60 and the other fields
/// must be a month, a day of 1 to 31, an hour and a minute.
pub fn parse_touch_timestamp(s: &str) -> (r: Result<TouchStamp, DateError>)
    requires
        !stamp_splits_char(s.spec_bytes()),
    ensures
        r == (match spec_parse_stamp(s.spec_bytes()) {
            Some(t) => Ok(t),
            None => Err(DateError::InvalidFormat),
        }),
        r matches Ok(t) ==> 1 <= t.month <= 12 && 1 <= t.day <= 31 && t.hour <= 23 && t.minute <= 59
            && t.second <= 60,
{
    let b = s.as_bytes();
    let (m, sec): (&[u8], u32) = match last_index_of(b, 46u8) {
        Some(d) => {
            let ss = &b[d + 1..b.len()];
            assert(ss@ =~= tail(b@, d + 1));
            if ss.len() != 2 {
                return Err(DateError::InvalidFormat);
            }
            match parse_u32(ss) {
                Some(v) => {
                    if v > 60 {
                        return Err(DateError::InvalidFormat);
                    }
                    (&b[0..d], v)
                },
                None => {
                    return Err(DateError::InvalidFormat);
                },
            }
        },
        None => (b, 0u32),
    };
    assert(stamp_split(b@) == Some((m@, sec)));
    let fields: Option<(Option<i32>, (u32, u32, u32, u32))> = if m.len() == 8 {
        match mdhm_exec(m, 0) {
            Some(f) => Some((None, f)),
            None => None,
        }
    } else if m.len() == 10 {
        match (parse_i32(&m[0..2]), mdhm_exec(m, 2)) {
            (Some(yy), Some(f)) => {
                proof { lemma_two_byte_int(m@.subrange(0, 2)); }
                let year: i32 = if yy >= 69 { 1900 + yy } else { 2000 + yy };
                Some((Some(year), f))
            },
            _ => None,
        }
    } else if m.len() == 12 {
        match (parse_i32(&m[0..4]), mdhm_exec(m, 4)) {
            (Some(y), Some(f)) => Some((Some(y), f)),
            _ => None,
        }
    } else {
        None
    };
    match fields {
        Some((year, (mo, d, h, mi))) => {
            if 1 <= mo && mo <= 12 && 1 <= d && d <= 31 && h <= 23 && mi <= 59 {
                Ok(TouchStamp { year, month: mo, day: d, hour: h, minute: mi, second: sec })
            } else {
                Err(DateError::InvalidFormat)
            }
        },
        None => Err(DateError::InvalidFormat),
    }
}

/// Text that starts with `@` and ends with a digit has no white space to trim.
proof fn lemma_trim_at_sign_digits(s: Seq<u8>)
    requires
        s.len() >= 2,
        s[0] == 64,
        is_digit(s.last()),
        forall|i: int| 1 <= i < s.len() ==> is_digit(#[trigger] s[i]) || s[i] == 45,
    ensures
        trim(s) == s,
{
    assert(ws_len_at(s, 0) == 0);
    assert(leading_ws(s, 0) == 0);
    assert(trim_start(s) =~= s);
    let n = s.len() as int;
    assert(ws_len_at(s, n - 1) == 0);
    if n >= 3 {
        assert(is_digit(s[n - 2]) || s[n - 2] == 45);
    }
    if n >= 4 {
        assert(is_digit(s[n - 3]) || s[n - 3] == 45);
    }
    assert(ws_len_before(s, n) == 0);
    assert(trailing_end(s, n) == n);
    assert(s.subrange(0, n) =~= s);
}

/// Text starting with `@` and ending in a digit is neither a word nor a
/// relative form.
proof fn lemma_not_word_or_relative(t: Seq<u8>)
    requires
        t.len() >= 2,
        t[0] == 64,
        is_digit(t.last()),
    ensures
        !eq_ignore_ascii_case(t, word_now()),
        !eq_ignore_ascii_case(t, word_yesterday()),
        !eq_ignore_ascii_case(t, word_tomorrow()),
        relative_days(t) is None,
{
    assert(ascii_lower(t[0]) == 64);
    assert(!eq_ignore_ascii_case(t, word_now())) by {
        if t.len() == 3 { assert(ascii_lower(word_now()[0]) != 64); }
    }
    assert(!eq_ignore_ascii_case(t, word_yesterday())) by {
        if t.len() == 9 { assert(ascii_lower(word_yesterday()[0]) != 64); }
    }
    assert(!eq_ignore_ascii_case(t, word_tomorrow())) by {
        if t.len() == 8 { assert(ascii_lower(word_tomorrow()[0]) != 64); }
    }
    let l = t.len() as int;
    assert(!ends_with(t, suffix_ago())) by {
        if t.len() >= 4 { assert(t.subrange(l - 4, l)[3] == t[l - 1]); }
    }
    assert(!ends_with(t, suffix_days())) by {
        if t.len() >= 5 { assert(t.subrange(l - 5, l)[4] == t[l - 1]); }
    }
    assert(!ends_with(t, suffix_day())) by {
        if t.len() >= 4 { assert(t.subrange(l - 4, l)[3] == t[l - 1]); }
    }
}

/// The signed decimal rendering of `n` reads as `n` seconds after `@`.
proof fn lemma_epoch_of_decimal(n: i64)
    ensures
        spec_epoch(signed_decimal(n as int)) == Some(DateSpec::Epoch(n, 0)),
        !epoch_splits_char(signed_decimal(n as int)),
{
    let d = signed_decimal(n as int);
    lemma_signed_decimal_roundtrip(n as int);
    lemma_first_index_from(d, 46, 0);
    if first_index_from(d, 46, 0) is Some {
        let p = first_index_from(d, 46, 0)->0;
        assert(d[p] == 46);
        assert(is_digit(d[p]) || (p == 0 && d[p] == 45));
    }
    assert(spec_parse_i64(d) == Some(n));
}

/// A byte of a numeric date or time: a digit, `-`, `:` or `.`.
pub open spec fn date_byte(b: u8) -> bool {
    is_digit(b) || b == 45 || b == 58 || b == 46
}

/// Text that starts and ends with a digit and is made of date bytes is its
/// own trimmed form, and none of the words or relative forms.
proof fn lemma_numeric_text(s: Seq<u8>)
    requires
        s.len() >= 12,
        forall|i: int| 0 <= i < s.len() ==> date_byte(#[trigger] s[i]) || s[i] == 84 || s[i] == 32,
        is_digit(s[0]),
        is_digit(s[s.len() - 1]),
    ensures
        trim(s) == s,
        !eq_ignore_ascii_case(s, word_now()),
        !eq_ignore_ascii_case(s, word_yesterday()),
        !eq_ignore_ascii_case(s, word_tomorrow()),
        relative_days(s) is None,
        s[0] != 64,
{
    let n = s.len() as int;
    assert(ws_len_at(s, 0) == 0);
    assert(leading_ws(s, 0) == 0);
    assert(trim_start(s) =~= s);
    assert(ws_len_before(s, n) == 0);
    assert(trailing_end(s, n) == n);
    assert(trim(s) =~= s);
    assert(!ends_with(s, suffix_ago())) by {
        if ends_with(s, suffix_ago()) {
            assert(s.subrange(n - 4, n)[3] == s[n - 1]);
        }
    }
    assert(!ends_with(s, suffix_days())) by {
        if ends_with(s, suffix_days()) {
            assert(s.subrange(n - 5, n)[4] == s[n - 1]);
        }
    }
    assert(!ends_with(s, suffix_day())) by {
        if ends_with(s, suffix_day()) {
            assert(s.subrange(n - 4, n)[3] == s[n - 1]);
        }
    }
}

/// A date and a time joined by `T` read the same as when joined by a space.
pub proof fn lemma_t_separator(d: Seq<u8>, tm: Seq<u8>)
    requires
        d.len() == 10,
        tm.len() >= 1,
        forall|i: int| 0 <= i < d.len() ==> date_byte(#[trigger] d[i]),
        forall|i: int| 0 <= i < tm.len() ==> date_byte(#[trigger] tm[i]),
        is_digit(d[0]),
        is_digit(tm[tm.len() - 1]),
    ensures
        spec_parse_date(d + seq![84u8] + tm) == spec_parse_date(d + seq![32u8] + tm),
        date_splits_char(d + seq![84u8] + tm) == date_splits_char(d + seq![32u8] + tm),
{
    let a = d + seq![84u8] + tm;
    let b = d + seq![32u8] + tm;
    assert forall|i: int| 0 <= i < a.len() implies date_byte(#[trigger] a[i]) || a[i] == 84 || a[i] == 32 by {
        if i < 10 {
            assert(a[i] == d[i]);
        } else if i > 10 {
            assert(a[i] == tm[i - 11]);
        }
    }
    assert forall|i: int| 0 <= i < b.len() implies date_byte(#[trigger] b[i]) || b[i] == 84 || b[i] == 32 by {
        if i < 10 {
            assert(b[i] == d[i]);
        } else if i > 10 {
            assert(b[i] == tm[i - 11]);
        }
    }
    assert(a[0] == d[0] && b[0] == d[0]);
    assert(a[a.len() - 1] == tm[tm.len() - 1] && b[b.len() - 1] == tm[tm.len() - 1]);
    lemma_numeric_text(a);
    lemma_numeric_text(b);
    assert(t_to_space(a) =~= t_to_space(b)) by {
        assert forall|i: int| 0 <= i < a.len() implies t_to_space(a)[i] == t_to_space(b)[i] by {
            if i < 10 {
                assert(a[i] == d[i] && b[i] == d[i]);
            } else if i > 10 {
                assert(a[i] == tm[i - 11] && b[i] == tm[i - 11]);
            }
        }
    }
    assert(iso_parts(a) == iso_parts(b));
}

proof fn lemma_first_index_at(s: Seq<u8>, c: u8, i: int, p: int)
    requires
        0 <= i <= p < s.len(),
        s[p] == c,
        forall|k: int| i <= k < p ==> s[k] != c,
    ensures
        first_index_from(s, c, i) == Some(p),
    decreases p - i,
{
    if i < p {
        lemma_first_index_at(s, c, i + 1, p);
    }
}

proof fn lemma_first_index_none(s: Seq<u8>, c: u8, i: int)
    requires
        0 <= i,
        forall|k: int| i <= k < s.len() ==> s[k] != c,
    ensures
        first_index_from(s, c, i) is None,
    decreases s.len() - i,
{
    if i < s.len() {
        lemma_first_index_none(s, c, i + 1);
    }
}

/// A date read from a stamp: the local time of a `Local` date without a
/// fraction of a second, with its year given.
pub open spec fn stamp_of_date(d: Option<DateSpec>) -> Option<TouchStamp> {
    match d {
        Some(DateSpec::Local(c, ns)) => if ns == 0 {
            Some(TouchStamp { year: Some(c.year), month: c.month, day: c.day, hour: c.hour, minute: c.minute, second: c.second })
        } else {
            None
        },
        _ => None,
    }
}

/// The stamp `CCYYMMDDhhmm.ss` reads as the date `CCYY-MM-DD hh:mm:ss`: both
/// are refused, or both give the same fields, the date with no fraction.
pub proof fn lemma_stamp_matches_date(y: Seq<u8>, mo: Seq<u8>, d: Seq<u8>, h: Seq<u8>, mi: Seq<u8>, se: Seq<u8>)
    requires
        y.len() == 4 && mo.len() == 2 && d.len() == 2 && h.len() == 2 && mi.len() == 2 && se.len() == 2,
        all_digits(y) && all_digits(mo) && all_digits(d) && all_digits(h) && all_digits(mi) && all_digits(se),
    ensures
        spec_parse_stamp(y + mo + d + h + mi + seq![46u8] + se) == stamp_of_date(
            spec_parse_date(y + seq![45u8] + mo + seq![45u8] + d + seq![32u8] + h + seq![58u8] + mi + seq![58u8] + se),
        ),
        spec_parse_stamp(y + mo + d + h + mi + seq![46u8] + se) is None <==> spec_parse_date(
            y + seq![45u8] + mo + seq![45u8] + d + seq![32u8] + h + seq![58u8] + mi + seq![58u8] + se,
        ) is None,
{
    let st = y + mo + d + h + mi + seq![46u8] + se;
    let iso = y + seq![45u8] + mo + seq![45u8] + d + seq![32u8] + h + seq![58u8] + mi + seq![58u8] + se;
    // The stamp side.
    assert(st.len() == 15);
    assert(st[12] == 46);
    assert(is_digit(se[0]) && is_digit(se[1]));
    assert(st[13] == se[0] && st[14] == se[1]);
    assert(last_index_before(st, 46, 15) == Some(12int)) by {
        reveal_with_fuel(last_index_before, 4);
    }
    assert(tail(st, 13) =~= se);
    let m = st.subrange(0, 12);
    assert(m.subrange(0, 4) =~= y);
    assert(m.subrange(4, 6) =~= mo);
    assert(m.subrange(6, 8) =~= d);
    assert(m.subrange(8, 10) =~= h);
    assert(m.subrange(10, 12) =~= mi);
    // The date side.
    assert(iso.len() == 19);
    assert forall|i: int| 0 <= i < iso.len() implies date_byte(#[trigger] iso[i]) || iso[i] == 84 || iso[i] == 32 by {
        if i < 4 {
            assert(iso[i] == y[i]);
        } else if 5 <= i < 7 {
            assert(iso[i] == mo[i - 5]);
        } else if 8 <= i < 10 {
            assert(iso[i] == d[i - 8]);
        } else if 11 <= i < 13 {
            assert(iso[i] == h[i - 11]);
        } else if 14 <= i < 16 {
            assert(iso[i] == mi[i - 14]);
        } else if 17 <= i < 19 {
            assert(iso[i] == se[i - 17]);
        }
    }
    assert(iso[0] == y[0]);
    assert(iso[18] == se[1]);
    lemma_numeric_text(iso);
    assert(t_to_space(iso) =~= iso) by {
        assert forall|i: int| 0 <= i < iso.len() implies t_to_space(iso)[i] == iso[i] by {
            assert(iso[i] != 84);
        }
    }
    lemma_first_index_at(iso, 32, 0, 10);
    let dp = iso.subrange(0, 10);
    let tp = tail(iso, 11);
    assert(iso_parts(iso) == (dp, Some(tp)));
    assert(dp.subrange(0, 4) =~= y);
    assert(dp.subrange(5, 7) =~= mo);
    assert(tail(dp, 8) =~= d);
    lemma_first_index_at(dp, 45, 0, 4);
    lemma_first_index_at(dp, 45, 5, 7);
    lemma_first_index_none(dp, 45, 8);
    assert(date_dashes(dp) == Some((4int, 7int)));
    assert(tp =~= h + seq![58u8] + mi + seq![58u8] + se);
    assert(tp.len() == 8);
    assert forall|i: int| 0 <= i < tp.len() implies date_byte(#[trigger] tp[i]) by {
        assert(tp[i] == iso[i + 11]);
        assert(iso[i + 11] != 84 && iso[i + 11] != 32);
    }
    assert(trim(tp) == tp) by {
        assert(ws_len_at(tp, 0) == 0);
        assert(leading_ws(tp, 0) == 0);
        assert(trim_start(tp) =~= tp);
        assert(ws_len_before(tp, 8) == 0);
        assert(trailing_end(tp, 8) == 8);
        assert(trim(tp) =~= tp);
    }
    lemma_first_index_none(tp, 46, 0);
    lemma_first_index_at(tp, 58, 0, 2);
    lemma_first_index_at(tp, 58, 3, 5);
    lemma_first_index_none(tp, 58, 6);
    assert(tp.subrange(0, 2) =~= h);
    assert(tp.subrange(3, 5) =~= mi);
    assert(tail(tp, 6) =~= se);
}

/// Every 64-bit number written as `@N` reads back as that many seconds since
/// the epoch, with no fraction.
pub proof fn lemma_epoch_roundtrip(n: i64)
    ensures
        spec_parse_date(seq![64u8] + signed_decimal(n as int)) == Some(DateSpec::Epoch(n, 0)),
        !date_splits_char(seq![64u8] + signed_decimal(n as int)),
{
    let d = signed_decimal(n as int);
    lemma_signed_decimal_roundtrip(n as int);
    let s = seq![64u8] + d;
    assert(s.last() == d.last());
    assert forall|i: int| 1 <= i < s.len() implies is_digit(#[trigger] s[i]) || s[i] == 45 by {
        assert(s[i] == d[i - 1]);
    }
    lemma_trim_at_sign_digits(s);
    lemma_not_word_or_relative(s);
    assert(s.drop_first() =~= d);
    lemma_epoch_of_decimal(n);
}

} // verus!
