//! How long the system has been up, as text: the short form of the default
//! report (`2 days,  3:04`), the `--pretty` form (`up 2 days, 3 hours,
//! 4 minutes`) and the `--since` timestamp.

use vstd::prelude::*;
use crate::decimal::{decimal, u64_to_decimal};
use crate::seq::{zero_pad_int, zero_padded};
use crate::sum::{pad_left, pad_left_bytes};

verus! {

/// Whole days in `t` seconds.
pub open spec fn days_of(t: u64) -> u64 {
    t / 86400
}

/// Whole hours in `t` seconds beyond the whole days.
pub open spec fn hours_of(t: u64) -> u64 {
    (t % 86400) / 3600
}

/// Whole minutes in `t` seconds beyond the whole hours.
pub open spec fn minutes_of(t: u64) -> u64 {
    (t % 3600) / 60
}

/// `s` when `n` is not 1, else nothing.
pub open spec fn plural(n: u64) -> Seq<u8> {
    if n != 1 { seq![115u8] } else { Seq::<u8>::empty() }
}

/// `N day` or `N days`.
pub open spec fn days_text(d: u64) -> Seq<u8> {
    decimal(d as nat) + seq![32u8, 100, 97, 121] + plural(d)
}

/// `H:MM`, the hours right-aligned in two columns.
pub open spec fn clock_text(h: u64, m: u64) -> Seq<u8> {
    pad_left(decimal(h as nat), 2, 32) + seq![58u8] + pad_left(decimal(m as nat), 2, 48)
}

/// The uptime as the default report shows it: days, then hours and
/// minutes as `H:MM` when either is not zero; `H:MM` alone under a day;
/// `M min` under an hour.
pub open spec fn spec_format_uptime(t: u64) -> Seq<u8> {
    let d = days_of(t);
    let h = hours_of(t);
    let m = minutes_of(t);
    if d > 0 {
        if h > 0 || m > 0 {
            days_text(d) + seq![44u8, 32] + clock_text(h, m)
        } else {
            days_text(d)
        }
    } else if h > 0 {
        clock_text(h, m)
    } else {
        decimal(m as nat) + seq![32u8, 109, 105, 110]
    }
}

fn push_all(out: &mut Vec<u8>, s: &[u8])
    ensures
        final(out)@ == old(out)@ + s@,
{
    out.extend_from_slice(s);
}

fn plural_exec(out: &mut Vec<u8>, n: u64)
    ensures
        final(out)@ == old(out)@ + plural(n),
{
    if n != 1 {
        out.push(115u8);
    } else {
        assert(old(out)@ + plural(n) =~= old(out)@);
    }
}

fn days_exec(out: &mut Vec<u8>, d: u64)
    ensures
        final(out)@ == old(out)@ + days_text(d),
{
    let ghost before = out@;
    let s = u64_to_decimal(d);
    push_all(out, s.as_slice());
    let w: [u8; 4] = [32, 100, 97, 121];
    push_all(out, &w);
    plural_exec(out, d);
    assert(out@ =~= before + days_text(d));
}

fn clock_exec(out: &mut Vec<u8>, h: u64, m: u64)
    ensures
        final(out)@ == old(out)@ + clock_text(h, m),
{
    let ghost before = out@;
    let hs = u64_to_decimal(h);
    let hp = pad_left_bytes(hs.as_slice(), 2, 32u8);
    push_all(out, hp.as_slice());
    out.push(58u8);
    let ms = u64_to_decimal(m);
    let mp = pad_left_bytes(ms.as_slice(), 2, 48u8);
    push_all(out, mp.as_slice());
    assert(out@ =~= before + clock_text(h, m));
}

/// Writes the uptime `t` (in seconds) as the default report shows it.
pub fn format_uptime(t: u64) -> (r: Vec<u8>)
    ensures
        r@ == spec_format_uptime(t),
{
    let d = t / 86400;
    let h = (t % 86400) / 3600;
    let m = (t % 3600) / 60;
    let mut out: Vec<u8> = Vec::new();
    if d > 0 {
        days_exec(&mut out, d);
        if h > 0 || m > 0 {
            let sep: [u8; 2] = [44, 32];
            push_all(&mut out, &sep);
            clock_exec(&mut out, h, m);
        }
    } else if h > 0 {
        clock_exec(&mut out, h, m);
    } else {
        let s = u64_to_decimal(m);
        push_all(&mut out, s.as_slice());
        let w: [u8; 4] = [32, 109, 105, 110];
        push_all(&mut out, &w);
    }
    assert(out@ =~= spec_format_uptime(t));
    out
}

/// The parts of the `--pretty` form that are not zero.
pub open spec fn pretty_parts(t: u64) -> Seq<Seq<u8>> {
    let d = days_of(t);
    let h = hours_of(t);
    let m = minutes_of(t);
    (if d > 0 { seq![days_text(d)] } else { Seq::empty() })
        + (if h > 0 { seq![decimal(h as nat) + seq![32u8, 104, 111, 117, 114] + plural(h)] } else { Seq::empty() })
        + (if m > 0 {
        seq![decimal(m as nat) + seq![32u8, 109, 105, 110, 117, 116, 101] + plural(m)]
    } else {
        Seq::empty()
    })
}

/// Parts joined with `, `.
pub open spec fn joined(parts: Seq<Seq<u8>>) -> Seq<u8>
    decreases parts.len(),
{
    if parts.len() == 0 {
        Seq::empty()
    } else if parts.len() == 1 {
        parts[0]
    } else {
        joined(parts.drop_last()) + seq![44u8, 32] + parts.last()
    }
}

/// The `--pretty` line: `up ` and the parts joined with `, `, or
/// `up 0 minutes` when they are all zero; then a newline.
pub open spec fn spec_pretty(t: u64) -> Seq<u8> {
    let parts = pretty_parts(t);
    if parts.len() == 0 {
        seq![117u8, 112, 32, 48, 32, 109, 105, 110, 117, 116, 101, 115, 10]
    } else {
        seq![117u8, 112, 32] + joined(parts) + seq![10u8]
    }
}

/// Writes the `--pretty` line for an uptime of `t` seconds.
pub fn print_pretty(t: u64) -> (r: Vec<u8>)
    ensures
        r@ == spec_pretty(t),
{
    let d = t / 86400;
    let h = (t % 86400) / 3600;
    let m = (t % 3600) / 60;
    let mut parts: Vec<Vec<u8>> = Vec::new();
    if d > 0 {
        let mut p: Vec<u8> = Vec::new();
        days_exec(&mut p, d);
        assert(p@ =~= days_text(d));
        parts.push(p);
    }
    if h > 0 {
        let mut p: Vec<u8> = Vec::new();
        let s = u64_to_decimal(h);
        push_all(&mut p, s.as_slice());
        let w: [u8; 5] = [32, 104, 111, 117, 114];
        push_all(&mut p, &w);
        plural_exec(&mut p, h);
        parts.push(p);
    }
    if m > 0 {
        let mut p: Vec<u8> = Vec::new();
        let s = u64_to_decimal(m);
        push_all(&mut p, s.as_slice());
        let w: [u8; 7] = [32, 109, 105, 110, 117, 116, 101];
        push_all(&mut p, &w);
        plural_exec(&mut p, m);
        parts.push(p);
    }
    let ghost views = Seq::new(parts@.len(), |i: int| parts@[i]@);
    assert(views =~= pretty_parts(t));
    if parts.len() == 0 {
        let line: [u8; 13] = [117, 112, 32, 48, 32, 109, 105, 110, 117, 116, 101, 115, 10];
        let mut out: Vec<u8> = Vec::new();
        push_all(&mut out, &line);
        assert(out@ =~= spec_pretty(t));
        return out;
    }
    let mut out: Vec<u8> = Vec::new();
    let up: [u8; 3] = [117, 112, 32];
    push_all(&mut out, &up);
    let mut i: usize = 0;
    while i < parts.len()
        invariant
            i <= parts@.len(),
            views.len() == parts@.len(),
            forall|k: int| 0 <= k < parts@.len() ==> views[k] == (#[trigger] parts@[k])@,
            out@ == seq![117u8, 112, 32] + joined(views.subrange(0, i as int)),
        decreases parts.len() - i,
    {
        if i > 0 {
            out.push(44u8);
            out.push(32u8);
        }
        push_all(&mut out, parts[i].as_slice());
        proof {
            let s = views.subrange(0, i + 1);
            assert(s.drop_last() =~= views.subrange(0, i as int));
            assert(s.last() == parts@[i as int]@);
            if i == 0 {
                assert(joined(views.subrange(0, 0)) =~= Seq::<u8>::empty());
            }
            assert(out@ =~= seq![117u8, 112, 32] + joined(s));
        }
        i = i + 1;
    }
    out.push(10u8);
    assert(views.subrange(0, views.len() as int) =~= views);
    assert(out@ =~= spec_pretty(t));
    out
}

/// The `--since` line: `YYYY-MM-DD HH:MM:SS` with zero-padded fields, then a newline.
pub open spec fn spec_since(year: i64, month: i64, day: i64, hour: i64, minute: i64, second: i64) -> Seq<u8> {
    zero_padded(year as int, 4) + seq![45u8] + zero_padded(month as int, 2) + seq![45u8] + zero_padded(day as int, 2)
        + seq![32u8] + zero_padded(hour as int, 2) + seq![58u8] + zero_padded(minute as int, 2) + seq![58u8]
        + zero_padded(second as int, 2) + seq![10u8]
}

/// Writes the boot time as the `--since` line.
pub fn print_since(year: i64, month: i64, day: i64, hour: i64, minute: i64, second: i64) -> (r: Vec<u8>)
    ensures
        r@ == spec_since(year, month, day, hour, minute, second),
{
    let mut out: Vec<u8> = Vec::new();
    let y = zero_pad_int(year, 4);
    push_all(&mut out, y.as_slice());
    out.push(45u8);
    let mo = zero_pad_int(month, 2);
    push_all(&mut out, mo.as_slice());
    out.push(45u8);
    let d = zero_pad_int(day, 2);
    push_all(&mut out, d.as_slice());
    out.push(32u8);
    let h = zero_pad_int(hour, 2);
    push_all(&mut out, h.as_slice());
    out.push(58u8);
    let mi = zero_pad_int(minute, 2);
    push_all(&mut out, mi.as_slice());
    out.push(58u8);
    let s = zero_pad_int(second, 2);
    push_all(&mut out, s.as_slice());
    out.push(10u8);
    assert(out@ =~= spec_since(year, month, day, hour, minute, second));
    out
}

/// The start of the default report: ` HH:MM:SS up UPTIME,  N user(s),  load average: `
/// (the load averages follow).
pub open spec fn spec_default_prefix(hour: i64, minute: i64, second: i64, t: u64, users: u64) -> Seq<u8> {
    seq![32u8] + zero_padded(hour as int, 2) + seq![58u8] + zero_padded(minute as int, 2) + seq![58u8]
        + zero_padded(second as int, 2) + seq![32u8, 117, 112, 32] + spec_format_uptime(t) + seq![44u8, 32, 32]
        + decimal(users as nat) + (if users == 1 { seq![32u8, 117, 115, 101, 114] } else {
        seq![32u8, 117, 115, 101, 114, 115]
    }) + seq![44u8, 32, 32, 108, 111, 97, 100, 32, 97, 118, 101, 114, 97, 103, 101, 58, 32]
}

/// Writes the start of the default report, up to the load averages.
pub fn default_prefix(hour: i64, minute: i64, second: i64, t: u64, users: u64) -> (r: Vec<u8>)
    ensures
        r@ == spec_default_prefix(hour, minute, second, t, users),
{
    let mut out: Vec<u8> = Vec::new();
    out.push(32u8);
    let h = zero_pad_int(hour, 2);
    push_all(&mut out, h.as_slice());
    out.push(58u8);
    let mi = zero_pad_int(minute, 2);
    push_all(&mut out, mi.as_slice());
    out.push(58u8);
    let s = zero_pad_int(second, 2);
    push_all(&mut out, s.as_slice());
    let up: [u8; 4] = [32, 117, 112, 32];
    push_all(&mut out, &up);
    let u = format_uptime(t);
    push_all(&mut out, u.as_slice());
    let sep: [u8; 3] = [44, 32, 32];
    push_all(&mut out, &sep);
    let n = u64_to_decimal(users);
    push_all(&mut out, n.as_slice());
    if users == 1 {
        let w: [u8; 5] = [32, 117, 115, 101, 114];
        push_all(&mut out, &w);
    } else {
        let w: [u8; 6] = [32, 117, 115, 101, 114, 115];
        push_all(&mut out, &w);
    }
    let tail: [u8; 17] = [44, 32, 32, 108, 111, 97, 100, 32, 97, 118, 101, 114, 97, 103, 101, 58, 32];
    push_all(&mut out, &tail);
    assert(out@ =~= spec_default_prefix(hour, minute, second, t, users));
    out
}

/// The days, hours and minutes shown account for the whole uptime but its
/// last partial minute: hours are below 24 and minutes below 60.
pub proof fn lemma_uptime_parts(t: u64)
    ensures
        hours_of(t) < 24,
        minutes_of(t) < 60,
        0 <= t - (days_of(t) * 86400 + hours_of(t) * 3600 + minutes_of(t) * 60) < 60,
{
    let d = t / 86400;
    let r = t % 86400;
    assert(t == d * 86400 + r) by {
        vstd::arithmetic::div_mod::lemma_fundamental_div_mod(t as int, 86400);
    }
    let h = r / 3600;
    let r2 = r % 3600;
    assert(r == h * 3600 + r2) by {
        vstd::arithmetic::div_mod::lemma_fundamental_div_mod(r as int, 3600);
    }
    assert(t % 3600 == r2) by {
        assert(d * 86400 == (d * 24) * 3600) by (nonlinear_arith);
        vstd::arithmetic::div_mod::lemma_mod_multiples_vanish((d * 24) as int, r as int, 3600);
        assert(t as int == (d * 24) * 3600 + r);
    }
    let m = r2 / 60;
    assert(r2 == m * 60 + r2 % 60) by {
        vstd::arithmetic::div_mod::lemma_fundamental_div_mod(r2 as int, 60);
    }
}

/// The short form loses no whole minute: it is made of the days `d`, hours
/// `h < 24` and minutes `m < 60` that add up to the uptime rounded down to a
/// minute, showing the days when there is at least one, `H:MM` whenever the
/// hours or minutes are not both zero (after the days) or under a day with
/// at least an hour, and `M min` under an hour.
pub proof fn lemma_short_form_keeps_minutes(t: u64)
    ensures
        exists|d: u64, h: u64, m: u64| #![trigger days_text(d), clock_text(h, m)] {
            &&& d * 86400 + h * 3600 + m * 60 == t / 60 * 60
            &&& h < 24 && m < 60
            &&& spec_format_uptime(t) == if d > 0 && (h > 0 || m > 0) {
                days_text(d) + seq![44u8, 32] + clock_text(h, m)
            } else if d > 0 {
                days_text(d)
            } else if h > 0 {
                clock_text(h, m)
            } else {
                decimal(m as nat) + seq![32u8, 109, 105, 110]
            }
        },
{
    lemma_uptime_parts(t);
    let d = days_of(t);
    let h = hours_of(t);
    let m = minutes_of(t);
    let q = d * 1440 + h * 60 + m;
    assert(d * 86400 + h * 3600 + m * 60 == q * 60);
    assert(t / 60 == q) by {
        vstd::arithmetic::div_mod::lemma_fundamental_div_mod_converse(t as int, 60, q as int, t - q * 60);
    }
    assert(d * 86400 + h * 3600 + m * 60 == t / 60 * 60);
    assert(days_text(d) == days_text(d) && clock_text(h, m) == clock_text(h, m));
}

/// `H:MM` is five bytes: the hours' tens digit (a space under ten hours),
/// the hours' units digit, a colon, and the minutes as two digits.
pub proof fn lemma_clock_text_digits(h: u64, m: u64)
    requires
        h < 100,
        m < 60,
    ensures
        clock_text(h, m) == seq![
            if h < 10 { 32u8 } else { (48 + h / 10) as u8 },
            (48 + h % 10) as u8,
            58u8,
            (48 + m / 10) as u8,
            (48 + m % 10) as u8,
        ],
{
    reveal_with_fuel(decimal, 2);
    let hd = decimal(h as nat);
    let md = decimal(m as nat);
    if h < 10 {
        assert(hd == seq![(48 + h) as u8]);
        assert(pad_left(hd, 2, 32) =~= seq![32u8, (48 + h % 10) as u8]);
    } else {
        assert(decimal((h / 10) as nat) == seq![(48 + h / 10) as u8]);
        assert(hd =~= seq![(48 + h / 10) as u8, (48 + h % 10) as u8]);
        assert(pad_left(hd, 2, 32) == hd);
    }
    if m < 10 {
        assert(md == seq![(48 + m) as u8]);
        assert(pad_left(md, 2, 48) =~= seq![48u8, (48 + m % 10) as u8]);
    } else {
        assert(decimal((m / 10) as nat) == seq![(48 + m / 10) as u8]);
        assert(md =~= seq![(48 + m / 10) as u8, (48 + m % 10) as u8]);
        assert(pad_left(md, 2, 48) == md);
    }
    assert(clock_text(h, m) =~= seq![
        if h < 10 { 32u8 } else { (48 + h / 10) as u8 },
        (48 + h % 10) as u8,
        58u8,
        (48 + m / 10) as u8,
        (48 + m % 10) as u8,
    ]);
}

/// The `--pretty` parts lose no whole minute either: they name the days,
/// hours (`h < 24`) and minutes (`m < 60`) that add up to the uptime rounded
/// down to a minute, leaving out exactly those that are zero.
pub proof fn lemma_pretty_parts_keep_minutes(t: u64)
    ensures
        exists|d: u64, h: u64, m: u64| #![trigger days_text(d), plural(h), plural(m)] {
            &&& d * 86400 + h * 3600 + m * 60 == t / 60 * 60
            &&& h < 24 && m < 60
            &&& pretty_parts(t).len() == (if d > 0 { 1int } else { 0 }) + (if h > 0 { 1int } else { 0 }) + (if m > 0 { 1int } else { 0 })
            &&& d > 0 ==> pretty_parts(t)[0] == days_text(d)
            &&& h > 0 ==> pretty_parts(t)[if d > 0 { 1int } else { 0 }] == decimal(h as nat) + seq![32u8, 104, 111, 117, 114] + plural(h)
            &&& m > 0 ==> pretty_parts(t).last() == decimal(m as nat) + seq![32u8, 109, 105, 110, 117, 116, 101] + plural(m)
        },
{
    lemma_uptime_parts(t);
    let d = days_of(t);
    let h = hours_of(t);
    let m = minutes_of(t);
    let q = d * 1440 + h * 60 + m;
    assert(t / 60 == q) by {
        vstd::arithmetic::div_mod::lemma_fundamental_div_mod_converse(t as int, 60, q as int, t - q * 60);
    }
    assert(days_text(d) == days_text(d) && plural(h) == plural(h) && plural(m) == plural(m));
}

} // verus!
