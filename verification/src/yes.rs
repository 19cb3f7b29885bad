//! Repeated output: the line printed over and over (the arguments joined by
//! spaces, or `y`), the write buffer of whole copies of it, and the check of a
//! parent process's ignored-signal mask in a `/proc/PID/status` text.

use vstd::prelude::*;
use crate::bytes::{find_byte_from, first_index_from, lemma_first_index_from};
use crate::decimal::unsigned_body;
use crate::text::{trim, trim_bytes};

verus! {

/// The size that the write buffer fills at least.
pub const BUF_SIZE: usize = 8192;

/// The value of a hexadecimal digit, if `b` is one.
pub open spec fn hex_digit(b: u8) -> Option<nat> {
    if 48 <= b <= 57 {
        Some((b - 48) as nat)
    } else if 97 <= b <= 102 {
        Some((b - 87) as nat)
    } else if 65 <= b <= 70 {
        Some((b - 55) as nat)
    } else {
        None
    }
}

/// Whether every byte of `s` is a hexadecimal digit.
pub open spec fn all_hex(s: Seq<u8>) -> bool {
    forall|i: int| 0 <= i < s.len() ==> (#[trigger] hex_digit(s[i])) is Some
}

/// The value of hexadecimal digits, most significant first.
pub open spec fn hex_value(s: Seq<u8>) -> nat
    decreases s.len(),
{
    if s.len() == 0 {
        0
    } else {
        hex_value(s.drop_last()) * 16 + match hex_digit(s.last()) {
            Some(d) => d,
            None => 0,
        }
    }
}

/// What `u64::from_str_radix(s, 16)` gives: an optional `+`, then at least
/// one hexadecimal digit, with a value that fits.
pub open spec fn spec_parse_hex_u64(s: Seq<u8>) -> Option<u64> {
    let body = unsigned_body(s);
    if body.len() > 0 && all_hex(body) && hex_value(body) <= u64::MAX {
        Some(hex_value(body) as u64)
    } else {
        None
    }
}

/// Parses `s` as `u64::from_str_radix(s, 16)` does.
pub fn parse_hex_u64(s: &[u8]) -> (r: Option<u64>)
    ensures
        r == spec_parse_hex_u64(s@),
{
    let start: usize = if s.len() > 0 && s[0] == 43u8 { 1 } else { 0 };
    let ghost body = unsigned_body(s@);
    assert(body =~= s@.subrange(start as int, s@.len() as int));
    if start >= s.len() {
        return None;
    }
    let mut value: u64 = 0;
    let mut i: usize = start;
    while i < s.len()
        invariant
            start <= i <= s.len(),
            body == unsigned_body(s@),
            body =~= s@.subrange(start as int, s@.len() as int),
            all_hex(s@.subrange(start as int, i as int)),
            value as nat == hex_value(s@.subrange(start as int, i as int)),
        decreases s.len() - i,
    {
        let b = s[i];
        let d: u64 = if 48u8 <= b && b <= 57u8 {
            (b - 48u8) as u64
        } else if 97u8 <= b && b <= 102u8 {
            (b - 87u8) as u64
        } else if 65u8 <= b && b <= 70u8 {
            (b - 55u8) as u64
        } else {
            assert(body[i - start] == b);
            assert(hex_digit(body[i - start]) is None);
            return None;
        };
        let ghost prefix = s@.subrange(start as int, i as int);
        proof {
            assert(s@.subrange(start as int, i + 1) =~= prefix.push(b));
            assert(prefix.push(b).drop_last() =~= prefix);
        }
        if value > 0x0fff_ffff_ffff_ffffu64 {
            proof {
                lemma_hex_overflow_persists(s@, start as int, i + 1);
            }
            return None;
        }
        value = value * 16 + d;
        i = i + 1;
    }
    assert(s@.subrange(start as int, s@.len() as int) =~= body);
    Some(value)
}

proof fn lemma_hex_value_monotone(s: Seq<u8>, k: int)
    requires
        0 <= k <= s.len(),
    ensures
        hex_value(s.subrange(0, k)) <= hex_value(s),
    decreases s.len() - k,
{
    if k < s.len() {
        let t = s.drop_last();
        assert(t.subrange(0, k) =~= s.subrange(0, k));
        lemma_hex_value_monotone(t, k);
    } else {
        assert(s.subrange(0, k) =~= s);
    }
}

proof fn lemma_hex_overflow_persists(s: Seq<u8>, start: int, j: int)
    requires
        0 <= start < j <= s.len(),
        hex_value(s.subrange(start, j - 1)) > 0x0fff_ffff_ffff_ffff,
    ensures
        !(all_hex(s.subrange(start, s.len() as int)) && hex_value(s.subrange(start, s.len() as int)) <= u64::MAX),
{
    let full = s.subrange(start, s.len() as int);
    let p = s.subrange(start, j);
    assert(p.drop_last() =~= s.subrange(start, j - 1));
    assert(hex_value(p) >= hex_value(p.drop_last()) * 16);
    assert(full.subrange(0, j - start) =~= p);
    lemma_hex_value_monotone(full, j - start);
}

/// `SigIgn:` followed by a tab.
pub open spec fn sig_ign_prefix() -> Seq<u8> {
    seq![83u8, 105, 103, 73, 103, 110, 58, 9]
}

/// Whether bit 12 (signal 13, the broken-pipe signal) is set in `mask`.
pub open spec fn pipe_bit_set(mask: u64) -> bool {
    (mask as int / 4096) % 2 == 1
}

/// The decision for the status text `c` read from the line starting at
/// `from`: the first line that is `SigIgn:` and a tab, then a hexadecimal mask
/// (surrounding white space ignored), decides by its broken-pipe bit; without
/// such a line the signal is not ignored.
pub open spec fn status_ignores_pipe(c: Seq<u8>, from: int) -> bool
    decreases c.len() - from,
{
    if from < 0 || from >= c.len() {
        false
    } else {
        let end = match first_index_from(c, 10, from) {
            Some(p) => p,
            None => c.len() as int,
        };
        if end < from || end > c.len() {
            false
        } else {
            let line = c.subrange(from, end);
            let mask = if line.len() >= 8 && line.subrange(0, 8) == sig_ign_prefix() {
                spec_parse_hex_u64(trim(line.subrange(8, line.len() as int)))
            } else {
                None
            };
            match mask {
                Some(m) => pipe_bit_set(m),
                None => if end >= c.len() { false } else { status_ignores_pipe(c, end + 1) },
            }
        }
    }
}

fn starts_with_sig_ign(line: &[u8]) -> (r: bool)
    ensures
        r == (line@.len() >= 8 && line@.subrange(0, 8) == sig_ign_prefix()),
{
    let p: [u8; 8] = [83, 105, 103, 73, 103, 110, 58, 9];
    assert(p@ =~= sig_ign_prefix());
    if line.len() < 8 {
        return false;
    }
    let mut i: usize = 0;
    while i < 8
        invariant
            i <= 8 <= line.len(),
            p@ == sig_ign_prefix(),
            forall|k: int| 0 <= k < i ==> line@[k] == p@[k],
        decreases 8 - i,
    {
        if line[i] != p[i] {
            assert(line@.subrange(0, 8)[i as int] != sig_ign_prefix()[i as int]);
            return false;
        }
        i = i + 1;
    }
    assert(line@.subrange(0, 8) =~= sig_ign_prefix());
    true
}

/// Whether a process status text says the broken-pipe signal is ignored.
pub fn parent_ignores_sigpipe(content: &[u8]) -> (r: bool)
    ensures
        r == status_ignores_pipe(content@, 0),
{
    let mut from: usize = 0;
    while from < content.len()
        invariant
            from <= content.len(),
            status_ignores_pipe(content@, 0) == status_ignores_pipe(content@, from as int),
        decreases content.len() - from,
    {
        let end: usize = match find_byte_from(10u8, content, from) {
            Some(p) => p,
            None => content.len(),
        };
        let line = &content[from..end];
        let mut mask: Option<u64> = None;
        if starts_with_sig_ign(line) {
            let rest = &line[8..line.len()];
            assert(rest@ =~= line@.subrange(8, line@.len() as int));
            mask = parse_hex_u64(trim_bytes(rest));
        }
        match mask {
            Some(m) => {
                return (m / 4096) % 2 == 1;
            },
            None => {
                if end >= content.len() {
                    return false;
                }
                from = end + 1;
            },
        }
    }
    false
}

/// The line printed: the strings joined by single spaces, or `y`, then a newline.
pub open spec fn spec_yes_line(args: Seq<Seq<u8>>) -> Seq<u8> {
    if args.len() == 0 {
        seq![121u8, 10]
    } else {
        join_spaces(args) + seq![10u8]
    }
}

/// The strings joined by single spaces.
pub open spec fn join_spaces(args: Seq<Seq<u8>>) -> Seq<u8>
    decreases args.len(),
{
    if args.len() == 0 {
        Seq::empty()
    } else if args.len() == 1 {
        args[0]
    } else {
        join_spaces(args.drop_last()) + seq![32u8] + args.last()
    }
}

/// The operands that are printed: all arguments but the first `--`.
pub open spec fn printed_operands(args: Seq<Seq<u8>>) -> Seq<Seq<u8>> {
    match first_dashdash(args, 0) {
        Some(i) => args.subrange(0, i) + args.subrange(i + 1, args.len() as int),
        None => args,
    }
}

/// The index of the first argument that is exactly `--`.
pub open spec fn first_dashdash(args: Seq<Seq<u8>>, i: int) -> Option<int>
    decreases args.len() - i,
{
    if i < 0 || i >= args.len() {
        None
    } else if args[i] == seq![45u8, 45] {
        Some(i)
    } else {
        first_dashdash(args, i + 1)
    }
}

fn is_dashdash(a: &Vec<u8>) -> (r: bool)
    ensures
        r == (a@ == seq![45u8, 45]),
{
    let r = a.len() == 2 && a[0] == 45u8 && a[1] == 45u8;
    if r {
        assert(a@ =~= seq![45u8, 45]);
    }
    r
}

/// Builds the line printed over and over: the arguments other than the first
/// `--`, joined by spaces, or `y`; then a newline.
pub fn yes_line(args: &Vec<Vec<u8>>) -> (r: Vec<u8>)
    ensures
        r@ == spec_yes_line(Seq::new(printed_operands(args.deep_view()).len(), |i: int| printed_operands(args.deep_view())[i])),
{
    let ghost all = args.deep_view();
    let mut ops: Vec<&Vec<u8>> = Vec::new();
    let mut seen: bool = false;
    let mut i: usize = 0;
    let ghost mut cut: int = -1;
    while i < args.len()
        invariant
            i <= args.len(),
            all == args.deep_view(),
            seen ==> 0 <= cut < i && first_dashdash(all, 0) == Some(cut) && ops@.len() == i - 1
                && forall|k: int| 0 <= k < ops@.len() ==> (#[trigger] ops@[k])@ == (all.subrange(0, cut)
                    + all.subrange(cut + 1, i as int))[k],
            !seen ==> first_dashdash(all, 0) == first_dashdash(all, i as int) && ops@.len() == i
                && forall|k: int| 0 <= k < ops@.len() ==> (#[trigger] ops@[k])@ == all[k],
        decreases args.len() - i,
    {
        if !seen && is_dashdash(&args[i]) {
            seen = true;
            proof {
                cut = i as int;
                assert(all[i as int] == args@[i as int]@);
            }
        } else {
            proof {
                if !seen {
                    assert(all[i as int] == args@[i as int]@);
                    assert(first_dashdash(all, i as int) == first_dashdash(all, i + 1));
                }
            }
            ops.push(&args[i]);
        }
        i = i + 1;
    }
    let ghost printed = printed_operands(all);
    proof {
        if !seen {
            assert(first_dashdash(all, args.len() as int) is None);
        }
        assert(printed.len() == ops@.len());
    }
    let mut out: Vec<u8> = Vec::new();
    if ops.len() == 0 {
        out.push(121u8);
        out.push(10u8);
        assert(out@ =~= spec_yes_line(Seq::new(printed.len(), |i: int| printed[i])));
        return out;
    }
    let ghost views = Seq::new(printed.len(), |i: int| printed[i]);
    let mut k: usize = 0;
    while k < ops.len()
        invariant
            k <= ops@.len(),
            views.len() == ops@.len(),
            forall|j: int| 0 <= j < ops@.len() ==> (#[trigger] ops@[j])@ == views[j],
            out@ == join_spaces(views.subrange(0, k as int)),
        decreases ops.len() - k,
    {
        if k > 0 {
            out.push(32u8);
        }
        out.extend_from_slice(ops[k].as_slice());
        proof {
            let s = views.subrange(0, k + 1);
            assert(s.drop_last() =~= views.subrange(0, k as int));
            assert(s.last() == views[k as int]);
            if k == 0 {
                assert(join_spaces(views.subrange(0, 0)) =~= Seq::<u8>::empty());
            }
            assert(out@ =~= join_spaces(s));
        }
        k = k + 1;
    }
    assert(views.subrange(0, views.len() as int) =~= views);
    out.push(10u8);
    out
}

/// `line` repeated `n` times.
pub open spec fn repeated(line: Seq<u8>, n: nat) -> Seq<u8>
    decreases n,
{
    if n == 0 {
        Seq::empty()
    } else {
        repeated(line, (n - 1) as nat) + line
    }
}

/// The number of copies of a line of `len` bytes in the write buffer: one for
/// a line of at least `BUF_SIZE` bytes, else the fewest that fill `BUF_SIZE`.
pub open spec fn copies_for(len: nat) -> nat {
    if len >= BUF_SIZE {
        1
    } else {
        ((BUF_SIZE + len - 1) / len as int) as nat
    }
}

proof fn lemma_repeated_len(line: Seq<u8>, n: nat)
    ensures
        repeated(line, n).len() == n * line.len(),
    decreases n,
{
    if n > 0 {
        let m = (n - 1) as nat;
        lemma_repeated_len(line, m);
        assert(repeated(line, n).len() == repeated(line, m).len() + line.len());
        let l = line.len();
        assert(m * l + l == n * l) by (nonlinear_arith)
            requires
                n == m + 1,
        ;
    } else {
        assert(n * line.len() == 0) by (nonlinear_arith)
            requires
                n == 0,
        ;
    }
}

/// Builds the write buffer: whole copies of the (non-empty) line.
pub fn fill_buffer(line: &[u8]) -> (r: Vec<u8>)
    requires
        line.len() > 0,
    ensures
        r@ == repeated(line@, copies_for(line@.len())),
{
    let len = line.len();
    let copies: usize = if len >= BUF_SIZE { 1 } else { (BUF_SIZE + len - 1) / len };
    let mut v: Vec<u8> = Vec::new();
    let mut c: usize = 0;
    proof {
        if len < BUF_SIZE {
            assert(copies <= 2 * BUF_SIZE) by {
                vstd::arithmetic::div_mod::lemma_div_is_ordered_by_denominator((BUF_SIZE + len - 1) as int, 1, len as int);
            }
        }
    }
    while c < copies
        invariant
            c <= copies,
            copies <= 2 * BUF_SIZE,
            len == line@.len(),
            len < BUF_SIZE ==> v@.len() == c * len,
            v@ == repeated(line@, c as nat),
        decreases copies - c,
    {
        proof {
            lemma_repeated_len(line@, c as nat);
            if len < BUF_SIZE {
                assert((c + 1) * len <= 2 * BUF_SIZE * BUF_SIZE) by (nonlinear_arith)
                    requires
                        c < 2 * BUF_SIZE,
                        len < BUF_SIZE,
                ;
                assert((c + 1) * len == c * len + len) by (nonlinear_arith);
            }
        }
        v.extend_from_slice(line);
        proof {
            assert(((c + 1) - 1) as nat == c as nat);
        }
        c = c + 1;
    }
    v
}

/// The write buffer holds only whole lines and, for a line shorter than
/// `BUF_SIZE`, at least `BUF_SIZE` bytes and less than one line more.
pub proof fn lemma_buffer_whole_lines(line: Seq<u8>)
    requires
        line.len() > 0,
    ensures
        repeated(line, copies_for(line.len())).len() == copies_for(line.len()) * line.len(),
        line.len() < BUF_SIZE ==> BUF_SIZE <= repeated(line, copies_for(line.len())).len() < BUF_SIZE + line.len(),
{
    let n = copies_for(line.len());
    lemma_repeated_len(line, n);
    let len = line.len() as int;
    if len < BUF_SIZE {
        let m = BUF_SIZE + len - 1;
        vstd::arithmetic::div_mod::lemma_fundamental_div_mod(m, len);
        assert(n == m / len);
        assert(m == len * (m / len) + m % len);
        assert(len * (m / len) == n * len) by (nonlinear_arith)
            requires
                n == m / len,
        ;
        assert(0 <= m % len < len);
    }
}

} // verus!
