//! Converting runs of blanks into tabs, for tab stops every `tab_size` columns:
//! only leading blanks, or (with `-a`) every run of two or more blanks and every
//! tab.

use vstd::prelude::*;
use crate::bytes::{find_byte_from, find_either_from, first_index_from, first_of_two_from, lemma_first_index_from, lemma_first_of_two_from};

verus! {

/// Space or tab.
pub open spec fn is_blank(b: u8) -> bool {
    b == 32 || b == 9
}

/// The column after a tab at column `col`: the next tab stop.
pub open spec fn next_stop(col: int, ts: int) -> int {
    col + (ts - col % ts)
}

/// The column reached after displaying `bytes` from column `col`: a tab moves
/// to the next tab stop, every other byte moves one column.
pub open spec fn advance(col: int, bytes: Seq<u8>, ts: int) -> int
    decreases bytes.len(),
{
    if bytes.len() == 0 {
        col
    } else {
        let c = if bytes[0] == 9 { next_stop(col, ts) } else { col + 1 };
        advance(c, bytes.drop_first(), ts)
    }
}

/// `n` spaces.
pub open spec fn spaces(n: int) -> Seq<u8> {
    Seq::new(if n < 0 { 0 } else { n as nat }, |i: int| 32u8)
}

/// The blanks written to move from column `col` to column `end`: a tab for
/// each tab stop on the way (but not a lone tab where one space would reach
/// `end`), then spaces for the rest.
pub open spec fn blanks(col: int, end: int, ts: int) -> Seq<u8>
    decreases end - col,
{
    if ts <= 0 || col >= end {
        Seq::empty()
    } else {
        let next = next_stop(col, ts);
        if next > end {
            spaces(end - col)
        } else if next - col >= 2 || next < end {
            seq![9u8] + blanks(next, end, ts)
        } else {
            spaces(end - col)
        }
    }
}

proof fn lemma_next_stop(col: int, ts: int)
    requires
        ts > 0,
        col >= 0,
    ensures
        col < next_stop(col, ts) <= col + ts,
        next_stop(col, ts) % ts == 0,
{
    vstd::arithmetic::div_mod::lemma_fundamental_div_mod(col, ts);
    vstd::arithmetic::div_mod::lemma_mod_bound(col, ts);
    assert(next_stop(col, ts) == ts * (col / ts + 1)) by (nonlinear_arith)
        requires
            col == ts * (col / ts) + col % ts,
    ;
    vstd::arithmetic::div_mod::lemma_mod_multiples_basic(col / ts + 1, ts);
    vstd::arithmetic::mul::lemma_mul_is_commutative(ts, col / ts + 1);
}

proof fn lemma_advance_spaces(col: int, n: int, ts: int)
    requires
        n >= 0,
    ensures
        advance(col, spaces(n), ts) == col + n,
    decreases n,
{
    if n > 0 {
        assert(spaces(n).drop_first() =~= spaces(n - 1));
        lemma_advance_spaces(col + 1, n - 1, ts);
    }
}

/// The blanks that `blanks` writes display exactly from `col` to `end`.
pub proof fn lemma_blanks_reach_end(col: int, end: int, ts: int)
    requires
        ts > 0,
        0 <= col,
    ensures
        advance(col, blanks(col, end, ts), ts) == if col >= end { col } else { end },
    decreases end - col,
{
    if col < end {
        let next = next_stop(col, ts);
        lemma_next_stop(col, ts);
        if next > end {
            lemma_advance_spaces(col, end - col, ts);
        } else if next - col >= 2 || next < end {
            let b = seq![9u8] + blanks(next, end, ts);
            assert(b.drop_first() =~= blanks(next, end, ts));
            lemma_blanks_reach_end(next, end, ts);
        } else {
            lemma_advance_spaces(col, end - col, ts);
        }
    }
}

proof fn lemma_advance_append(col: int, a: Seq<u8>, b: Seq<u8>, ts: int)
    ensures
        advance(col, a + b, ts) == advance(advance(col, a, ts), b, ts),
    decreases a.len(),
{
    if a.len() > 0 {
        let c = if a[0] == 9 { next_stop(col, ts) } else { col + 1 };
        assert((a + b).drop_first() =~= a.drop_first() + b);
        lemma_advance_append(c, a.drop_first(), b, ts);
    }
}

proof fn lemma_advance_bound(col: int, bytes: Seq<u8>, ts: int)
    requires
        ts > 0,
        col >= 0,
    ensures
        col <= advance(col, bytes, ts) <= col + bytes.len() * ts,
    decreases bytes.len(),
{
    if bytes.len() > 0 {
        let c = if bytes[0] == 9 { next_stop(col, ts) } else { col + 1 };
        lemma_next_stop(col, ts);
        lemma_advance_bound(c, bytes.drop_first(), ts);
        assert((bytes.len() - 1) * ts + ts == bytes.len() * ts) by (nonlinear_arith);
    }
}

/// Appends the blanks that move from column `start_col` to `end_col`.
pub fn emit_blanks_vec(output: &mut Vec<u8>, start_col: usize, end_col: usize, tab_size: usize)
    requires
        tab_size > 0,
        end_col as int + tab_size <= usize::MAX,
    ensures
        final(output)@ == old(output)@ + blanks(start_col as int, end_col as int, tab_size as int),
{
    if start_col >= end_col {
        return;
    }
    let mut col = start_col;
    let ghost orig = output@;
    loop
        invariant
            start_col <= col <= end_col,
            tab_size > 0,
            end_col as int + tab_size <= usize::MAX,
            orig + blanks(start_col as int, end_col as int, tab_size as int) == output@ + blanks(
                col as int,
                end_col as int,
                tab_size as int,
            ),
        ensures
            start_col <= col <= end_col,
            blanks(col as int, end_col as int, tab_size as int) == spaces(end_col - col),
            orig + blanks(start_col as int, end_col as int, tab_size as int) == output@ + blanks(
                col as int,
                end_col as int,
                tab_size as int,
            ),
        decreases end_col - col,
    {
        proof {
            lemma_next_stop(col as int, tab_size as int);
        }
        let rem = col % tab_size;
        let next_tab = col + (tab_size - rem);
        if next_tab > end_col {
            break;
        }
        let blanks_consumed = next_tab - col;
        if blanks_consumed >= 2 || next_tab < end_col {
            let ghost before = output@;
            output.push(9u8);
            proof {
                assert(blanks(col as int, end_col as int, tab_size as int) == seq![9u8] + blanks(
                    next_tab as int,
                    end_col as int,
                    tab_size as int,
                ));
                assert(output@ + blanks(next_tab as int, end_col as int, tab_size as int) =~= before + blanks(
                    col as int,
                    end_col as int,
                    tab_size as int,
                ));
            }
            col = next_tab;
        } else {
            break;
        }
    }
    let remaining = end_col - col;
    let ghost before = output@;
    let mut k: usize = 0;
    while k < remaining
        invariant
            k <= remaining,
            output@ == before + spaces(k as int),
        decreases remaining - k,
    {
        output.push(32u8);
        proof {
            assert(output@ =~= before + spaces(k + 1));
        }
        k = k + 1;
    }
}


/// The end of the run of blanks of `line` that starts at `p`.
pub open spec fn run_end(line: Seq<u8>, p: int) -> int
    decreases line.len() - p,
{
    if 0 <= p < line.len() && is_blank(line[p]) {
        run_end(line, p + 1)
    } else {
        p
    }
}

/// `line` with its leading blanks rewritten as tabs and spaces.
pub open spec fn leading_out(line: Seq<u8>, ts: int) -> Seq<u8> {
    let i = run_end(line, 0);
    blanks(0, advance(0, line.subrange(0, i), ts), ts) + line.subrange(i, line.len() as int)
}

proof fn lemma_run_end(line: Seq<u8>, p: int)
    requires
        0 <= p <= line.len(),
    ensures
        p <= run_end(line, p) <= line.len(),
        forall|i: int| p <= i < run_end(line, p) ==> is_blank(line[i]),
        run_end(line, p) < line.len() ==> !is_blank(line[run_end(line, p)]),
    decreases line.len() - p,
{
    if p < line.len() && is_blank(line[p]) {
        lemma_run_end(line, p + 1);
    }
}

/// Scans the run of blanks of `line` from `p`, advancing the column from `col`.
fn scan_blanks(line: &[u8], p: usize, col: usize, tab_size: usize) -> (r: (usize, usize))
    requires
        p <= line@.len(),
        tab_size > 0,
        advance(col as int, line@.subrange(p as int, run_end(line@, p as int)), tab_size as int) + tab_size
            <= usize::MAX,
    ensures
        r.0 == run_end(line@, p as int),
        r.1 == advance(col as int, line@.subrange(p as int, r.0 as int), tab_size as int),
        r.1 + tab_size <= usize::MAX,
        p <= r.0 <= line@.len(),
{
    proof {
        lemma_run_end(line@, p as int);
    }
    let ghost re = run_end(line@, p as int);
    let mut i = p;
    let mut c = col;
    while i < line.len() && (line[i] == 32u8 || line[i] == 9u8)
        invariant
            p <= i <= re <= line@.len(),
            tab_size > 0,
            re == run_end(line@, p as int),
            run_end(line@, p as int) == run_end(line@, i as int),
            c == advance(col as int, line@.subrange(p as int, i as int), tab_size as int),
            advance(c as int, line@.subrange(i as int, re), tab_size as int) + tab_size <= usize::MAX,
        decreases line@.len() - i,
    {
        proof {
            lemma_advance_append(col as int, line@.subrange(p as int, i as int), line@.subrange(i as int, i + 1), tab_size as int);
            assert(line@.subrange(p as int, i + 1) =~= line@.subrange(p as int, i as int) + line@.subrange(i as int, i + 1));
            assert(line@.subrange(i as int, i + 1).drop_first() =~= Seq::<u8>::empty());
            lemma_run_end(line@, i + 1);
            assert(run_end(line@, i as int) == run_end(line@, i + 1));
            assert(i < re);
            assert(line@.subrange(i as int, re).drop_first() =~= line@.subrange(i + 1, re));
            assert(line@.subrange(i as int, re)[0] == line@[i as int]);
            lemma_next_stop(c as int, tab_size as int);
            let c1 = if line@[i as int] == 9 { next_stop(c as int, tab_size as int) } else { c + 1 };
            lemma_advance_bound(c1, line@.subrange(i + 1, re), tab_size as int);
        }
        let ghost old_c = c;
        if line[i] == 9u8 {
            let rem = c % tab_size;
            c = c + (tab_size - rem);
        } else {
            c = c + 1;
        }
        proof {
            let one = line@.subrange(i as int, i + 1);
            assert(one[0] == line@[i as int]);
            assert(advance(old_c as int, one, tab_size as int) == advance(c as int, one.drop_first(), tab_size as int));
        }
        i = i + 1;
    }
    proof {
        assert(i == re);
        assert(line@.subrange(i as int, re) =~= Seq::<u8>::empty());
    }
    (i, c)
}

/// The column reached after the leading blanks of `line`, plus one tab,
/// fits in a `usize`.
pub open spec fn leading_fits(line: Seq<u8>, ts: int) -> bool {
    advance(0, line.subrange(0, run_end(line, 0)), ts) + ts <= usize::MAX
}

/// The width of `line`, plus one tab, fits in a `usize`.
pub open spec fn width_fits(line: Seq<u8>, ts: int) -> bool {
    advance(0, line, ts) + ts <= usize::MAX
}

/// Appends `line` with its leading blanks rewritten as tabs and spaces.
pub fn unexpand_leading_vec(line: &[u8], tab_size: usize, output: &mut Vec<u8>)
    requires
        tab_size > 0,
        leading_fits(line@, tab_size as int),
    ensures
        final(output)@ == old(output)@ + leading_out(line@, tab_size as int),
{
    let (i, column) = scan_blanks(line, 0, 0, tab_size);
    emit_blanks_vec(output, 0, column, tab_size);
    output.extend_from_slice(&line[i..line.len()]);
}

/// Where the next run of blanks to rewrite starts, at or after `pos`: a tab,
/// or a space followed by another blank.
pub open spec fn blank_start(line: Seq<u8>, pos: int) -> Option<int>
    decreases line.len() - pos,
{
    if pos < 0 || pos >= line.len() {
        None
    } else if line[pos] == 9 || (line[pos] == 32 && pos + 1 < line.len() && is_blank(line[pos + 1])) {
        Some(pos)
    } else {
        blank_start(line, pos + 1)
    }
}

/// `line[pos..]`, shown from column `col`, with every tab and every run of two
/// or more blanks rewritten as tabs and spaces.
pub open spec fn all_out(line: Seq<u8>, pos: int, col: int, ts: int) -> Seq<u8>
    decreases line.len() - pos,
{
    if pos < 0 || pos > line.len() {
        Seq::empty()
    } else {
        match blank_start(line, pos) {
            None => line.subrange(pos, line.len() as int),
            Some(bp) => {
                let c1 = col + (bp - pos);
                let e = run_end(line, bp);
                let c2 = advance(c1, line.subrange(bp, e), ts);
                if e <= pos || e > line.len() {
                    Seq::empty()
                } else {
                    line.subrange(pos, bp) + blanks(c1, c2, ts) + all_out(line, e, c2, ts)
                }
            },
        }
    }
}

proof fn lemma_blank_start(line: Seq<u8>, pos: int)
    requires
        0 <= pos,
    ensures
        blank_start(line, pos) matches Some(bp) ==> pos <= bp < line.len() && is_blank(line[bp]),
    decreases line.len() - pos,
{
    if pos < line.len() && !(line[pos] == 9 || (line[pos] == 32 && pos + 1 < line.len() && is_blank(line[pos + 1]))) {
        lemma_blank_start(line, pos + 1);
    }
}

/// Finds where the next run of blanks to rewrite starts, as the tool does: the
/// first space or tab, skipping single spaces not followed by a blank.
fn find_blank_run(line: &[u8], pos: usize) -> (r: Option<usize>)
    requires
        pos <= line@.len(),
    ensures
        r matches Some(bp) ==> blank_start(line@, pos as int) == Some(bp as int),
        r is None ==> blank_start(line@, pos as int) is None,
{
    let mut search = pos;
    loop
        invariant
            pos <= search <= line@.len(),
            blank_start(line@, pos as int) == blank_start(line@, search as int),
        decreases line@.len() - search,
    {
        proof {
            lemma_first_of_two_from(line@, 32u8, 9u8, search as int);
        }
        match find_either_from(32u8, 9u8, line, search) {
            Some(abs) => {
                proof {
                    lemma_blank_start_skip(line@, search as int, abs as int);
                }
                if line[abs] == 9u8 {
                    return Some(abs);
                }
                if abs + 1 < line.len() && (line[abs + 1] == 32u8 || line[abs + 1] == 9u8) {
                    return Some(abs);
                }
                search = abs + 1;
            },
            None => {
                proof {
                    lemma_blank_start_none(line@, search as int);
                }
                return None;
            },
        }
    }
}

proof fn lemma_blank_start_skip(line: Seq<u8>, a: int, b: int)
    requires
        0 <= a <= b <= line.len(),
        forall|i: int| a <= i < b ==> line[i] != 32 && line[i] != 9,
    ensures
        blank_start(line, a) == blank_start(line, b),
    decreases b - a,
{
    if a < b {
        lemma_blank_start_skip(line, a + 1, b);
    }
}

proof fn lemma_blank_start_none(line: Seq<u8>, a: int)
    requires
        0 <= a <= line.len(),
        forall|i: int| a <= i < line.len() ==> line[i] != 32 && line[i] != 9,
    ensures
        blank_start(line, a) is None,
    decreases line.len() - a,
{
    if a < line.len() {
        lemma_blank_start_none(line, a + 1);
    }
}

/// Appends `line` with every tab and every run of two or more blanks
/// rewritten as tabs and spaces.
pub fn unexpand_line_all_vec(line: &[u8], tab_size: usize, output: &mut Vec<u8>)
    requires
        tab_size > 0,
        width_fits(line@, tab_size as int),
    ensures
        final(output)@ == old(output)@ + all_out(line@, 0, 0, tab_size as int),
{
    let mut column: usize = 0;
    let mut pos: usize = 0;
    let ghost orig = output@;
    let ghost w = advance(0, line@, tab_size as int);
    assert(line@.subrange(0, line@.len() as int) =~= line@);
    loop
        invariant
            pos <= line@.len(),
            tab_size > 0,
            w == advance(0, line@, tab_size as int),
            w + tab_size <= usize::MAX,
            advance(column as int, line@.subrange(pos as int, line@.len() as int), tab_size as int) == w,
            orig == old(output)@,
            orig + all_out(line@, 0, 0, tab_size as int) == output@ + all_out(line@, pos as int, column as int, tab_size as int),
        decreases line@.len() - pos,
    {
        proof {
            lemma_blank_start(line@, pos as int);
        }
        match find_blank_run(line, pos) {
            Some(bp) => {
                let ghost before = output@;
                let ghost all_here = all_out(line@, pos as int, column as int, tab_size as int);
                proof {
                    lemma_blank_start_no_tab_before(line@, pos as int);
                    let n = line@.len() as int;
                    let seg = line@.subrange(pos as int, bp as int);
                    lemma_advance_no_tab(column as int, seg, tab_size as int);
                    assert(line@.subrange(pos as int, n) =~= seg + line@.subrange(bp as int, n));
                    lemma_advance_append(column as int, seg, line@.subrange(bp as int, n), tab_size as int);
                    lemma_advance_bound(column + (bp - pos), line@.subrange(bp as int, n), tab_size as int);
                    lemma_run_end(line@, bp as int);
                    let re = run_end(line@, bp as int);
                    assert(line@.subrange(bp as int, n) =~= line@.subrange(bp as int, re) + line@.subrange(re, n));
                    lemma_advance_append(column + (bp - pos), line@.subrange(bp as int, re), line@.subrange(re, n), tab_size as int);
                    lemma_advance_bound(column + (bp - pos), line@.subrange(bp as int, re), tab_size as int);
                    lemma_advance_bound(advance(column + (bp - pos), line@.subrange(bp as int, re), tab_size as int), line@.subrange(re, n), tab_size as int);
                }
                if bp > pos {
                    output.extend_from_slice(&line[pos..bp]);
                    column = column + (bp - pos);
                } else {
                    proof {
                        assert(line@.subrange(pos as int, bp as int) =~= Seq::<u8>::empty());
                    }
                }
                let blank_start_col = column;
                let (e, c2) = scan_blanks(line, bp, column, tab_size);
                emit_blanks_vec(output, blank_start_col, c2, tab_size);
                proof {
                    assert(e > bp);
                    assert(all_here == line@.subrange(pos as int, bp as int) + blanks(
                        blank_start_col as int,
                        c2 as int,
                        tab_size as int,
                    ) + all_out(line@, e as int, c2 as int, tab_size as int));
                    assert(output@ =~= before + line@.subrange(pos as int, bp as int) + blanks(
                        blank_start_col as int,
                        c2 as int,
                        tab_size as int,
                    ));
                }
                column = c2;
                pos = e;
            },
            None => {
                let ghost before = output@;
                output.extend_from_slice(&line[pos..line.len()]);
                proof {
                    assert(all_out(line@, pos as int, column as int, tab_size as int) == line@.subrange(pos as int, line@.len() as int));
                    assert(output@ =~= before + line@.subrange(pos as int, line@.len() as int));
                }
                return;
            },
        }
    }
}


/// A line's columns, as far as they are computed, fit in a `usize`: those of
/// its leading blanks (`all` false) or of the whole line (`all` true).
pub open spec fn line_fits(line: Seq<u8>, ts: int, all: bool) -> bool {
    if all { width_fits(line, ts) } else { leading_fits(line, ts) }
}

/// Every line of `data[pos..]` (split at newlines) fits, as `line_fits` says.
pub open spec fn lines_fit(data: Seq<u8>, pos: int, ts: int, all: bool) -> bool
    decreases data.len() - pos,
{
    if pos < 0 || pos >= data.len() {
        true
    } else {
        match first_index_from(data, 10, pos) {
            Some(nl) => if nl < pos || nl >= data.len() {
                false
            } else {
                line_fits(data.subrange(pos, nl), ts, all) && lines_fit(data, nl + 1, ts, all)
            },
            None => line_fits(data.subrange(pos, data.len() as int), ts, all),
        }
    }
}

/// `data[pos..]` with each line (split at newlines) rewritten by `f`-style
/// rules: only leading blanks (`all` false) or all runs of blanks (`all` true).
pub open spec fn stream_out(data: Seq<u8>, pos: int, ts: int, all: bool) -> Seq<u8>
    decreases data.len() - pos,
{
    if pos < 0 || pos >= data.len() {
        Seq::empty()
    } else {
        match first_index_from(data, 10, pos) {
            Some(nl) => if nl < pos || nl >= data.len() {
                Seq::empty()
            } else {
                let line = data.subrange(pos, nl);
                (if all { all_out(line, 0, 0, ts) } else { leading_out(line, ts) }).push(10u8) + stream_out(data, nl + 1, ts, all)
            },
            None => {
                let line = data.subrange(pos, data.len() as int);
                if all { all_out(line, 0, 0, ts) } else { leading_out(line, ts) }
            },
        }
    }
}

fn unexpand_stream(data: &[u8], tab_size: usize, all: bool) -> (r: Vec<u8>)
    requires
        tab_size > 0,
        lines_fit(data@, 0, tab_size as int, all),
    ensures
        r@ == stream_out(data@, 0, tab_size as int, all),
{
    let mut out: Vec<u8> = Vec::new();
    let mut pos: usize = 0;
    loop
        invariant
            pos <= data@.len(),
            tab_size > 0,
            lines_fit(data@, pos as int, tab_size as int, all),
            stream_out(data@, 0, tab_size as int, all) == out@ + stream_out(data@, pos as int, tab_size as int, all),
        decreases data@.len() - pos,
    {
        if pos >= data.len() {
            proof {
                assert(out@ =~= out@ + Seq::<u8>::empty());
            }
            return out;
        }
        proof {
            lemma_first_index_from(data@, 10u8, pos as int);
        }
        let ghost before = out@;
        match find_byte_from(10u8, data, pos) {
            Some(nl) => {
                let line = &data[pos..nl];
                if all {
                    unexpand_line_all_vec(line, tab_size, &mut out);
                } else {
                    unexpand_leading_vec(line, tab_size, &mut out);
                }
                out.push(10u8);
                proof {
                    let lo = if all { all_out(line@, 0, 0, tab_size as int) } else { leading_out(line@, tab_size as int) };
                    assert(out@ =~= before + lo.push(10u8));
                }
                pos = nl + 1;
            },
            None => {
                let line = &data[pos..data.len()];
                if all {
                    unexpand_line_all_vec(line, tab_size, &mut out);
                } else {
                    unexpand_leading_vec(line, tab_size, &mut out);
                }
                return out;
            },
        }
    }
}

/// Whether the width of `bytes`, plus one tab, fits in a `usize`.
fn width_within(bytes: &[u8], tab_size: usize) -> (r: bool)
    requires
        tab_size > 0,
    ensures
        r == (advance(0, bytes@, tab_size as int) + tab_size <= usize::MAX),
{
    let mut c: usize = 0;
    let mut i: usize = 0;
    while i < bytes.len()
        invariant
            i <= bytes@.len(),
            tab_size > 0,
            c == advance(0, bytes@.subrange(0, i as int), tab_size as int),
            c + tab_size <= usize::MAX,
        decreases bytes@.len() - i,
    {
        let ghost n = bytes@.len() as int;
        proof {
            lemma_advance_bound(0, bytes@.subrange(0, i as int), tab_size as int);
            lemma_next_stop(c as int, tab_size as int);
            lemma_advance_append(0, bytes@.subrange(0, i as int), bytes@.subrange(i as int, i + 1), tab_size as int);
            assert(bytes@.subrange(0, i + 1) =~= bytes@.subrange(0, i as int) + bytes@.subrange(i as int, i + 1));
            assert(bytes@.subrange(i as int, i + 1).drop_first() =~= Seq::<u8>::empty());
            assert(bytes@.subrange(i as int, i + 1)[0] == bytes@[i as int]);
        }
        let next: usize = if bytes[i] == 9u8 { c + (tab_size - c % tab_size) } else { c + 1 };
        proof {
            let one = bytes@.subrange(i as int, i + 1);
            assert(advance(c as int, one, tab_size as int) == advance(next as int, one.drop_first(), tab_size as int));
            assert(advance(0, bytes@.subrange(0, i + 1), tab_size as int) == next);
        }
        if next > usize::MAX - tab_size {
            proof {
                assert(bytes@ =~= bytes@.subrange(0, i + 1) + bytes@.subrange(i + 1, n));
                lemma_advance_append(0, bytes@.subrange(0, i + 1), bytes@.subrange(i + 1, n), tab_size as int);
                lemma_advance_bound(next as int, bytes@.subrange(i + 1, n), tab_size as int);
            }
            return false;
        }
        c = next;
        i = i + 1;
    }
    assert(bytes@.subrange(0, i as int) =~= bytes@);
    true
}

/// Whether `line` fits, as `line_fits` says.
fn line_fits_check(line: &[u8], tab_size: usize, all: bool) -> (r: bool)
    requires
        tab_size > 0,
    ensures
        r == line_fits(line@, tab_size as int, all),
{
    if all {
        width_within(line, tab_size)
    } else {
        proof {
            lemma_run_end(line@, 0);
        }
        let mut e: usize = 0;
        while e < line.len() && (line[e] == 32u8 || line[e] == 9u8)
            invariant
                e <= line@.len(),
                run_end(line@, 0) == run_end(line@, e as int),
            decreases line@.len() - e,
        {
            e = e + 1;
        }
        width_within(&line[0..e], tab_size)
    }
}

/// Whether every line of `data` fits, as `lines_fit` says, so that it can be
/// rewritten.
pub fn lines_fit_check(data: &[u8], tab_size: usize, all: bool) -> (r: bool)
    requires
        tab_size > 0,
    ensures
        r == lines_fit(data@, 0, tab_size as int, all),
{
    let mut pos: usize = 0;
    loop
        invariant
            pos <= data@.len(),
            tab_size > 0,
            lines_fit(data@, 0, tab_size as int, all) == lines_fit(data@, pos as int, tab_size as int, all),
        decreases data@.len() - pos,
    {
        if pos >= data.len() {
            return true;
        }
        proof {
            lemma_first_index_from(data@, 10u8, pos as int);
        }
        match find_byte_from(10u8, data, pos) {
            Some(nl) => {
                if !line_fits_check(&data[pos..nl], tab_size, all) {
                    return false;
                }
                pos = nl + 1;
            },
            None => {
                return line_fits_check(&data[pos..data.len()], tab_size, all);
            },
        }
    }
}

/// Rewrites the leading blanks of every line of `data` as tabs and spaces.
pub fn unexpand_default_stream(data: &[u8], tab_size: usize) -> (r: Vec<u8>)
    requires
        tab_size > 0,
        lines_fit(data@, 0, tab_size as int, false),
    ensures
        r@ == stream_out(data@, 0, tab_size as int, false),
{
    unexpand_stream(data, tab_size, false)
}

/// Rewrites every tab and every run of two or more blanks of every line of
/// `data` as tabs and spaces.
pub fn unexpand_all_stream(data: &[u8], tab_size: usize) -> (r: Vec<u8>)
    requires
        tab_size > 0,
        lines_fit(data@, 0, tab_size as int, true),
    ensures
        r@ == stream_out(data@, 0, tab_size as int, true),
{
    unexpand_stream(data, tab_size, true)
}

proof fn lemma_advance_no_tab(col: int, bytes: Seq<u8>, ts: int)
    requires
        forall|i: int| 0 <= i < bytes.len() ==> bytes[i] != 9,
    ensures
        advance(col, bytes, ts) == col + bytes.len(),
    decreases bytes.len(),
{
    if bytes.len() > 0 {
        lemma_advance_no_tab(col + 1, bytes.drop_first(), ts);
    }
}

proof fn lemma_blank_start_no_tab_before(line: Seq<u8>, pos: int)
    requires
        0 <= pos,
    ensures
        blank_start(line, pos) matches Some(bp) ==> forall|i: int| pos <= i < bp ==> line[i] != 9,
    decreases line.len() - pos,
{
    if pos < line.len() && !(line[pos] == 9 || (line[pos] == 32 && pos + 1 < line.len() && is_blank(line[pos + 1]))) {
        lemma_blank_start_no_tab_before(line, pos + 1);
    }
}

/// Rewriting leading blanks keeps the display: the rest of the line starts at
/// the same column, so the whole line ends at the same column.
pub proof fn lemma_leading_keeps_columns(line: Seq<u8>, ts: int)
    requires
        ts > 0,
    ensures
        advance(0, leading_out(line, ts), ts) == advance(0, line, ts),
{
    let i = run_end(line, 0);
    lemma_run_end(line, 0);
    let head = line.subrange(0, i);
    let rest = line.subrange(i, line.len() as int);
    let c = advance(0, head, ts);
    lemma_advance_bound(0, head, ts);
    lemma_blanks_reach_end(0, c, ts);
    lemma_advance_append(0, blanks(0, c, ts), rest, ts);
    assert(line =~= head + rest);
    lemma_advance_append(0, head, rest, ts);
}

/// With `-a`, rewriting keeps the display: from any column, the rewritten
/// text ends at the same column as the line it replaces.
pub proof fn lemma_all_keeps_columns(line: Seq<u8>, pos: int, col: int, ts: int)
    requires
        ts > 0,
        0 <= pos <= line.len(),
        col >= 0,
    ensures
        advance(col, all_out(line, pos, col, ts), ts) == advance(col, line.subrange(pos, line.len() as int), ts),
    decreases line.len() - pos,
{
    lemma_blank_start(line, pos);
    lemma_blank_start_no_tab_before(line, pos);
    match blank_start(line, pos) {
        None => {},
        Some(bp) => {
            let c1 = col + (bp - pos);
            lemma_run_end(line, bp);
            assert(run_end(line, bp) == run_end(line, bp + 1));
            lemma_run_end(line, bp + 1);
            let e = run_end(line, bp);
            let mid = line.subrange(bp, e);
            let c2 = advance(c1, mid, ts);
            let pre = line.subrange(pos, bp);
            lemma_advance_no_tab(col, pre, ts);
            lemma_advance_bound(c1, mid, ts);
            lemma_blanks_reach_end(c1, c2, ts);
            lemma_all_keeps_columns(line, e, c2, ts);
            let tail = all_out(line, e, c2, ts);
            lemma_advance_append(col, pre, blanks(c1, c2, ts) + tail, ts);
            assert(pre + blanks(c1, c2, ts) + tail =~= pre + (blanks(c1, c2, ts) + tail));
            lemma_advance_append(c1, blanks(c1, c2, ts), tail, ts);
            let rest = line.subrange(e, line.len() as int);
            assert(line.subrange(pos, line.len() as int) =~= pre + (mid + rest));
            lemma_advance_append(col, pre, mid + rest, ts);
            lemma_advance_append(c1, mid, rest, ts);
        },
    }
}

} // verus!
