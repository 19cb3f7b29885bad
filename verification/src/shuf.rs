//! Random permutations: input ranges and counts, the random number generator
//! (bytes of a random source drawn by rejection, or a xorshift generator),
//! partial Fisher-Yates shuffling, and the lines and numbers it outputs.

use vstd::prelude::*;
use vstd::string::*;
use crate::bytes::{find_byte_from, first_index_from, lemma_first_index_from};
use crate::decimal::{decimal, parse_u64, spec_parse_u64, u64_to_decimal};

verus! {

// ---------------------------------------------------------------------------
// Arguments
// ---------------------------------------------------------------------------

/// Why an input range `LO-HI` was refused.
#[derive(Clone, Copy, Debug, PartialEq, Eq, Structural)]
pub enum RangeError {
    /// No separating `-`, a bound that is not a number, or `LO > HI`.
    Invalid,
}

/// The index of the first `-` in `s` at or after `from`, if any.
pub open spec fn first_dash(s: Seq<u8>, from: int) -> Option<int>
    decreases s.len() - from,
{
    if from < 0 || from >= s.len() {
        None
    } else if s[from] == 45 {
        Some(from)
    } else {
        first_dash(s, from + 1)
    }
}

/// What an input range `LO-HI` gives: the separator is the first `-`, or the
/// second when the text starts with `-`; both bounds are parsed as `u64::from_str`
/// does and must satisfy `LO <= HI`.
pub open spec fn spec_parse_range(s: Seq<u8>) -> Result<(u64, u64), RangeError> {
    let sep = if s.len() > 0 && s[0] == 45 { first_dash(s, 1) } else { first_dash(s, 0) };
    match sep {
        None => Err(RangeError::Invalid),
        Some(p) => match (spec_parse_u64(s.subrange(0, p)), spec_parse_u64(s.subrange(p + 1, s.len() as int))) {
            (Some(lo), Some(hi)) => if lo <= hi { Ok((lo, hi)) } else { Err(RangeError::Invalid) },
            _ => Err(RangeError::Invalid),
        },
    }
}

fn find_dash(s: &[u8], from: usize) -> (r: Option<usize>)
    requires
        from <= s@.len(),
    ensures
        r matches Some(p) ==> first_dash(s@, from as int) == Some(p as int) && p < s@.len(),
        r is None ==> first_dash(s@, from as int) is None,
{
    let mut i = from;
    while i < s.len()
        invariant
            from <= i <= s@.len(),
            first_dash(s@, from as int) == first_dash(s@, i as int),
        decreases s@.len() - i,
    {
        if s[i] == 45u8 {
            return Some(i);
        }
        i = i + 1;
    }
    None
}

/// Parses an input range `LO-HI` of non-negative integers.
pub fn parse_range(s: &str) -> (r: Result<(u64, u64), RangeError>)
    ensures
        r == spec_parse_range(s.spec_bytes()),
        r matches Ok((lo, hi)) ==> lo <= hi,
{
    let b = s.as_bytes();
    let sep = if b.len() > 0 && b[0] == 45u8 { find_dash(b, 1) } else { find_dash(b, 0) };
    match sep {
        None => Err(RangeError::Invalid),
        Some(p) => {
            let lo = parse_u64(&b[0..p]);
            let hi = parse_u64(&b[p + 1..b.len()]);
            match (lo, hi) {
                (Some(l), Some(h)) => {
                    if l <= h {
                        Ok((l, h))
                    } else {
                        Err(RangeError::Invalid)
                    }
                },
                _ => Err(RangeError::Invalid),
            }
        },
    }
}

/// Parses a line count as `usize::from_str` does.
pub fn parse_count(s: &str) -> (r: Option<usize>)
    ensures
        r matches Some(n) ==> spec_parse_u64(s.spec_bytes()) == Some(n as u64),
        r is None ==> !(spec_parse_u64(s.spec_bytes()) matches Some(v) && v <= usize::MAX),
{
    match parse_u64(s.as_bytes()) {
        Some(v) => {
            if v <= usize::MAX as u64 {
                Some(v as usize)
            } else {
                None
            }
        },
        None => None,
    }
}

/// Of several head counts, the one that applies: the smallest.
pub fn smallest_count(counts: &Vec<usize>) -> (r: Option<usize>)
    ensures
        counts@.len() == 0 <==> r is None,
        r matches Some(m) ==> counts@.contains(m) && forall|i: int| 0 <= i < counts@.len() ==> m <= #[trigger] counts@[i],
{
    if counts.len() == 0 {
        return None;
    }
    let mut m = counts[0];
    let mut i: usize = 1;
    while i < counts.len()
        invariant
            1 <= i <= counts@.len(),
            counts@.contains(m),
            forall|j: int| 0 <= j < i ==> m <= #[trigger] counts@[j],
        decreases counts@.len() - i,
    {
        if counts[i] < m {
            m = counts[i];
        }
        i = i + 1;
    }
    Some(m)
}


// ---------------------------------------------------------------------------
// Random numbers
// ---------------------------------------------------------------------------

/// The seed used when the random seed would be zero (xorshift would stay at zero).
pub const ZERO_SEED_REPLACEMENT: u64 = 0x123456789abcdef0;

/// The state of the random number generator.
#[derive(Clone, Copy, Debug, PartialEq, Eq, Structural)]
pub enum RandGen {
    /// Bytes read from a random-source file, combined into a number and drawn by rejection:
    /// `randnum` is a random value uniform in `0..=randmax`.
    FileSource { randnum: u64, randmax: u64 },
    /// A xorshift64 generator.
    Xorshift { state: u64 },
}

/// One step of xorshift64 (shifts 13, 7, 17).
pub open spec fn xorshift_next(x: u64) -> u64 {
    let a = x ^ (x << 13u64);
    let b = a ^ (a >> 7u64);
    b ^ (b << 17u64)
}

/// Lemire's bounded draw: a 64-bit random `x` gives the high half of `x * s`,
/// unless the low half falls in the small biased region, which is rejected.
pub open spec fn lemire(x: u64, s: u64) -> Option<u64> {
    let m = x as int * s as int;
    let low = m % 0x1_0000_0000_0000_0000;
    let t = (0x1_0000_0000_0000_0000 - s) % (s as int);
    if low < s && low < t {
        None
    } else {
        Some((m / 0x1_0000_0000_0000_0000) as u64)
    }
}

/// The outcome of one attempt to draw a number in `0..=genmax`, and the
/// generator state after it. `None` asks for another attempt; for a file
/// source, after one more byte has been fed in.
pub open spec fn spec_try_gen_max(g: RandGen, genmax: u64) -> (Option<u64>, RandGen) {
    if genmax == 0 {
        (Some(0), g)
    } else {
        match g {
            RandGen::FileSource { randnum, randmax } => {
                if randmax < genmax {
                    (None, g)
                } else {
                    let excess_max = randmax - genmax;
                    let excess = excess_max % (genmax + 1);
                    let room = if randmax >= randnum { randmax - randnum } else { randmax - randnum + 0x1_0000_0000_0000_0000 };
                    if excess <= room {
                        (
                            Some((randnum as int % (genmax + 1)) as u64),
                            RandGen::FileSource {
                                randnum: (randnum as int / (genmax + 1)) as u64,
                                randmax: (excess_max / (genmax + 1)) as u64,
                            },
                        )
                    } else {
                        (None, g)
                    }
                }
            },
            RandGen::Xorshift { state } => {
                let x = xorshift_next(state);
                (lemire(x, (genmax + 1) as u64), RandGen::Xorshift { state: x })
            },
        }
    }
}

/// The state after a random-source byte is taken in: the byte becomes the
/// new lowest 8 bits of `randnum`, and `randmax` grows likewise (both wrap).
pub open spec fn spec_feed_byte(g: RandGen, b: u8) -> RandGen {
    match g {
        RandGen::FileSource { randnum, randmax } => RandGen::FileSource {
            randnum: ((randnum as int * 256 + b as int) % 0x1_0000_0000_0000_0000) as u64,
            randmax: ((randmax as int * 256 + 255) % 0x1_0000_0000_0000_0000) as u64,
        },
        RandGen::Xorshift { .. } => g,
    }
}

proof fn lemma_high_half_bound(x: u64, s: u64)
    requires
        s >= 1,
    ensures
        (x as int * s as int) / 0x1_0000_0000_0000_0000 < s,
{
    assert((x as int * s as int) < 0x1_0000_0000_0000_0000 * s) by (nonlinear_arith)
        requires
            x < 0x1_0000_0000_0000_0000,
            s >= 1,
    ;
    vstd::arithmetic::div_mod::lemma_div_by_multiple_is_strongly_ordered(
        x as int * s as int,
        (0x1_0000_0000_0000_0000 * s) as int,
        s as int,
        0x1_0000_0000_0000_0000,
    );
}

impl RandGen {
    /// A xorshift generator seeded with `seed` (a zero seed is replaced, since
    /// xorshift would stay at zero).
    pub fn from_seed(seed: u64) -> (r: RandGen)
        ensures
            r == (RandGen::Xorshift { state: if seed == 0 { ZERO_SEED_REPLACEMENT } else { seed } }),
    {
        RandGen::Xorshift { state: if seed == 0 { ZERO_SEED_REPLACEMENT } else { seed } }
    }

    /// A generator fed from a random-source file, before any byte is read.
    pub fn file_source() -> (r: RandGen)
        ensures
            r == (RandGen::FileSource { randnum: 0, randmax: 0 }),
    {
        RandGen::FileSource { randnum: 0, randmax: 0 }
    }

    /// Whether failed attempts need a byte of the random source.
    pub fn is_file_source(&self) -> (r: bool)
        ensures
            r == (*self matches RandGen::FileSource { .. }),
    {
        match self {
            RandGen::FileSource { .. } => true,
            RandGen::Xorshift { .. } => false,
        }
    }

    /// One attempt at a random number in `0..=genmax`.
    pub fn try_gen_max(&mut self, genmax: u64) -> (r: Option<u64>)
        requires
            genmax < u64::MAX,
        ensures
            (r, *final(self)) == spec_try_gen_max(*old(self), genmax),
            r matches Some(v) ==> v <= genmax,
    {
        if genmax == 0 {
            return Some(0);
        }
        match *self {
            RandGen::FileSource { randnum, randmax } => {
                if randmax < genmax {
                    return None;
                }
                let excess_max = randmax - genmax;
                let excess = excess_max % (genmax + 1);
                if excess <= randmax.wrapping_sub(randnum) {
                    let result = randnum % (genmax + 1);
                    *self = RandGen::FileSource { randnum: randnum / (genmax + 1), randmax: excess_max / (genmax + 1) };
                    proof {
                        vstd::arithmetic::div_mod::lemma_mod_bound(randnum as int, (genmax + 1) as int);
                    }
                    Some(result)
                } else {
                    None
                }
            },
            RandGen::Xorshift { state } => {
                let mut x = state;
                x = x ^ (x << 13u64);
                x = x ^ (x >> 7u64);
                x = x ^ (x << 17u64);
                *self = RandGen::Xorshift { state: x };
                let s: u64 = genmax + 1;
                proof {
                    assert(x as int * s as int <= u128::MAX) by (nonlinear_arith)
                        requires
                            x <= u64::MAX,
                            s <= u64::MAX,
                    ;
                }
                let m: u128 = (x as u128) * (s as u128);
                let low: u64 = #[verifier::truncate] (m as u64);
                let high: u64 = #[verifier::truncate] ((m >> 64u32) as u64);
                proof {
                    assert(m == x as int * s as int);
                    assert(low == m % 0x1_0000_0000_0000_0000) by (bit_vector)
                        requires
                            low == m as u64,
                    ;
                    assert(m >> 64u32 == m / 0x1_0000_0000_0000_0000) by (bit_vector);
                    lemma_high_half_bound(x, s);
                }
                if low < s {
                    let t = 0u64.wrapping_sub(s) % s;
                    if low < t {
                        return None;
                    }
                }
                Some(high)
            },
        }
    }

    /// One attempt at a random number of the range `lo..=hi`: the low end
    /// plus an attempt at a number in `0..=hi - lo`.
    pub fn try_draw_in(&mut self, lo: u64, hi: u64) -> (r: Option<u64>)
        requires
            lo <= hi,
            hi - lo < u64::MAX,
        ensures
            *final(self) == spec_try_gen_max(*old(self), (hi - lo) as u64).1,
            r == (match spec_try_gen_max(*old(self), (hi - lo) as u64).0 {
                Some(d) => Some((lo + d) as u64),
                None => None::<u64>,
            }),
            r matches Some(v) ==> lo <= v <= hi,
    {
        match self.try_gen_max(hi - lo) {
            Some(d) => Some(lo + d),
            None => None,
        }
    }

    /// Takes one byte of the random source into a file-source generator.
    pub fn feed_byte(&mut self, b: u8)
        ensures
            *final(self) == spec_feed_byte(*old(self), b),
    {
        match *self {
            RandGen::FileSource { randnum, randmax } => {
                let n = randnum.wrapping_mul(256).wrapping_add(b as u64);
                let m = randmax.wrapping_mul(256).wrapping_add(255);
                *self = RandGen::FileSource { randnum: n, randmax: m };
            },
            RandGen::Xorshift { .. } => {},
        }
    }
}

/// The bound to draw for an index below `n` (`None` when `n <= 1`, where the
/// index is always 0).
pub fn range_genmax(n: usize) -> (r: Option<u64>)
    ensures
        n <= 1 ==> r is None,
        n > 1 ==> r == Some((n - 1) as u64),
{
    if n <= 1 {
        None
    } else {
        Some((n - 1) as u64)
    }
}


// ---------------------------------------------------------------------------
// Shuffling
// ---------------------------------------------------------------------------

/// The picks drawn for a partial Fisher-Yates shuffle of `n` items fit:
/// pick `i` is below `n - i`.
pub open spec fn picks_fit(picks: Seq<usize>, n: int) -> bool {
    &&& picks.len() <= n
    &&& forall|i: int| 0 <= i < picks.len() ==> (#[trigger] picks[i]) < n - i
}

/// `s` with the entries at `i` and `j` exchanged.
pub open spec fn swapped<T>(s: Seq<T>, i: int, j: int) -> Seq<T> {
    s.update(i, s[j]).update(j, s[i])
}

/// The items after the first `k` rounds of a partial Fisher-Yates shuffle:
/// round `i` exchanges item `i` with item `i + picks[i]`.
pub open spec fn fisher_yates<T>(s: Seq<T>, picks: Seq<usize>, k: int) -> Seq<T>
    decreases k,
{
    if k <= 0 {
        s
    } else {
        let prev = fisher_yates(s, picks, k - 1);
        swapped(prev, k - 1, k - 1 + picks[k - 1])
    }
}

proof fn lemma_fisher_yates_len<T>(s: Seq<T>, picks: Seq<usize>, k: int)
    requires
        picks_fit(picks, s.len() as int),
        k <= picks.len(),
    ensures
        fisher_yates(s, picks, k).len() == s.len(),
    decreases k,
{
    if k > 0 {
        lemma_fisher_yates_len(s, picks, k - 1);
    }
}

/// Exchanging two entries keeps the multiset of entries.
pub proof fn lemma_swap_keeps_multiset<T>(s: Seq<T>, i: int, j: int)
    requires
        0 <= i < s.len(),
        0 <= j < s.len(),
    ensures
        swapped(s, i, j).to_multiset() == s.to_multiset(),
{
    broadcast use vstd::seq_lib::to_multiset_update, vstd::multiset::group_multiset_properties;
    let t = s.update(i, s[j]);
    assert(t[j] == if i == j { s[j] } else { s[j] });
    assert(t.to_multiset() == s.to_multiset().insert(s[j]).remove(s[i]));
    assert(t.update(j, s[i]).to_multiset() == t.to_multiset().insert(s[i]).remove(t[j]));
    let m = s.to_multiset();
    assert(s.contains(s[i]) && s.contains(s[j]));
    vstd::seq_lib::to_multiset_contains(s, s[i]);
    vstd::seq_lib::to_multiset_contains(s, s[j]);
    assert(m.count(s[i]) > 0 && m.count(s[j]) > 0);
    assert(m.insert(s[j]).remove(s[i]).insert(s[i]).remove(s[j]) =~= m);
}

/// Shuffling keeps the items: the result is a permutation of the input.
pub proof fn lemma_fisher_yates_permutes<T>(s: Seq<T>, picks: Seq<usize>, k: int)
    requires
        picks_fit(picks, s.len() as int),
        k <= picks.len(),
    ensures
        fisher_yates(s, picks, k).to_multiset() == s.to_multiset(),
    decreases k,
{
    if k > 0 {
        lemma_fisher_yates_permutes(s, picks, k - 1);
        lemma_fisher_yates_len(s, picks, k - 1);
        lemma_swap_keeps_multiset(fisher_yates(s, picks, k - 1), k - 1, k - 1 + picks[k - 1]);
    }
}

/// Runs `picks.len()` rounds of a partial Fisher-Yates shuffle on `items`:
/// round `i` exchanges item `i` with item `i + picks[i]`. The first rounds'
/// positions then hold a uniformly drawn arrangement when the picks are uniform.
pub fn shuffle_prefix<T: Copy>(items: &mut Vec<T>, picks: &Vec<usize>)
    requires
        picks_fit(picks@, old(items)@.len() as int),
    ensures
        final(items)@ == fisher_yates(old(items)@, picks@, picks@.len() as int),
        final(items)@.to_multiset() == old(items)@.to_multiset(),
{
    let ghost orig = items@;
    let n = items.len();
    let mut i: usize = 0;
    while i < picks.len()
        invariant
            n == orig.len(),
            picks_fit(picks@, orig.len() as int),
            i <= picks@.len(),
            items@ == fisher_yates(orig, picks@, i as int),
            items@.len() == orig.len(),
        decreases picks@.len() - i,
    {
        let j = i + picks[i];
        let a = items[i];
        let b = items[j];
        items.set(i, b);
        items.set(j, a);
        proof {
            lemma_fisher_yates_len(orig, picks@, i + 1);
        }
        i = i + 1;
    }
    proof {
        lemma_fisher_yates_permutes(orig, picks@, picks@.len() as int);
    }
}


// ---------------------------------------------------------------------------
// Lines and output
// ---------------------------------------------------------------------------

/// `spans` split `data` into its lines: consecutive, covering all of `data`,
/// each ending just after a `sep` byte and holding no other, except that the
/// last may end without one.
pub open spec fn line_spans(data: Seq<u8>, sep: u8, spans: Seq<(usize, usize)>) -> bool {
    &&& data.len() == 0 <==> spans.len() == 0
    &&& spans.len() > 0 ==> spans[0].0 == 0 && spans.last().1 == data.len()
    &&& forall|k: int| 0 <= k < spans.len() - 1 ==> (#[trigger] spans[k]).1 == spans[k + 1].0
    &&& forall|k: int| 0 <= k < spans.len() ==> (#[trigger] spans[k]).0 < spans[k].1 <= data.len()
    &&& forall|k: int, i: int| #![trigger spans[k], data[i]] 0 <= k < spans.len() && spans[k].0 <= i < spans[k].1 - 1 ==> data[i] != sep
    &&& forall|k: int| 0 <= k < spans.len() - 1 ==> data[(#[trigger] spans[k]).1 - 1] == sep
}

/// Whether the last line of `data` lacks its terminating `sep`.
pub open spec fn last_unterminated(data: Seq<u8>, sep: u8) -> bool {
    data.len() > 0 && data.last() != sep
}

/// Splits `data` into lines that end with `sep` (the last one may not), and
/// tells whether the last line is unterminated.
pub fn split_lines(data: &[u8], sep: u8) -> (r: (Vec<(usize, usize)>, bool))
    ensures
        line_spans(data@, sep, r.0@),
        r.1 == last_unterminated(data@, sep),
{
    let mut spans: Vec<(usize, usize)> = Vec::new();
    let mut start: usize = 0;
    let n = data.len();
    loop
        invariant
            n == data@.len(),
            start <= data@.len(),
            spans@.len() == 0 <==> start == 0,
            spans@.len() > 0 ==> spans@[0].0 == 0 && spans@.last().1 == start && data@[start - 1] == sep,
            forall|k: int| 0 <= k < spans@.len() - 1 ==> (#[trigger] spans@[k]).1 == spans@[k + 1].0,
            forall|k: int| 0 <= k < spans@.len() ==> (#[trigger] spans@[k]).0 < spans@[k].1 <= data@.len(),
            forall|k: int, i: int| #![trigger spans@[k], data@[i]] 0 <= k < spans@.len() && spans@[k].0 <= i < spans@[k].1 - 1 ==> data@[i] != sep,
            forall|k: int| 0 <= k < spans@.len() ==> data@[(#[trigger] spans@[k]).1 - 1] == sep,
        decreases data@.len() - start,
    {
        proof {
            lemma_first_index_from(data@, sep, start as int);
        }
        match find_byte_from(sep, data, start) {
            Some(p) => {
                let ghost old_spans = spans@;
                spans.push((start, p + 1));
                proof {
                    assert forall|k: int, i: int| #![trigger spans@[k], data@[i]] 0 <= k < spans@.len() && spans@[k].0 <= i < spans@[k].1 - 1 implies data@[i] != sep by {
                        if k < old_spans.len() {
                            assert(spans@[k] == old_spans[k]);
                        }
                    }
                }
                start = p + 1;
            },
            None => {
                let unterminated = start < data.len();
                if unterminated {
                    let ghost old_spans = spans@;
                    spans.push((start, data.len()));
                    proof {
                        assert forall|k: int, i: int| #![trigger spans@[k], data@[i]] 0 <= k < spans@.len() && spans@[k].0 <= i < spans@[k].1 - 1 implies data@[i] != sep by {
                            if k < old_spans.len() {
                                assert(spans@[k] == old_spans[k]);
                            }
                        }
                        assert(data@[data@.len() - 1] != sep);
                    }
                } else {
                    proof {
                        if data@.len() > 0 {
                            assert(spans@.len() > 0);
                            assert(data@[data@.len() - 1] == sep);
                        }
                    }
                }
                return (spans, unterminated);
            },
        }
    }
}

/// The bytes written for a line: the line itself, and the delimiter after an
/// unterminated last line.
pub open spec fn line_out(data: Seq<u8>, sp: (usize, usize), delim: u8, last_unterm: bool) -> Seq<u8> {
    let body = data.subrange(sp.0 as int, sp.1 as int);
    if last_unterm && sp.1 == data.len() { body.push(delim) } else { body }
}

/// The bytes written for the first `k` lines of `spans`.
pub open spec fn lines_out(data: Seq<u8>, spans: Seq<(usize, usize)>, k: int, delim: u8, last_unterm: bool) -> Seq<u8>
    decreases k,
{
    if k <= 0 {
        Seq::empty()
    } else {
        lines_out(data, spans, k - 1, delim, last_unterm) + line_out(data, spans[k - 1], delim, last_unterm)
    }
}

/// Writes the first `count` lines given by `spans` (each a span of `data`),
/// adding the delimiter after the unterminated last line of the input.
pub fn render_lines(data: &[u8], spans: &Vec<(usize, usize)>, count: usize, delim: u8, last_unterm: bool) -> (r: Vec<u8>)
    requires
        count <= spans@.len(),
        forall|k: int| 0 <= k < spans@.len() ==> (#[trigger] spans@[k]).0 <= spans@[k].1 <= data@.len(),
    ensures
        r@ == lines_out(data@, spans@, count as int, delim, last_unterm),
{
    let mut out: Vec<u8> = Vec::new();
    let mut k: usize = 0;
    while k < count
        invariant
            k <= count <= spans@.len(),
            forall|j: int| 0 <= j < spans@.len() ==> (#[trigger] spans@[j]).0 <= spans@[j].1 <= data@.len(),
            out@ == lines_out(data@, spans@, k as int, delim, last_unterm),
        decreases count - k,
    {
        let (s, e) = spans[k];
        assert(spans@[k as int].0 <= spans@[k as int].1 <= data@.len());
        out.extend_from_slice(&data[s..e]);
        if last_unterm && e == data.len() {
            out.push(delim);
        }
        proof {
            let lo = line_out(data@, spans@[k as int], delim, last_unterm);
            assert(out@ =~= lines_out(data@, spans@, k as int, delim, last_unterm) + lo);
        }
        k = k + 1;
    }
    out
}

/// The bytes written for the first `k` numbers: each in decimal, then the delimiter.
pub open spec fn numbers_out(values: Seq<u64>, k: int, delim: u8) -> Seq<u8>
    decreases k,
{
    if k <= 0 {
        Seq::empty()
    } else {
        numbers_out(values, k - 1, delim) + decimal(values[k - 1] as nat).push(delim)
    }
}

/// Writes the first `count` numbers in decimal, each followed by the delimiter.
pub fn render_numbers(values: &Vec<u64>, count: usize, delim: u8) -> (r: Vec<u8>)
    requires
        count <= values@.len(),
    ensures
        r@ == numbers_out(values@, count as int, delim),
{
    let mut out: Vec<u8> = Vec::new();
    let mut k: usize = 0;
    while k < count
        invariant
            k <= count <= values@.len(),
            out@ == numbers_out(values@, k as int, delim),
        decreases count - k,
    {
        let d = u64_to_decimal(values[k]);
        out.extend_from_slice(d.as_slice());
        out.push(delim);
        proof {
            assert(out@ =~= numbers_out(values@, k as int, delim) + decimal(values@[k as int] as nat).push(delim));
        }
        k = k + 1;
    }
    out
}

/// The numbers `lo..=hi`, in order.
pub fn range_values(lo: u64, hi: u64) -> (r: Vec<u64>)
    requires
        lo <= hi,
        hi - lo < usize::MAX,
    ensures
        r@.len() == hi - lo + 1,
        forall|i: int| 0 <= i < r@.len() ==> #[trigger] r@[i] == lo + i,
{
    let mut v: Vec<u64> = Vec::new();
    let mut x = lo;
    loop
        invariant
            lo <= x <= hi,
            v@.len() == x - lo,
            forall|i: int| 0 <= i < v@.len() ==> #[trigger] v@[i] == lo + i,
        decreases hi - x,
    {
        v.push(x);
        if x == hi {
            return v;
        }
        x = x + 1;
    }
}


// ---------------------------------------------------------------------------
// Plans
// ---------------------------------------------------------------------------

/// How many of `n` items a non-repeating shuffle outputs: the head count
/// when one was given and is smaller, else all of them.
pub open spec fn spec_output_count(head_count: Option<usize>, n: usize) -> usize {
    match head_count {
        Some(c) => if c < n { c } else { n },
        None => n,
    }
}

/// How many of `n` items a non-repeating shuffle outputs.
pub fn output_count(head_count: Option<usize>, n: usize) -> (r: usize)
    ensures
        r == spec_output_count(head_count, n),
        r <= n,
{
    match head_count {
        Some(c) => if c < n { c } else { n },
        None => n,
    }
}

/// A non-repeating shuffle outputs the smaller of the head count and the
/// number of items, and all items when no head count was given: never more
/// than either, and exactly one of them.
pub proof fn lemma_output_count_is_min(head_count: Option<usize>, n: usize)
    ensures
        spec_output_count(head_count, n) <= n,
        head_count matches Some(c) ==> spec_output_count(head_count, n) <= c,
        spec_output_count(head_count, n) == n || head_count == Some(spec_output_count(head_count, n)),
{
}

/// How many items a repeating shuffle outputs: the head count, or without
/// one as many as `usize` counts.
pub fn repeat_count(head_count: Option<usize>) -> (r: usize)
    ensures
        r == (match head_count {
            Some(c) => c,
            None => usize::MAX,
        }),
{
    match head_count {
        Some(c) => c,
        None => usize::MAX,
    }
}

/// How the numbers of an input range are produced.
#[derive(Clone, Copy, Debug, PartialEq, Eq, Structural)]
pub enum RangePlan {
    /// Nothing is output.
    Empty,
    /// This many independent draws from the whole range.
    Repeat(usize),
    /// This many distinct numbers drawn one at a time, for a count that is
    /// small beside the range.
    Sparse(usize),
    /// This many rounds of a partial Fisher-Yates shuffle of the whole range.
    Dense(usize),
}

/// The number of values in `lo..=hi`, computed in 64 bits: 0 stands for the
/// whole 64-bit range, whose size does not fit.
pub open spec fn spec_range_size(lo: u64, hi: u64) -> u64 {
    ((hi - lo + 1) % 0x1_0000_0000_0000_0000) as u64
}

/// Whether a count is small enough beside a range size to draw it number by number.
pub open spec fn is_sparse(count: usize, size: u64) -> bool {
    (count as u64) < size / 10 || (count < 10000 && size > 1_000_000)
}

/// The plan for the range `lo..=hi` with a head count and repetition.
pub open spec fn spec_range_plan(lo: u64, hi: u64, head_count: Option<usize>, repeat: bool) -> RangePlan {
    let size = spec_range_size(lo, hi);
    if repeat {
        let count = match head_count {
            Some(c) => c,
            None => usize::MAX,
        };
        if count == 0 || size == 0 { RangePlan::Empty } else { RangePlan::Repeat(count) }
    } else if size == 0 {
        RangePlan::Empty
    } else {
        let count = spec_output_count(head_count, size as usize);
        if count == 0 {
            RangePlan::Empty
        } else if is_sparse(count, size) {
            RangePlan::Sparse(count)
        } else {
            RangePlan::Dense(count)
        }
    }
}

/// The number of values in `lo..=hi` (0 for the whole 64-bit range).
pub fn range_size(lo: u64, hi: u64) -> (r: u64)
    requires
        lo <= hi,
    ensures
        r == spec_range_size(lo, hi),
        r == 0 <==> (lo == 0 && hi == u64::MAX),
        r != 0 ==> r == hi - lo + 1,
{
    (hi - lo).wrapping_add(1)
}

/// Decides how to produce the numbers of the range `lo..=hi`.
pub fn range_plan(lo: u64, hi: u64, head_count: Option<usize>, repeat: bool) -> (r: RangePlan)
    requires
        lo <= hi,
    ensures
        r == spec_range_plan(lo, hi, head_count, repeat),
        r matches RangePlan::Sparse(c) ==> 0 < c && c as u64 <= spec_range_size(lo, hi),
        r matches RangePlan::Dense(c) ==> 0 < c && c as u64 <= spec_range_size(lo, hi),
{
    let size = range_size(lo, hi);
    if repeat {
        let count = repeat_count(head_count);
        if count == 0 || size == 0 { RangePlan::Empty } else { RangePlan::Repeat(count) }
    } else if size == 0 {
        RangePlan::Empty
    } else {
        let n: usize = #[verifier::truncate] (size as usize);
        let count = output_count(head_count, n);
        if count == 0 {
            RangePlan::Empty
        } else if (count as u64) < size / 10 || (count < 10000 && size > 1_000_000) {
            RangePlan::Sparse(count)
        } else {
            RangePlan::Dense(count)
        }
    }
}

/// Distinct numbers of the range `lo..=hi` drawn one at a time, in the order
/// they were first drawn.
pub struct SparsePicker {
    seen: std::collections::HashSet<u64>,
    chosen: Vec<u64>,
    target: usize,
    lo: u64,
    hi: u64,
}

impl SparsePicker {
    /// The numbers chosen so far, in order.
    pub closed spec fn chosen(&self) -> Seq<u64> {
        self.chosen@
    }

    /// How many numbers are wanted.
    pub closed spec fn target(&self) -> usize {
        self.target
    }

    /// The smallest number of the range.
    pub closed spec fn low(&self) -> u64 {
        self.lo
    }

    /// The largest number of the range.
    pub closed spec fn high(&self) -> u64 {
        self.hi
    }

    /// The set of numbers seen agrees with the list chosen, which has no
    /// repeats and lies in the range.
    pub closed spec fn wf(&self) -> bool {
        &&& self.seen@ == self.chosen@.to_set()
        &&& self.chosen@.no_duplicates()
        &&& self.chosen@.len() <= self.target
        &&& forall|k: int| 0 <= k < self.chosen@.len() ==> self.lo <= #[trigger] self.chosen@[k] <= self.hi
    }

    /// A picker that wants `target` distinct numbers of `lo..=hi` and has none yet.
    pub fn new(target: usize, lo: u64, hi: u64) -> (r: SparsePicker)
        ensures
            r.wf(),
            r.chosen() == Seq::<u64>::empty(),
            r.target() == target,
            r.low() == lo,
            r.high() == hi,
    {
        let r = SparsePicker { seen: std::collections::HashSet::new(), chosen: Vec::new(), target, lo, hi };
        assert(r.chosen@.to_set() =~= Set::<u64>::empty());
        r
    }

    /// Whether enough numbers have been chosen.
    pub fn is_done(&self) -> (r: bool)
        requires
            self.wf(),
        ensures
            r == (self.chosen().len() >= self.target()),
    {
        self.chosen.len() >= self.target
    }

    /// Offers a drawn number of the range: it is kept when it is new and more
    /// are wanted.
    pub fn offer(&mut self, v: u64) -> (kept: bool)
        requires
            old(self).wf(),
            old(self).low() <= v <= old(self).high(),
        ensures
            final(self).wf(),
            final(self).target() == old(self).target(),
            final(self).low() == old(self).low(),
            final(self).high() == old(self).high(),
            kept == (!old(self).chosen().contains(v) && old(self).chosen().len() < old(self).target()),
            final(self).chosen() == (if kept { old(self).chosen().push(v) } else { old(self).chosen() }),
    {
        broadcast use vstd::std_specs::hash::group_hash_axioms;
        if self.chosen.len() >= self.target {
            return false;
        }
        assert(self.seen@.contains(v) == self.chosen@.contains(v)) by {
            if self.chosen@.contains(v) {
                let k = choose|k: int| 0 <= k < self.chosen@.len() && self.chosen@[k] == v;
                assert(self.chosen@.to_set().contains(self.chosen@[k]));
            }
        }
        let fresh = self.seen.insert(v);
        if fresh {
            let ghost before = self.chosen@;
            self.chosen.push(v);
            proof {
                assert(self.chosen@ == before.push(v));
                assert forall|a: u64| #[trigger] self.chosen@.to_set().contains(a) == before.to_set().insert(v).contains(a) by {
                    if self.chosen@.contains(a) {
                        let k = choose|k: int| 0 <= k < self.chosen@.len() && self.chosen@[k] == a;
                        if k < before.len() {
                            assert(before[k] == a);
                        }
                    }
                    if before.contains(a) {
                        let k = choose|k: int| 0 <= k < before.len() && before[k] == a;
                        assert(self.chosen@[k] == a);
                    }
                    if a == v {
                        assert(self.chosen@[before.len() as int] == v);
                    }
                }
                assert(self.chosen@.to_set() =~= before.to_set().insert(v));
                assert(self.seen@ =~= self.chosen@.to_set());
                assert forall|a: int, b: int| 0 <= a < b < self.chosen@.len() implies self.chosen@[a] != self.chosen@[b] by {
                    if b == self.chosen@.len() - 1 {
                        assert(before.contains(before[a]));
                    }
                }
            }
        } else {
            assert(self.seen@ =~= self.chosen@.to_set());
        }
        fresh
    }

    /// The numbers chosen, in the order they were drawn.
    pub fn into_values(self) -> (r: Vec<u64>)
        requires
            self.wf(),
        ensures
            r@ == self.chosen(),
            r@.no_duplicates(),
            forall|k: int| 0 <= k < r@.len() ==> self.low() <= #[trigger] r@[k] <= self.high(),
    {
        self.chosen
    }
}

} // verus!
