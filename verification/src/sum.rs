//! The two classic 16-bit file checksums and their block counts: the BSD
//! rotating checksum (1024-byte blocks) and the System V byte sum (512-byte
//! blocks), and the lines that report them.

use vstd::prelude::*;
use vstd::string::*;
use crate::decimal::{decimal, u64_to_decimal};

verus! {

/// Which checksum to compute.
#[derive(Clone, Copy, Debug, PartialEq, Eq, Structural)]
pub enum Algorithm {
    /// The BSD rotating checksum (`-r`, the default).
    Bsd,
    /// The System V sum (`-s`, `--sysv`).
    SysV,
}

/// One step of the BSD checksum: rotate the 16-bit value right by one bit,
/// then add the byte, keeping 16 bits.
pub open spec fn bsd_step(c: int, b: u8) -> int {
    (c / 2 + (c % 2) * 0x8000 + b) % 0x10000
}

/// The BSD checksum of `s`.
pub open spec fn bsd_sum(s: Seq<u8>) -> int
    decreases s.len(),
{
    if s.len() == 0 {
        0
    } else {
        bsd_step(bsd_sum(s.drop_last()), s.last())
    }
}

/// The sum of the bytes of `s`.
pub open spec fn byte_sum(s: Seq<u8>) -> nat
    decreases s.len(),
{
    if s.len() == 0 {
        0
    } else {
        byte_sum(s.drop_last()) + s.last() as nat
    }
}

/// The System V checksum of a byte sum: the sum modulo 65535.
pub open spec fn sysv_of(total: nat) -> int {
    total as int % 65535
}

/// The number of `size`-byte blocks that `n` bytes occupy, a partial block
/// counting as one.
pub open spec fn blocks_of(n: int, size: int) -> int {
    (n + size - 1) / size
}

proof fn lemma_bsd_step_bound(c: int, b: u8)
    requires
        0 <= c < 0x10000,
    ensures
        0 <= bsd_step(c, b) < 0x10000,
{
}

/// Computes the BSD checksum of `data` and its number of 1024-byte blocks.
pub fn bsd_checksum(data: &[u8]) -> (r: (u32, u64))
    ensures
        r.0 == bsd_sum(data@),
        r.1 == blocks_of(data@.len() as int, 1024),
        r.0 < 0x10000,
{
    let mut checksum: u32 = 0;
    let mut i: usize = 0;
    while i < data.len()
        invariant
            i <= data.len(),
            checksum == bsd_sum(data@.subrange(0, i as int)),
            checksum < 0x10000,
        decreases data.len() - i,
    {
        let b = data[i];
        proof {
            assert(data@.subrange(0, i + 1).drop_last() =~= data@.subrange(0, i as int));
            assert((checksum >> 1u32) == checksum / 2) by (bit_vector);
            assert((checksum & 1u32) == checksum % 2) by (bit_vector);
            assert(((checksum & 1u32) << 15u32) == (checksum & 1u32) * 0x8000) by (bit_vector)
                requires
                    (checksum & 1u32) <= 1,
            ;
            assert((checksum & 1u32) <= 1) by (bit_vector);
        }
        let rotated: u32 = (checksum >> 1u32) + ((checksum & 1u32) << 15u32);
        let sum: u32 = rotated + b as u32;
        checksum = sum & 0xFFFFu32;
        proof {
            assert(sum & 0xFFFFu32 == sum % 0x10000) by (bit_vector);
            lemma_bsd_step_bound(bsd_sum(data@.subrange(0, i as int)), b);
        }
        i = i + 1;
    }
    assert(data@.subrange(0, data.len() as int) =~= data@);
    let n = data.len() as u64;
    let blocks = n / 1024 + if n % 1024 == 0 { 0 } else { 1 };
    (checksum, blocks)
}

/// Whether the byte sum of `data` fits in 32 bits, where the System V
/// checksum accumulates it.
pub open spec fn sysv_fits(data: Seq<u8>) -> bool {
    byte_sum(data) <= u32::MAX
}

proof fn lemma_byte_sum_prefix_monotone(s: Seq<u8>, i: int)
    requires
        0 <= i <= s.len(),
    ensures
        byte_sum(s.subrange(0, i)) <= byte_sum(s),
    decreases s.len() - i,
{
    if i < s.len() {
        lemma_byte_sum_prefix_monotone(s, i + 1);
        assert(s.subrange(0, i + 1).drop_last() =~= s.subrange(0, i));
    } else {
        assert(s.subrange(0, i) =~= s);
    }
}

/// Computes the System V checksum of `data` and its number of 512-byte blocks.
pub fn sysv_checksum(data: &[u8]) -> (r: (u32, u64))
    requires
        sysv_fits(data@),
    ensures
        r.0 == sysv_of(byte_sum(data@)),
        r.1 == blocks_of(data@.len() as int, 512),
        r.0 < 65535,
{
    let mut sum: u32 = 0;
    let mut i: usize = 0;
    while i < data.len()
        invariant
            i <= data.len(),
            sum == byte_sum(data@.subrange(0, i as int)),
            sysv_fits(data@),
        decreases data.len() - i,
    {
        proof {
            assert(data@.subrange(0, i + 1).drop_last() =~= data@.subrange(0, i as int));
            lemma_byte_sum_prefix_monotone(data@, i + 1);
        }
        sum = sum + data[i] as u32;
        i = i + 1;
    }
    assert(data@.subrange(0, data.len() as int) =~= data@);
    let r2: u32 = sum % 65535;
    let n = data.len() as u64;
    let blocks = n / 512 + if n % 512 == 0 { 0 } else { 1 };
    (r2, blocks)
}

/// The checksum and block count of `data` by the chosen algorithm.
pub fn process_input(data: &[u8], algorithm: Algorithm) -> (r: (u32, u64))
    requires
        algorithm == Algorithm::SysV ==> sysv_fits(data@),
    ensures
        algorithm == Algorithm::Bsd ==> r == bsd_checksum_spec(data@),
        algorithm == Algorithm::SysV ==> r == sysv_checksum_spec(data@),
{
    match algorithm {
        Algorithm::Bsd => bsd_checksum(data),
        Algorithm::SysV => sysv_checksum(data),
    }
}

/// The BSD checksum and 1024-byte block count of `s`.
pub open spec fn bsd_checksum_spec(s: Seq<u8>) -> (u32, u64) {
    (bsd_sum(s) as u32, blocks_of(s.len() as int, 1024) as u64)
}

/// The System V checksum and 512-byte block count of `s`.
pub open spec fn sysv_checksum_spec(s: Seq<u8>) -> (u32, u64) {
    (sysv_of(byte_sum(s)) as u32, blocks_of(s.len() as int, 512) as u64)
}

/// `s` padded on the left with `fill` to at least `width` bytes.
pub open spec fn pad_left(s: Seq<u8>, width: int, fill: u8) -> Seq<u8> {
    if s.len() >= width {
        s
    } else {
        Seq::new((width - s.len()) as nat, |i: int| fill) + s
    }
}

/// Pads `s` on the left with `fill` to at least `width` bytes.
pub fn pad_left_bytes(s: &[u8], width: usize, fill: u8) -> (r: Vec<u8>)
    ensures
        r@ == pad_left(s@, width as int, fill),
{
    let mut out: Vec<u8> = Vec::new();
    let mut k: usize = s.len();
    while k < width
        invariant
            s.len() <= k <= width || (k == s.len() && s.len() >= width),
            out@ =~= Seq::new((k - s.len()) as nat, |i: int| fill),
        decreases width - k,
    {
        out.push(fill);
        k = k + 1;
    }
    let mut j: usize = 0;
    let ghost pad = out@;
    while j < s.len()
        invariant
            j <= s.len(),
            out@ =~= pad + s@.subrange(0, j as int),
        decreases s.len() - j,
    {
        out.push(s[j]);
        j = j + 1;
    }
    assert(s@.subrange(0, s.len() as int) =~= s@);
    out
}

/// Whether `name` is `-`, standard input.
pub open spec fn is_stdin_name(name: Seq<u8>) -> bool {
    name =~= seq![45u8]
}

/// The line reported for one input: the checksum (BSD: zero-padded to five
/// digits) and the block count (BSD: right-aligned in five columns), then the
/// name unless it is standard input given alone, then a newline.
pub open spec fn sum_line(algorithm: Algorithm, checksum: u32, blocks: u64, name: Seq<u8>, multiple: bool) -> Seq<u8> {
    let c = decimal(checksum as nat);
    let b = decimal(blocks as nat);
    let nums = if algorithm == Algorithm::Bsd {
        pad_left(c, 5, 48) + seq![32u8] + pad_left(b, 5, 32)
    } else {
        c + seq![32u8] + b
    };
    let shown = if is_stdin_name(name) && !multiple { Seq::<u8>::empty() } else { seq![32u8] + name };
    nums + shown + seq![10u8]
}

/// Writes the report line for one input.
pub fn format_sum_line(algorithm: Algorithm, checksum: u32, blocks: u64, name: &str, multiple: bool) -> (r: Vec<u8>)
    ensures
        r@ == sum_line(algorithm, checksum, blocks, name.spec_bytes(), multiple),
{
    let c = u64_to_decimal(checksum as u64);
    let b = u64_to_decimal(blocks);
    let mut out: Vec<u8> = if algorithm == Algorithm::Bsd {
        let mut v = pad_left_bytes(c.as_slice(), 5, 48u8);
        v.push(32u8);
        let pb = pad_left_bytes(b.as_slice(), 5, 32u8);
        v.extend_from_slice(pb.as_slice());
        v
    } else {
        let mut v = c;
        v.push(32u8);
        v.extend_from_slice(b.as_slice());
        v
    };
    let ghost nums = out@;
    let nb = name.as_bytes();
    let stdin_alone = nb.len() == 1 && nb[0] == 45u8 && !multiple;
    assert(stdin_alone == (is_stdin_name(nb@) && !multiple));
    if !stdin_alone {
        out.push(32u8);
        out.extend_from_slice(nb);
    }
    out.push(10u8);
    assert(out@ =~= sum_line(algorithm, checksum, blocks, name.spec_bytes(), multiple));
    out
}

/// The block count is the least number of blocks that holds every byte.
pub proof fn lemma_blocks_cover(n: nat, size: nat)
    requires
        size > 0,
    ensures
        blocks_of(n as int, size as int) * size >= n,
        n > 0 ==> (blocks_of(n as int, size as int) - 1) * size < n,
        blocks_of(n as int, size as int) == 0 <==> n == 0,
{
    let b = blocks_of(n as int, size as int);
    let m = n + size - 1;
    vstd::arithmetic::div_mod::lemma_fundamental_div_mod(m as int, size as int);
    assert(m == b * size + m % (size as int));
    assert(0 <= m % (size as int) < size);
    assert(b * size + m % (size as int) == n + size - 1);
    if n == 0 {
        assert(b == 0) by {
            vstd::arithmetic::div_mod::lemma_basic_div(size - 1, size as int);
        }
    }
    assert(b >= 0) by {
        vstd::arithmetic::div_mod::lemma_div_pos_is_pos(m as int, size as int);
    }
    assert((b - 1) * size == b * size - size) by (nonlinear_arith);
    if n > 0 && b == 0 {
        assert(b * size == 0) by (nonlinear_arith)
            requires
                b == 0,
        ;
    }
}

} // verus!
