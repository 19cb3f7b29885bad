//! Size specifications for shrinking or extending files: `[+-<>/%]NUMBER[SUFFIX]`,
//! and the new size a specification gives a file of a known size.

use vstd::prelude::*;
use vstd::string::*;
use crate::decimal::{parse_u64, spec_parse_u64};
use crate::text::{is_continuation, leading_ws_len, trim_start};

verus! {

/// How a size specification adjusts a file's size.
#[derive(Clone, Copy, Debug, PartialEq, Eq, Structural)]
pub enum SizeMode {
    /// Set to exactly N bytes.
    Absolute,
    /// Extend by N bytes (`+`).
    Extend,
    /// Shrink by N bytes (`-`).
    Shrink,
    /// At most N bytes (`<`).
    AtMost,
    /// At least N bytes (`>`).
    AtLeast,
    /// Round down to a multiple of N (`/`).
    RoundDown,
    /// Round up to a multiple of N (`%`).
    RoundUp,
}

/// Why a size specification was refused.
#[derive(Clone, Copy, Debug, PartialEq, Eq, Structural)]
pub enum SizeError {
    /// Nothing but white space was given.
    Empty,
    /// The number is missing, malformed, or a zero divisor.
    InvalidNumber,
    /// The number times its suffix does not fit in 64 bits.
    Overflow,
}

/// The mode that a leading byte selects, if it is a mode character.
pub open spec fn mode_of_byte(b: u8) -> Option<SizeMode> {
    if b == 43 {
        Some(SizeMode::Extend)
    } else if b == 45 {
        Some(SizeMode::Shrink)
    } else if b == 60 {
        Some(SizeMode::AtMost)
    } else if b == 62 {
        Some(SizeMode::AtLeast)
    } else if b == 47 {
        Some(SizeMode::RoundDown)
    } else if b == 37 {
        Some(SizeMode::RoundUp)
    } else {
        None
    }
}

/// `base` raised to the power `e`.
pub open spec fn pow_u(base: nat, e: nat) -> nat
    decreases e,
{
    if e == 0 {
        1
    } else {
        base * pow_u(base, (e - 1) as nat)
    }
}

/// The position (1 for K, up to 6 for E) of a unit letter.
pub open spec fn unit_rank(b: u8) -> nat {
    if b == 75 {
        1
    } else if b == 77 {
        2
    } else if b == 71 {
        3
    } else if b == 84 {
        4
    } else if b == 80 {
        5
    } else if b == 69 {
        6
    } else {
        0
    }
}

/// The multiplier and byte length of the size suffix that ends `s`:
/// `KB`, `MB`, ... `EB` are powers of 1000; `K`, `M`, ... `E` powers of 1024.
pub open spec fn spec_size_suffix(s: Seq<u8>) -> Option<(u64, usize)> {
    if s.len() >= 2 && s[s.len() - 1] == 66 && unit_rank(s[s.len() - 2]) > 0 {
        Some((pow_u(1000, unit_rank(s[s.len() - 2])) as u64, 2usize))
    } else if s.len() >= 1 && unit_rank(s[s.len() - 1]) > 0 {
        Some((pow_u(1024, unit_rank(s[s.len() - 1])) as u64, 1usize))
    } else {
        None
    }
}

/// The result of parsing the size specification `s` (as UTF-8 bytes).
pub open spec fn spec_parse_size(s: Seq<u8>) -> Result<(SizeMode, u64), SizeError> {
    let t = trim_start(s);
    if t.len() == 0 {
        Err(SizeError::Empty)
    } else {
        let mode = match mode_of_byte(t[0]) {
            Some(m) => m,
            None => SizeMode::Absolute,
        };
        let rest = if mode_of_byte(t[0]).is_some() { t.drop_first() } else { t };
        if rest.len() == 0 {
            Err(SizeError::InvalidNumber)
        } else if mode != SizeMode::Absolute && mode_of_byte(rest[0]).is_some() {
            Err(SizeError::InvalidNumber)
        } else {
            let (mult, slen) = match spec_size_suffix(rest) {
                Some(p) => p,
                None => (1u64, 0usize),
            };
            let num = rest.subrange(0, rest.len() - slen);
            if num.len() == 0 {
                Err(SizeError::InvalidNumber)
            } else {
                match spec_parse_u64(num) {
                    None => Err(SizeError::InvalidNumber),
                    Some(v) => if v * mult > u64::MAX {
                        Err(SizeError::Overflow)
                    } else if (mode == SizeMode::RoundDown || mode == SizeMode::RoundUp) && v
                        * mult == 0 {
                        Err(SizeError::InvalidNumber)
                    } else {
                        Ok((mode, (v * mult) as u64))
                    },
                }
            }
        }
    }
}

/// The inputs on which parsing a size slices text inside a character: the
/// two-letter suffix check takes the last two bytes, and panics when the
/// second-to-last byte continues a multi-byte character.
pub open spec fn suffix_check_splits_char(s: Seq<u8>) -> bool {
    s.len() >= 2 && is_continuation(s[s.len() - 2])
}

/// The inputs on which parsing a size reaches the suffix check with text
/// whose second-to-last byte continues a multi-byte character, where slicing
/// the last two bytes panics.
pub open spec fn size_parse_splits_char(s: Seq<u8>) -> bool {
    let t = trim_start(s);
    let rest = size_number_part(s);
    &&& t.len() > 0
    &&& rest.len() > 0
    &&& !(mode_of_byte(t[0]).is_some() && mode_of_byte(rest[0]).is_some())
    &&& suffix_check_splits_char(rest)
}

/// The text after the mode character of a size specification.
pub open spec fn size_number_part(s: Seq<u8>) -> Seq<u8> {
    let t = trim_start(s);
    if t.len() > 0 && mode_of_byte(t[0]).is_some() { t.drop_first() } else { t }
}

/// The new size of a file of `current` bytes under a size specification.
pub open spec fn spec_new_size(current: u64, mode: SizeMode, size: u64) -> int {
    match mode {
        SizeMode::Absolute => size as int,
        SizeMode::Extend => if current + size > u64::MAX { u64::MAX as int } else { current + size },
        SizeMode::Shrink => if current < size { 0 } else { current - size },
        SizeMode::AtMost => if current > size { size as int } else { current as int },
        SizeMode::AtLeast => if current < size { size as int } else { current as int },
        SizeMode::RoundDown => if size == 0 { current as int } else { (current / size) * size },
        SizeMode::RoundUp => if size == 0 || current % size == 0 {
            current as int
        } else {
            current + (size - current % size)
        },
    }
}

fn pow_step(base: u64, e: u64, acc: u64) -> (r: u64)
    requires
        acc as nat == pow_u(base as nat, e as nat),
        pow_u(base as nat, (e + 1) as nat) <= u64::MAX,
    ensures
        r as nat == pow_u(base as nat, (e + 1) as nat),
{
    proof {
        assert(pow_u(base as nat, (e + 1) as nat) == base * pow_u(base as nat, e as nat));
        vstd::arithmetic::mul::lemma_mul_is_commutative(base as int, acc as int);
    }
    acc * base
}

proof fn lemma_pow_values()
    ensures
        pow_u(1000, 1) == 1000,
        pow_u(1000, 2) == 1000000,
        pow_u(1000, 3) == 1000000000,
        pow_u(1000, 4) == 1000000000000,
        pow_u(1000, 5) == 1000000000000000,
        pow_u(1000, 6) == 1000000000000000000,
        pow_u(1024, 1) == 1024,
        pow_u(1024, 2) == 1048576,
        pow_u(1024, 3) == 1073741824,
        pow_u(1024, 4) == 1099511627776,
        pow_u(1024, 5) == 1125899906842624,
        pow_u(1024, 6) == 1152921504606846976,
{
    reveal_with_fuel(pow_u, 7);
}

fn unit_rank_exec(b: u8) -> (r: u64)
    ensures
        r == unit_rank(b),
{
    if b == 75u8 {
        1
    } else if b == 77u8 {
        2
    } else if b == 71u8 {
        3
    } else if b == 84u8 {
        4
    } else if b == 80u8 {
        5
    } else if b == 69u8 {
        6
    } else {
        0
    }
}

fn unit_multiplier(base: u64, rank: u64) -> (r: u64)
    requires
        base == 1000 || base == 1024,
        1 <= rank <= 6,
    ensures
        r as nat == pow_u(base as nat, rank as nat),
{
    proof { lemma_pow_values(); }
    if base == 1000 {
        if rank == 1 { 1000 } else if rank == 2 { 1000000 } else if rank == 3 { 1000000000 }
        else if rank == 4 { 1000000000000 } else if rank == 5 { 1000000000000000 }
        else { 1000000000000000000 }
    } else {
        if rank == 1 { 1024 } else if rank == 2 { 1048576 } else if rank == 3 { 1073741824 }
        else if rank == 4 { 1099511627776 } else if rank == 5 { 1125899906842624 }
        else { 1152921504606846976 }
    }
}

fn size_suffix_bytes(s: &[u8]) -> (r: Option<(u64, usize)>)
    ensures
        r == spec_size_suffix(s@),
{
    let n = s.len();
    if n >= 2 && s[n - 1] == 66u8 {
        let rank = unit_rank_exec(s[n - 2]);
        if rank > 0 {
            return Some((unit_multiplier(1000, rank), 2));
        }
    }
    if n >= 1 {
        let rank = unit_rank_exec(s[n - 1]);
        if rank > 0 {
            return Some((unit_multiplier(1024, rank), 1));
        }
    }
    None
}

/// The multiplier and length of the unit suffix ending `s` (`KB` = 1000,
/// `K` = 1024, and so on up to `EB` and `E`), if it has one.
pub fn parse_size_suffix(s: &str) -> (r: Option<(u64, usize)>)
    requires
        !suffix_check_splits_char(s.spec_bytes()),
    ensures
        r == spec_size_suffix(s.spec_bytes()),
{
    size_suffix_bytes(s.as_bytes())
}

fn mode_of_byte_exec(b: u8) -> (r: Option<SizeMode>)
    ensures
        r == mode_of_byte(b),
{
    if b == 43u8 {
        Some(SizeMode::Extend)
    } else if b == 45u8 {
        Some(SizeMode::Shrink)
    } else if b == 60u8 {
        Some(SizeMode::AtMost)
    } else if b == 62u8 {
        Some(SizeMode::AtLeast)
    } else if b == 47u8 {
        Some(SizeMode::RoundDown)
    } else if b == 37u8 {
        Some(SizeMode::RoundUp)
    } else {
        None
    }
}

/// Parses a size specification: optional leading white space, an optional
/// mode character (`+ - < > / %`), a decimal number and an optional unit suffix.
pub fn parse_size(s: &str) -> (r: Result<(SizeMode, u64), SizeError>)
    requires
        !size_parse_splits_char(s.spec_bytes()),
    ensures
        r == spec_parse_size(s.spec_bytes()),
        r matches Ok((m, v)) ==> (m == SizeMode::RoundDown || m == SizeMode::RoundUp) ==> v > 0,
{
    let bytes = s.as_bytes();
    let start = leading_ws_len(bytes);
    let t = &bytes[start..bytes.len()];
    assert(t@ =~= trim_start(bytes@));
    if t.len() == 0 {
        return Err(SizeError::Empty);
    }
    let mode_opt = mode_of_byte_exec(t[0]);
    let (mode, rest) = match mode_opt {
        Some(m) => (m, &t[1..t.len()]),
        None => (SizeMode::Absolute, t),
    };
    assert(mode_opt.is_some() ==> rest@ =~= t@.drop_first());
    if rest.len() == 0 {
        return Err(SizeError::InvalidNumber);
    }
    if mode != SizeMode::Absolute && mode_of_byte_exec(rest[0]).is_some() {
        return Err(SizeError::InvalidNumber);
    }
    let (multiplier, suffix_len) = match size_suffix_bytes(rest) {
        Some(p) => p,
        None => (1u64, 0usize),
    };
    let num = &rest[0..rest.len() - suffix_len];
    if num.len() == 0 {
        return Err(SizeError::InvalidNumber);
    }
    let value = match parse_u64(num) {
        Some(v) => v,
        None => {
            return Err(SizeError::InvalidNumber);
        },
    };
    let total = match value.checked_mul(multiplier) {
        Some(t) => t,
        None => {
            return Err(SizeError::Overflow);
        },
    };
    if (mode == SizeMode::RoundDown || mode == SizeMode::RoundUp) && total == 0 {
        return Err(SizeError::InvalidNumber);
    }
    Ok((mode, total))
}

/// Whether the new size of a file of `current` bytes fits in 64 bits (rounding
/// up near the top of the range does not).
pub open spec fn new_size_fits(current: u64, mode: SizeMode, size: u64) -> bool {
    spec_new_size(current, mode, size) <= u64::MAX
}

/// The new size of a file of `current` bytes under the mode and amount of a
/// size specification. Extending saturates, shrinking stops at zero, and a
/// zero divisor leaves the size unchanged.
pub fn compute_new_size(current: u64, mode: SizeMode, size: u64) -> (r: u64)
    requires
        new_size_fits(current, mode, size),
    ensures
        r == spec_new_size(current, mode, size),
{
    match mode {
        SizeMode::Absolute => size,
        SizeMode::Extend => current.saturating_add(size),
        SizeMode::Shrink => current.saturating_sub(size),
        SizeMode::AtMost => {
            if current > size {
                size
            } else {
                current
            }
        },
        SizeMode::AtLeast => {
            if current < size {
                size
            } else {
                current
            }
        },
        SizeMode::RoundDown => {
            if size == 0 {
                current
            } else {
                proof {
                    vstd::arithmetic::div_mod::lemma_fundamental_div_mod(current as int, size as int);
                }
                (current / size) * size
            }
        },
        SizeMode::RoundUp => {
            if size == 0 {
                current
            } else {
                let remainder = current % size;
                if remainder == 0 {
                    current
                } else {
                    current + (size - remainder)
                }
            }
        },
    }
}

/// Rounding down to a positive multiple gives the largest multiple of `size`
/// that is not above `current`.
pub proof fn lemma_round_down_is_floor_multiple(current: u64, size: u64)
    requires
        size > 0,
    ensures
        spec_new_size(current, SizeMode::RoundDown, size) % (size as int) == 0,
        spec_new_size(current, SizeMode::RoundDown, size) <= current,
        current - spec_new_size(current, SizeMode::RoundDown, size) < size,
{
    let r = spec_new_size(current, SizeMode::RoundDown, size);
    vstd::arithmetic::div_mod::lemma_fundamental_div_mod(current as int, size as int);
    vstd::arithmetic::div_mod::lemma_mod_multiples_basic((current / size) as int, size as int);
    vstd::arithmetic::mul::lemma_mul_is_commutative((current / size) as int, size as int);
    vstd::arithmetic::div_mod::lemma_mod_pos_bound(current as int, size as int);
    assert(r == (current / size) * size);
}

/// Rounding up to a positive multiple gives the smallest multiple of `size`
/// that is not below `current`.
pub proof fn lemma_round_up_is_ceiling_multiple(current: u64, size: u64)
    requires
        size > 0,
    ensures
        spec_new_size(current, SizeMode::RoundUp, size) % (size as int) == 0,
        spec_new_size(current, SizeMode::RoundUp, size) >= current,
        spec_new_size(current, SizeMode::RoundUp, size) - current < size,
{
    let r = spec_new_size(current, SizeMode::RoundUp, size);
    vstd::arithmetic::div_mod::lemma_fundamental_div_mod(current as int, size as int);
    if current % size != 0 {
        assert(r == (current / size + 1) * size) by (nonlinear_arith)
            requires
                r == current + (size - current % size),
                current == size * (current / size) + current % size,
        ;
        vstd::arithmetic::div_mod::lemma_mod_multiples_basic((current / size + 1) as int, size as int);
    }
}

/// Rounding a size that is already rounded, down or up, changes nothing.
pub proof fn lemma_rounding_is_idempotent(current: u64, mode: SizeMode, size: u64)
    requires
        mode == SizeMode::RoundDown || mode == SizeMode::RoundUp,
        new_size_fits(current, mode, size),
    ensures
        spec_new_size(spec_new_size(current, mode, size) as u64, mode, size)
            == spec_new_size(current, mode, size),
{
    if size > 0 {
        if mode == SizeMode::RoundDown {
            lemma_round_down_is_floor_multiple(current, size);
            let r = spec_new_size(current, mode, size) as u64;
            vstd::arithmetic::div_mod::lemma_fundamental_div_mod(r as int, size as int);
            vstd::arithmetic::mul::lemma_mul_is_commutative((r / size) as int, size as int);
        } else {
            lemma_round_up_is_ceiling_multiple(current, size);
        }
    }
}

/// Extending by `n` bytes and then shrinking by `n` bytes gives back the
/// starting size, as long as the extension did not saturate.
pub proof fn lemma_extend_then_shrink_restores(current: u64, n: u64)
    requires
        current + n <= u64::MAX,
    ensures
        spec_new_size(spec_new_size(current, SizeMode::Extend, n) as u64, SizeMode::Shrink, n)
            == current,
{
}

/// The unit letters `K`, `M`, `G`, `T`, `P`, `E` stand for the first to
/// sixth powers of 1024, and followed by `B` for the same powers of 1000,
/// whatever text comes before the suffix.
pub proof fn lemma_unit_suffix_powers(s: Seq<u8>)
    ensures
        spec_size_suffix(s.push(75u8)) == Some((1024u64, 1usize)),
        spec_size_suffix(s.push(77u8)) == Some(((1024 * 1024) as u64, 1usize)),
        spec_size_suffix(s.push(71u8)) == Some(((1024 * 1024 * 1024) as u64, 1usize)),
        spec_size_suffix(s.push(84u8)) == Some(((1024 * 1024 * 1024 * 1024) as u64, 1usize)),
        spec_size_suffix(s.push(80u8)) == Some(((1024 * 1024 * 1024 * 1024 * 1024) as u64, 1usize)),
        spec_size_suffix(s.push(69u8)) == Some(((1024 * 1024 * 1024 * 1024 * 1024 * 1024) as u64, 1usize)),
        spec_size_suffix(s.push(75u8).push(66u8)) == Some((1000u64, 2usize)),
        spec_size_suffix(s.push(77u8).push(66u8)) == Some(((1000 * 1000) as u64, 2usize)),
        spec_size_suffix(s.push(71u8).push(66u8)) == Some(((1000 * 1000 * 1000) as u64, 2usize)),
        spec_size_suffix(s.push(84u8).push(66u8)) == Some(((1000 * 1000 * 1000 * 1000) as u64, 2usize)),
        spec_size_suffix(s.push(80u8).push(66u8)) == Some(((1000 * 1000 * 1000 * 1000 * 1000) as u64, 2usize)),
        spec_size_suffix(s.push(69u8).push(66u8)) == Some(((1000 * 1000 * 1000 * 1000 * 1000 * 1000) as u64, 2usize)),
{
    lemma_pow_values();
    let ls: Seq<u8> = seq![75u8, 77, 71, 84, 80, 69];
    assert forall|k: int| 0 <= k < 6 implies {
        let t = s.push(#[trigger] ls[k]);
        &&& t.last() == ls[k]
        &&& t.push(66u8).last() == 66u8
        &&& t.push(66u8)[t.push(66u8).len() - 2] == ls[k]
    } by {}
    assert(ls[0] == 75u8 && ls[1] == 77u8 && ls[2] == 71u8 && ls[3] == 84u8 && ls[4] == 80u8 && ls[5] == 69u8);
}

} // verus!
