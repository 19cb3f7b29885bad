use fcoreutils::truncate::{compute_new_size, parse_size, parse_size_suffix, SizeError, SizeMode};

#[test]
fn test_parse_size_plain() {
    let (mode, val) = parse_size("100").unwrap();
    assert_eq!(mode, SizeMode::Absolute);
    assert_eq!(val, 100);
}

#[test]
fn test_parse_size_extend() {
    let (mode, val) = parse_size("+50").unwrap();
    assert_eq!(mode, SizeMode::Extend);
    assert_eq!(val, 50);
}

#[test]
fn test_parse_size_shrink() {
    let (mode, val) = parse_size("-30").unwrap();
    assert_eq!(mode, SizeMode::Shrink);
    assert_eq!(val, 30);
}

#[test]
fn test_parse_size_suffix_k() {
    let (_, val) = parse_size("2K").unwrap();
    assert_eq!(val, 2048);
}

#[test]
fn test_parse_size_suffix_kb() {
    let (_, val) = parse_size("2KB").unwrap();
    assert_eq!(val, 2000);
}

#[test]
fn test_parse_size_suffix_m() {
    let (_, val) = parse_size("1M").unwrap();
    assert_eq!(val, 1024 * 1024);
}

#[test]
fn test_parse_size_invalid() {
    assert!(parse_size("abc").is_err());
    assert!(parse_size("").is_err());
}

#[test]
fn test_compute_new_size_absolute() {
    assert_eq!(compute_new_size(100, SizeMode::Absolute, 50), 50);
}

#[test]
fn test_compute_new_size_extend() {
    assert_eq!(compute_new_size(100, SizeMode::Extend, 50), 150);
}

#[test]
fn test_compute_new_size_shrink() {
    assert_eq!(compute_new_size(100, SizeMode::Shrink, 30), 70);
}

#[test]
fn test_compute_new_size_shrink_underflow() {
    assert_eq!(compute_new_size(10, SizeMode::Shrink, 50), 0);
}

#[test]
fn test_compute_new_size_round_down() {
    assert_eq!(compute_new_size(12, SizeMode::RoundDown, 5), 10);
}

#[test]
fn test_compute_new_size_round_up() {
    assert_eq!(compute_new_size(12, SizeMode::RoundUp, 5), 15);
}

#[test]
fn test_compute_new_size_round_up_exact() {
    assert_eq!(compute_new_size(10, SizeMode::RoundUp, 5), 10);
}

#[test]
fn size_error_kinds() {
    assert_eq!(parse_size("   "), Err(SizeError::Empty));
    assert_eq!(parse_size("abc"), Err(SizeError::InvalidNumber));
    assert_eq!(parse_size("+-5"), Err(SizeError::InvalidNumber));
    assert_eq!(parse_size("/0"), Err(SizeError::InvalidNumber));
    assert_eq!(parse_size("99999999999999999999"), Err(SizeError::InvalidNumber));
    assert_eq!(parse_size("20000000E"), Err(SizeError::Overflow));
}

#[test]
fn size_modes_and_white_space() {
    assert_eq!(parse_size("  <7"), Ok((SizeMode::AtMost, 7)));
    assert_eq!(parse_size(">7"), Ok((SizeMode::AtLeast, 7)));
    assert_eq!(parse_size("/4K"), Ok((SizeMode::RoundDown, 4096)));
    assert_eq!(parse_size("%3GB"), Ok((SizeMode::RoundUp, 3_000_000_000)));
}

#[test]
fn suffix_multipliers() {
    assert_eq!(parse_size_suffix("10K"), Some((1024, 1)));
    assert_eq!(parse_size_suffix("10KB"), Some((1000, 2)));
    assert_eq!(parse_size_suffix("1E"), Some((1u64 << 60, 1)));
    assert_eq!(parse_size_suffix("10"), None);
}

#[test]
fn at_most_and_at_least() {
    assert_eq!(compute_new_size(100, SizeMode::AtMost, 50), 50);
    assert_eq!(compute_new_size(10, SizeMode::AtMost, 50), 10);
    assert_eq!(compute_new_size(10, SizeMode::AtLeast, 50), 50);
    assert_eq!(compute_new_size(100, SizeMode::AtLeast, 50), 100);
}

#[test]
fn rounding_is_idempotent_example() {
    let once = compute_new_size(1234, SizeMode::RoundUp, 100);
    assert_eq!(once, 1300);
    assert_eq!(compute_new_size(once, SizeMode::RoundUp, 100), once);
    let down = compute_new_size(1234, SizeMode::RoundDown, 100);
    assert_eq!(down, 1200);
    assert_eq!(compute_new_size(down, SizeMode::RoundDown, 100), down);
}

#[test]
fn extend_then_shrink_restores_example() {
    let grown = compute_new_size(1000, SizeMode::Extend, 24);
    assert_eq!(compute_new_size(grown, SizeMode::Shrink, 24), 1000);
}
