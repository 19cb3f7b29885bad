use fcoreutils::printf::{pad_formatted, parse_format, FormatParse, PrintfSpec};

fn conversion(fmt: &str) -> (Vec<u8>, PrintfSpec, Vec<u8>) {
    match parse_format(fmt.as_bytes()) {
        FormatParse::Conversion { prefix, spec, suffix } => (prefix, spec, suffix),
        FormatParse::Literal(_) => panic!("no conversion in {}", fmt),
    }
}

fn literal(fmt: &str) -> Vec<u8> {
    match parse_format(fmt.as_bytes()) {
        FormatParse::Literal(v) => v,
        FormatParse::Conversion { .. } => panic!("conversion in {}", fmt),
    }
}

#[test]
fn reads_flags_width_and_precision() {
    let (p, s, x) = conversion("x=%-+08.3f!");
    assert_eq!(p, b"x=".to_vec());
    assert_eq!(x, b"!".to_vec());
    assert!(s.left_align && s.plus_sign && s.zero_pad && !s.space_sign);
    assert_eq!((s.width, s.precision, s.conv), (8, Some(3), b'f'));
    let (_, s, _) = conversion("%g");
    assert_eq!((s.width, s.precision, s.conv), (0, None, b'g'));
    let (_, s, _) = conversion("%.f");
    assert_eq!(s.precision, Some(0));
    let (_, s, _) = conversion("%99999999999999999999999e");
    assert_eq!(s.width, usize::MAX);
}

#[test]
fn percent_signs_and_incomplete_formats() {
    let (p, s, x) = conversion("100%% of %f%%");
    assert_eq!(p, b"100% of ".to_vec());
    assert_eq!(s.conv, b'f');
    assert_eq!(x, b"%%".to_vec());
    assert_eq!(literal("no conversion"), b"no conversion".to_vec());
    assert_eq!(literal("50%"), b"50%".to_vec());
    assert_eq!(literal("a%%b%5."), b"a%b%5.".to_vec());
}

#[test]
fn padding_and_signs() {
    let (_, s, _) = conversion("%08.2f");
    assert_eq!(pad_formatted(s, true, b"-1.50"), b"-0001.50".to_vec());
    assert_eq!(pad_formatted(s, false, b"1.50"), b"00001.50".to_vec());
    let (_, s, _) = conversion("%+8.2f");
    assert_eq!(pad_formatted(s, false, b"1.50"), b"   +1.50".to_vec());
    let (_, s, _) = conversion("%-6f");
    assert_eq!(pad_formatted(s, false, b"1.5"), b"1.5   ".to_vec());
    let (_, s, _) = conversion("% 05f");
    assert_eq!(pad_formatted(s, false, b"7"), b" 0007".to_vec());
    let (_, s, _) = conversion("%2f");
    assert_eq!(pad_formatted(s, false, b"12345"), b"12345".to_vec());
}
