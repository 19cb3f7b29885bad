use fcoreutils::seq::{
    decimal_places, display_width, equal_width_of, format_int_value, is_integer_str, number_width,
    render_sequence, render_terms, render_value, sequence_length, trim_g_trailing_zeros, write_scaled_int,
    zero_pad_int, NumberStyle,
};

#[test]
fn operand_shapes() {
    assert_eq!(decimal_places("1.50"), 1);
    assert_eq!(decimal_places("-0.125"), 3);
    assert_eq!(decimal_places("10"), 0);
    assert_eq!(decimal_places("2.000"), 0);
    assert!(is_integer_str("-42"));
    assert!(is_integer_str("7"));
    assert!(!is_integer_str("-"));
    assert!(!is_integer_str("1.0"));
    assert!(!is_integer_str(""));
    assert_eq!(number_width("-100"), 4);
    assert_eq!(display_width("12345"), 5);
}

#[test]
fn trailing_zeros_of_g() {
    assert_eq!(trim_g_trailing_zeros("1.500000"), b"1.5".to_vec());
    assert_eq!(trim_g_trailing_zeros("2.000000"), b"2".to_vec());
    assert_eq!(trim_g_trailing_zeros("1.500000e+10"), b"1.5e+10".to_vec());
    assert_eq!(trim_g_trailing_zeros("100000"), b"100000".to_vec());
    assert_eq!(trim_g_trailing_zeros("1e+10"), b"1e+10".to_vec());
    assert_eq!(trim_g_trailing_zeros("1.50000e+06"), b"1.5e+06".to_vec());
}

#[test]
fn integers() {
    assert_eq!(format_int_value(-17), b"-17".to_vec());
    assert_eq!(format_int_value(i64::MIN), b"-9223372036854775808".to_vec());
    assert_eq!(zero_pad_int(5, 3), b"005".to_vec());
    assert_eq!(zero_pad_int(-5, 3), b"-05".to_vec());
    assert_eq!(zero_pad_int(1234, 2), b"1234".to_vec());
    assert_eq!(equal_width_of(-10, 5), 3);
}

#[test]
fn scaled_values() {
    assert_eq!(write_scaled_int(12345, 1, 10), b"1234.5".to_vec());
    assert_eq!(write_scaled_int(-5, 2, 100), b"-0.05".to_vec());
    assert_eq!(write_scaled_int(0, 3, 1000), b"0.000".to_vec());
    assert_eq!(render_value(NumberStyle::Scaled(2), 150), b"1.50".to_vec());
}

#[test]
fn basic_sequences() {
    assert_eq!(render_sequence(1, 1, 10, b"\n", NumberStyle::Plain), b"1\n2\n3\n4\n5\n6\n7\n8\n9\n10\n".to_vec());
    assert_eq!(render_sequence(2, 3, 10, b"\n", NumberStyle::Plain), b"2\n5\n8\n".to_vec());
    assert_eq!(render_sequence(5, -1, 1, b", ", NumberStyle::Plain), b"5, 4, 3, 2, 1\n".to_vec());
    assert_eq!(render_sequence(5, 1, 1, b"\n", NumberStyle::Plain), b"".to_vec());
    assert_eq!(render_sequence(-2, 1, 2, b"\n", NumberStyle::Plain), b"-2\n-1\n0\n1\n2\n".to_vec());
}

#[test]
fn equal_width_sequence() {
    let w = equal_width_of(-10, 10);
    assert_eq!(render_sequence(-10, 5, 10, b" ", NumberStyle::ZeroPad(w)), b"-10 -05 000 005 010\n".to_vec());
    let w = equal_width_of(8, 10);
    assert_eq!(render_sequence(8, 1, 10, b"\n", NumberStyle::ZeroPad(w)), b"08\n09\n10\n".to_vec());
}

#[test]
fn lengths_and_pieces() {
    assert_eq!(sequence_length(1, 1, 10), 10);
    assert_eq!(sequence_length(10, -3, 1), 4);
    assert_eq!(sequence_length(3, 1, 2), 0);
    let mut whole = render_terms(1, 2, 9, b",", NumberStyle::Plain, 0, 2);
    whole.extend(render_terms(1, 2, 9, b",", NumberStyle::Plain, 2, 3));
    assert_eq!(whole, render_terms(1, 2, 9, b",", NumberStyle::Plain, 0, 5));
    assert_eq!(whole, b"1,3,5,7,9".to_vec());
}

#[test]
fn scaled_sequence() {
    assert_eq!(render_sequence(0, 5, 20, b"\n", NumberStyle::Scaled(1)), b"0.0\n0.5\n1.0\n1.5\n2.0\n".to_vec());
}

#[test]
fn top_of_range() {
    assert_eq!(
        render_sequence(i64::MAX - 2, 1, i64::MAX - 1, b"\n", NumberStyle::Plain),
        b"9223372036854775805\n9223372036854775806\n".to_vec()
    );
}
