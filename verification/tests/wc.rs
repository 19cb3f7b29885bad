use fcoreutils::wc::{
    add_counts, column_width, count_newlines, fmt_u64, num_width, parse_total_mode, print_counts_fmt, show_total,
    split_nul_names, Counts, ShowFlags, TotalMode,
};

fn counts(lines: u64, words: u64, bytes: u64) -> Counts {
    Counts { lines, words, bytes, chars: 0, max_line_length: 0 }
}

#[test]
fn default_columns() {
    let s = ShowFlags::from_options(false, false, false, false, false);
    assert!(s.lines && s.words && s.bytes && !s.chars && !s.max_line_length);
    let l = ShowFlags::from_options(true, false, false, false, false);
    assert!(l.lines_only());
    assert!(!l.bytes_only());
    let c = ShowFlags::from_options(false, false, true, false, false);
    assert!(c.bytes_only());
    assert_eq!(s.column_count(), 3);
}

#[test]
fn widths() {
    assert_eq!(num_width(0), 1);
    assert_eq!(num_width(9), 1);
    assert_eq!(num_width(10), 2);
    assert_eq!(num_width(u64::MAX), 20);
    assert_eq!(fmt_u64(42, 5), b"   42".to_vec());
    assert_eq!(fmt_u64(123456, 3), b"123456".to_vec());
}

#[test]
fn wc_report_lines() {
    let s = ShowFlags::from_options(false, false, false, false, false);
    assert_eq!(print_counts_fmt(&counts(1, 2, 12), "f.txt", 2, &s), b" 1  2 12 f.txt\n".to_vec());
    assert_eq!(print_counts_fmt(&counts(1, 2, 12), "", 7, &s), b"      1       2      12\n".to_vec());
    let all = ShowFlags::from_options(true, true, true, true, true);
    let c = Counts { lines: 1, words: 2, bytes: 3, chars: 4, max_line_length: 5 };
    assert_eq!(print_counts_fmt(&c, "x", 1, &all), b"1 2 4 3 5 x\n".to_vec());
}

#[test]
fn totals() {
    assert_eq!(parse_total_mode("auto"), Some(TotalMode::Auto));
    assert_eq!(parse_total_mode("only"), Some(TotalMode::Only));
    assert_eq!(parse_total_mode("sometimes"), None);
    assert!(!show_total(TotalMode::Auto, 1));
    assert!(show_total(TotalMode::Auto, 2));
    assert!(show_total(TotalMode::Always, 1));
    assert!(!show_total(TotalMode::Never, 3));
    let t = add_counts(counts(1, 2, 3), Counts { lines: 4, words: 5, bytes: 6, chars: 0, max_line_length: 9 });
    assert_eq!(t, Counts { lines: 5, words: 7, bytes: 9, chars: 0, max_line_length: 9 });
}

#[test]
fn column_widths() {
    let s = ShowFlags::from_options(false, false, false, false, false);
    assert_eq!(column_width(TotalMode::Auto, s, counts(1, 2, 12), 1, true), 7);
    assert_eq!(column_width(TotalMode::Auto, s, counts(1, 2, 12), 1, false), 2);
    assert_eq!(column_width(TotalMode::Only, s, counts(1, 2, 12345), 3, false), 1);
    let l = ShowFlags::from_options(true, false, false, false, false);
    assert_eq!(column_width(TotalMode::Auto, l, counts(1234, 0, 99999), 1, true), 4);
}

#[test]
fn newlines() {
    assert_eq!(count_newlines(b""), 0);
    assert_eq!(count_newlines(b"a\nb\n\nc"), 3);
    let a = count_newlines(b"x\ny");
    let b = count_newlines(b"\nz\n");
    assert_eq!(a + b, count_newlines(b"x\ny\nz\n"));
}

#[test]
fn files0_names() {
    let names = split_nul_names(b"a\0\0bc\0d");
    assert_eq!(names, vec![b"a".to_vec(), b"bc".to_vec(), b"d".to_vec()]);
    assert_eq!(split_nul_names(b"x\0"), vec![b"x".to_vec()]);
    assert!(split_nul_names(b"").is_empty());
}
