use fcoreutils::checksum::{
    check_filename, digests_match, escape_filename, file_verdict, is_hex_digest, needs_escape, new_tally,
    prepare_check_line, record, report_format_error, report_outcome, DigestKind, summary_warnings, unescape_filename,
    write_output, CheckLine, CheckOutcome, FileVerdict,
};

#[test]
fn escaping_names() {
    assert!(needs_escape("a\\b"));
    assert!(needs_escape("a\nb"));
    assert!(!needs_escape("plain.txt"));
    assert_eq!(escape_filename("a\\b\nc"), b"a\\\\b\\nc".to_vec());
    assert_eq!(unescape_filename("a\\\\b\\nc"), b"a\\b\nc".to_vec());
    assert_eq!(unescape_filename("x\\ty\\"), b"x\\ty\\".to_vec());
    assert_eq!(escape_filename("caf\u{e9}\\"), "caf\u{e9}\\\\".as_bytes().to_vec());
    assert_eq!(unescape_filename("caf\u{e9}\\\\"), "caf\u{e9}\\".as_bytes().to_vec());
    let name = "dir\\sub\nfile";
    let escaped = String::from_utf8(escape_filename(name)).unwrap();
    assert_eq!(unescape_filename(&escaped), name.as_bytes().to_vec());
}

#[test]
fn digests() {
    let d = "e3b0c44298fc1c149afbf4c8996fb92427ae41e4649b934ca495991b7852b855";
    assert!(is_hex_digest(d, 64));
    assert!(!is_hex_digest(&d[1..], 64));
    assert!(!is_hex_digest("zz", 2));
    assert!(digests_match(b"ABCdef", b"abcDEF"));
    assert!(!digests_match(b"abc", b"abd"));
}

#[test]
fn output_lines() {
    assert_eq!(write_output(b"SHA256", b"ab12", "f", false, false, false), b"ab12  f\n".to_vec());
    assert_eq!(write_output(b"SHA256", b"ab12", "f", false, false, true), b"ab12 *f\n".to_vec());
    assert_eq!(write_output(b"SHA256", b"ab12", "f", true, false, false), b"SHA256 (f) = ab12\n".to_vec());
    assert_eq!(write_output(b"SHA256", b"ab12", "f", true, true, false), b"SHA256 (f) = ab12\0".to_vec());
    assert_eq!(write_output(b"SHA256", b"ab12", "a\nb", false, false, false), b"\\ab12  a\\nb\n".to_vec());
    assert_eq!(write_output(b"SHA256", b"ab12", "a\nb", false, true, false), b"ab12  a\nb\0".to_vec());
}

#[test]
fn check_lines() {
    match prepare_check_line("   \t ") {
        CheckLine::Blank => {},
        other => panic!("unexpected {:?}", other),
    }
    match prepare_check_line("\\abc  x\\ny  ") {
        CheckLine::Content { escaped, text } => {
            assert!(escaped);
            assert_eq!(text, b"abc  x\\ny".to_vec());
        },
        other => panic!("unexpected {:?}", other),
    }
    assert_eq!(check_filename("x\\ny", true), b"x\ny".to_vec());
    assert_eq!(check_filename("x\\ny", false), b"x\\ny".to_vec());
}

#[test]
fn tallies_and_verdicts() {
    let mut t = new_tally();
    t = record(t, CheckOutcome::Matched);
    t = record(t, CheckOutcome::Mismatched);
    t = record(t, CheckOutcome::BadFormat);
    assert_eq!((t.ok, t.mismatches, t.format_errors), (1, 1, 1));
    assert_eq!(file_verdict(t, false, false), FileVerdict { had_error: true, no_proper_lines: false, none_verified: false });
    let bad_only = record(new_tally(), CheckOutcome::BadFormat);
    assert_eq!(file_verdict(bad_only, false, false), FileVerdict { had_error: true, no_proper_lines: true, none_verified: false });
    let ignored = record(new_tally(), CheckOutcome::IgnoredMissing);
    assert_eq!(file_verdict(ignored, false, true), FileVerdict { had_error: true, no_proper_lines: false, none_verified: true });
    let good = record(new_tally(), CheckOutcome::Matched);
    assert_eq!(file_verdict(good, true, true), FileVerdict { had_error: false, no_proper_lines: false, none_verified: false });
    assert!(report_format_error(DigestKind::Sha256, false, true, false));
    assert!(!report_format_error(DigestKind::Sha256, false, false, true));
    assert!(report_format_error(DigestKind::Sha256, true, false, true));
    assert!(!report_format_error(DigestKind::Sha384, true, false, true));
    assert!(report_format_error(DigestKind::Sha384, true, true, false));
    assert!(report_outcome(CheckOutcome::Matched, false, false));
    assert!(!report_outcome(CheckOutcome::Matched, true, false));
    assert!(report_outcome(CheckOutcome::Mismatched, true, false));
    assert!(!report_outcome(CheckOutcome::Unreadable, false, true));
}

#[test]
fn final_warnings() {
    let w = summary_warnings(1, 2, 0);
    assert_eq!(w, vec![
        b"WARNING: 1 computed checksum did NOT match".to_vec(),
        b"WARNING: 2 listed files could not be read".to_vec(),
    ]);
    let w = summary_warnings(0, 0, 3);
    assert_eq!(w, vec![b"WARNING: 3 lines are improperly formatted".to_vec()]);
    assert!(summary_warnings(0, 0, 0).is_empty());
}
