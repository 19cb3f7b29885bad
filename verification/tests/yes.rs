use fcoreutils::yes::{fill_buffer, parent_ignores_sigpipe, parse_hex_u64, yes_line, BUF_SIZE};

fn args(list: &[&str]) -> Vec<Vec<u8>> {
    list.iter().map(|s| s.as_bytes().to_vec()).collect()
}

#[test]
fn line_from_arguments() {
    assert_eq!(yes_line(&args(&[])), b"y\n".to_vec());
    assert_eq!(yes_line(&args(&["hello"])), b"hello\n".to_vec());
    assert_eq!(yes_line(&args(&["a", "b", "c"])), b"a b c\n".to_vec());
    assert_eq!(yes_line(&args(&["--", "x"])), b"x\n".to_vec());
    assert_eq!(yes_line(&args(&["--"])), b"y\n".to_vec());
    assert_eq!(yes_line(&args(&["a", "--", "--", "b"])), b"a -- b\n".to_vec());
    assert_eq!(yes_line(&args(&["-"])), b"-\n".to_vec());
}

#[test]
fn buffer_of_whole_lines() {
    let buf = fill_buffer(b"y\n");
    assert_eq!(buf.len(), BUF_SIZE);
    assert!(buf.chunks(2).all(|c| c == b"y\n"));
    let line = vec![b'x'; 3000];
    let buf = fill_buffer(&line);
    assert_eq!(buf.len(), 9000);
    let long = vec![b'z'; BUF_SIZE + 5];
    assert_eq!(fill_buffer(&long), long);
}

#[test]
fn sigpipe_mask() {
    assert!(parent_ignores_sigpipe(b"Name:\tbash\nSigIgn:\t0000000000001000\nSigCgt:\t0\n"));
    assert!(!parent_ignores_sigpipe(b"Name:\tbash\nSigIgn:\t0000000000000004\n"));
    assert!(!parent_ignores_sigpipe(b"Name:\tbash\n"));
    assert!(parent_ignores_sigpipe(b"SigIgn:\tzz\nSigIgn:\t1000"));
    assert!(!parent_ignores_sigpipe(b""));
}

#[test]
fn hex_numbers() {
    assert_eq!(parse_hex_u64(b"ff"), Some(255));
    assert_eq!(parse_hex_u64(b"+1A"), Some(26));
    assert_eq!(parse_hex_u64(b"ffffffffffffffff"), Some(u64::MAX));
    assert_eq!(parse_hex_u64(b"10000000000000000"), None);
    assert_eq!(parse_hex_u64(b""), None);
    assert_eq!(parse_hex_u64(b"g"), None);
}
