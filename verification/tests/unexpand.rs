use fcoreutils::unexpand::{emit_blanks_vec, lines_fit_check, unexpand_all_stream, unexpand_default_stream, unexpand_leading_vec};

#[test]
fn leading_blanks_become_tabs() {
    assert_eq!(unexpand_default_stream(b"        hello\n", 8), b"\thello\n".to_vec());
    assert_eq!(unexpand_default_stream(b"hello\n", 8), b"hello\n".to_vec());
    assert_eq!(unexpand_default_stream(b"", 8), b"".to_vec());
}

#[test]
fn custom_tab_size() {
    assert_eq!(unexpand_default_stream(b"    hello\n", 4), b"\thello\n".to_vec());
    assert_eq!(unexpand_default_stream(b"            hello\n", 8), b"\t    hello\n".to_vec());
}

#[test]
fn only_leading_blanks_by_default() {
    let out = unexpand_default_stream(b"        hello        world\n", 8);
    assert_eq!(out, b"\thello        world\n".to_vec());
}

#[test]
fn all_blanks_with_a() {
    let out = unexpand_all_stream(b"hello           world\n", 8);
    assert!(out.contains(&b'\t'));
    assert_eq!(out, b"hello\t\tworld\n".to_vec());
}

#[test]
fn leading_line_and_blanks() {
    let mut out = Vec::new();
    unexpand_leading_vec(b"          x", 8, &mut out);
    assert_eq!(out, b"\t  x".to_vec());
    let mut blanks = Vec::new();
    emit_blanks_vec(&mut blanks, 0, 17, 8);
    assert_eq!(blanks, b"\t\t ".to_vec());
    let mut lone = Vec::new();
    emit_blanks_vec(&mut lone, 7, 8, 8);
    assert_eq!(lone, b" ".to_vec());
}

/// Expands tabs back to spaces, with stops every `ts` columns.
fn expand(data: &[u8], ts: usize) -> Vec<u8> {
    let mut out = Vec::new();
    let mut col = 0;
    for &b in data {
        match b {
            b'\t' => {
                let next = (col / ts + 1) * ts;
                out.extend(std::iter::repeat(b' ').take(next - col));
                col = next;
            }
            b'\n' => {
                out.push(b);
                col = 0;
            }
            _ => {
                out.push(b);
                col += 1;
            }
        }
    }
    out
}

#[test]
fn conversion_keeps_what_is_displayed() {
    let input = b"  a    b         c\n\t  x  \ty\n                 \n".to_vec();
    for ts in [1usize, 3, 4, 8] {
        assert_eq!(expand(&unexpand_default_stream(&input, ts), ts), expand(&input, ts));
        assert_eq!(expand(&unexpand_all_stream(&input, ts), ts), expand(&input, ts));
    }
}

#[test]
fn huge_tab_stops_fit_when_no_tab_is_reached() {
    let big = usize::MAX / 4;
    assert!(lines_fit_check(b"abc def\n", big, false));
    assert!(lines_fit_check(b"abc\n", big, true));
    assert!(!lines_fit_check(b"\t\t\t\tx\n", big, false));
    assert_eq!(unexpand_default_stream(b"abc def\n", big), b"abc def\n".to_vec());
}
