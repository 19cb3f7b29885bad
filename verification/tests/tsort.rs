use fcoreutils::tsort::{exit_status, find_cycle, next_token, run_bytes, try_parse_u32, TsortOutcome};

fn output(r: &TsortOutcome) -> Vec<Vec<u8>> {
    r.order.iter().map(|&i| r.names[i].clone()).collect()
}

fn pos(out: &[Vec<u8>], name: &str) -> usize {
    out.iter().position(|n| n == name.as_bytes()).unwrap()
}

#[test]
fn basic_sort() {
    let r = run_bytes(b"a b\nb c\n");
    let out = output(&r);
    assert_eq!(out.len(), 3);
    assert!(pos(&out, "a") < pos(&out, "b"));
    assert!(pos(&out, "b") < pos(&out, "c"));
    assert_eq!(exit_status(&r), 0);
}

#[test]
fn cycle_is_reported() {
    let r = run_bytes(b"a b\nb c\nc a\n");
    assert!(!r.loops.is_empty());
    assert_eq!(output(&r).len(), 3);
    assert_ne!(exit_status(&r), 0);
}

#[test]
fn single_element() {
    let r = run_bytes(b"a a\n");
    assert_eq!(output(&r), vec![b"a".to_vec()]);
}

#[test]
fn diamond() {
    let r = run_bytes(b"a b a c b d c d");
    let out = output(&r);
    assert!(pos(&out, "a") < pos(&out, "b"));
    assert!(pos(&out, "a") < pos(&out, "c"));
    assert!(pos(&out, "b") < pos(&out, "d"));
    assert!(pos(&out, "c") < pos(&out, "d"));
}

#[test]
fn numeric_tokens() {
    let r = run_bytes(b"1 2 2 3 3 4");
    let out = output(&r);
    assert_eq!(out, vec![b"1".to_vec(), b"2".to_vec(), b"3".to_vec(), b"4".to_vec()]);
}

#[test]
fn odd_token_count() {
    let r = run_bytes(b"a b c");
    assert!(r.odd_tokens);
    assert_ne!(exit_status(&r), 0);
}

#[test]
fn tokens_and_numbers() {
    assert_eq!(next_token(b"  ab\tc", 0), Some((&b"ab"[..], 4)));
    assert_eq!(next_token(b"  ", 0), None);
    assert_eq!(try_parse_u32(b"123"), Some(123));
    assert_eq!(try_parse_u32(b"0123"), Some(123));
    assert_eq!(try_parse_u32(b"12345678"), Some(12345678));
    assert_eq!(try_parse_u32(b"00000001"), Some(1));
    assert_eq!(try_parse_u32(b"4294967295"), Some(u32::MAX));
    assert_eq!(try_parse_u32(b"4294967296"), None);
    assert_eq!(try_parse_u32(b""), None);
    assert_eq!(try_parse_u32(b"x"), None);
}

#[test]
fn acyclic_input_breaks_no_loop() {
    let r = run_bytes(b"shirt tie\ntie jacket\nbelt jacket\nshirt belt\nsocks shoes\n");
    assert!(r.loops.is_empty());
    assert_eq!(exit_status(&r), 0);
    let out = output(&r);
    assert_eq!(out.len(), 6);
    assert!(pos(&out, "shirt") < pos(&out, "tie"));
    assert!(pos(&out, "tie") < pos(&out, "jacket"));
    assert!(pos(&out, "belt") < pos(&out, "jacket"));
    assert!(pos(&out, "socks") < pos(&out, "shoes"));
}

#[test]
fn numbers_are_tokens_as_written() {
    let r = run_bytes(b"01 1\n");
    assert_eq!(output(&r), vec![b"01".to_vec(), b"1".to_vec()]);
    assert_eq!(exit_status(&r), 0);
}

#[test]
fn cycle_search_backs_out_of_dead_ends() {
    let adj = vec![vec![1, 2], vec![], vec![0]];
    assert_eq!(find_cycle(0, &adj, &vec![false; 3]), vec![0, 2]);
    let chain = vec![vec![1], vec![], vec![]];
    assert_eq!(find_cycle(0, &chain, &vec![false; 3]), vec![0]);
    let skip_removed = vec![vec![1, 2], vec![0], vec![0]];
    assert_eq!(find_cycle(0, &skip_removed, &vec![false, true, false]), vec![0, 2]);
}

#[test]
fn loop_reports_name_a_real_loop() {
    let r = run_bytes(b"a b c a c d d c");
    assert_eq!(r.loops.len(), 1);
    let members: Vec<Vec<u8>> = r.loops[0].members.iter().map(|&i| r.names[i].clone()).collect();
    assert_eq!(members, vec![b"c".to_vec(), b"d".to_vec()]);
    assert_eq!(r.loops[0].emitted, 0);
    assert_eq!(output(&r), vec![b"c".to_vec(), b"d".to_vec(), b"a".to_vec(), b"b".to_vec()]);
    assert_eq!(exit_status(&r), 1);
}

#[test]
fn cycle_search_handles_self_loops() {
    let adj = vec![vec![0, 1], vec![]];
    assert_eq!(find_cycle(0, &adj, &vec![false; 2]), vec![0]);
    let dup = vec![vec![1, 1], vec![0]];
    assert_eq!(find_cycle(0, &dup, &vec![false; 2]), vec![0, 1]);
}

#[test]
fn ties_leave_in_queue_order() {
    let r = run_bytes(b"a b a c d e");
    let want: Vec<Vec<u8>> = ["a", "d", "c", "b", "e"].iter().map(|s| s.as_bytes().to_vec()).collect();
    assert_eq!(output(&r), want);
    assert_eq!(exit_status(&r), 0);
}
