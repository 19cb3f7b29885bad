use fcoreutils::shuf::{
    output_count, parse_count, parse_range, range_plan, range_size, range_values, render_lines, render_numbers,
    repeat_count, shuffle_prefix, smallest_count, split_lines, RandGen, RangeError, RangePlan, SparsePicker,
};

#[test]
fn ranges_and_counts() {
    assert_eq!(parse_range("1-10"), Ok((1, 10)));
    assert_eq!(parse_range("5-5"), Ok((5, 5)));
    assert_eq!(parse_range("10-1"), Err(RangeError::Invalid));
    assert_eq!(parse_range("-1-5"), Err(RangeError::Invalid));
    assert_eq!(parse_range("abc"), Err(RangeError::Invalid));
    assert_eq!(parse_count("3"), Some(3));
    assert_eq!(parse_count("x"), None);
    assert_eq!(smallest_count(&vec![5, 2, 9]), Some(2));
    assert_eq!(smallest_count(&vec![]), None);
}

#[test]
fn plans() {
    assert_eq!(range_size(0, u64::MAX), 0);
    assert_eq!(range_size(3, 7), 5);
    assert_eq!(range_plan(1, 10, None, false), RangePlan::Dense(10));
    assert_eq!(range_plan(1, 10, Some(3), false), RangePlan::Dense(3));
    assert_eq!(range_plan(1, 10, Some(0), false), RangePlan::Empty);
    assert_eq!(range_plan(1, 10_000_000, Some(5), false), RangePlan::Sparse(5));
    assert_eq!(range_plan(1, 5, Some(4), true), RangePlan::Repeat(4));
    assert_eq!(range_plan(0, u64::MAX, Some(4), true), RangePlan::Empty);
    assert_eq!(output_count(Some(10), 4), 4);
    assert_eq!(output_count(None, 4), 4);
    assert_eq!(repeat_count(None), usize::MAX);
}

#[test]
fn draws_stay_in_range() {
    let mut g = RandGen::from_seed(42);
    for bound in [1u64, 2, 9, 1000, u64::MAX - 1] {
        for _ in 0..50 {
            if let Some(v) = g.try_gen_max(bound) {
                assert!(v <= bound);
            }
        }
    }
    assert_eq!(RandGen::from_seed(0), RandGen::from_seed(0x123456789abcdef0));
    for (lo, hi) in [(5u64, 5u64), (10, 20), (u64::MAX - 3, u64::MAX), (1, u64::MAX)] {
        for _ in 0..50 {
            if let Some(v) = g.try_draw_in(lo, hi) {
                assert!(lo <= v && v <= hi);
            }
        }
    }
}

#[test]
fn file_source_uses_bytes() {
    let mut g = RandGen::file_source();
    assert!(g.is_file_source());
    assert_eq!(g.try_gen_max(3), None);
    g.feed_byte(7);
    assert_eq!(g.try_gen_max(3), Some(3));
    assert_eq!(g, RandGen::FileSource { randnum: 1, randmax: 63 });
}

#[test]
fn partial_shuffle_permutes() {
    let mut items = vec![10, 20, 30, 40];
    shuffle_prefix(&mut items, &vec![3, 0, 1]);
    assert_eq!(items, vec![40, 20, 10, 30]);
    let mut sorted = items.clone();
    sorted.sort();
    assert_eq!(sorted, vec![10, 20, 30, 40]);
}

#[test]
fn sparse_picks_are_distinct() {
    let mut p = SparsePicker::new(3, 0, 9);
    assert!(p.offer(5));
    assert!(!p.offer(5));
    assert!(p.offer(7));
    assert!(!p.is_done());
    assert!(p.offer(1));
    assert!(p.is_done());
    assert!(!p.offer(9));
    assert_eq!(p.into_values(), vec![5, 7, 1]);
}

#[test]
fn lines_and_numbers_out() {
    let data = b"a\nbb\nc";
    let (spans, last_unterm) = split_lines(data, b'\n');
    assert_eq!(spans.len(), 3);
    assert!(last_unterm);
    assert_eq!(render_lines(data, &spans, 3, b'\n', last_unterm), b"a\nbb\nc\n".to_vec());
    let mut order = vec![spans[2], spans[0]];
    order.push(spans[1]);
    assert_eq!(render_lines(data, &order, 2, b'\n', last_unterm), b"c\na\n".to_vec());
    assert_eq!(render_numbers(&range_values(3, 5), 3, b'\n'), b"3\n4\n5\n".to_vec());
    assert_eq!(render_numbers(&vec![10, 2], 2, 0), b"10\x002\x00".to_vec());
}
