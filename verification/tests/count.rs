use lc::work::Summary;
use lc::work::aggregate;
use lc::work::count_lines;

#[test]
fn counts_terminator_bytes() {
    assert_eq!(count_lines(b"a\nb\n"), 2);
    assert_eq!(count_lines(b"\n\n\n"), 3);
    assert_eq!(count_lines(b"no terminator"), 0);
}

#[test]
fn missing_trailing_terminator_adds_no_line() {
    assert_eq!(count_lines(b"a\nb\nc"), 2);
    assert_eq!(count_lines(b"a\nb\nc\n"), 3);
}

#[test]
fn empty_input_counts_zero_lines() {
    assert_eq!(count_lines(b""), 0);
}

#[test]
fn chunked_counting_matches_whole() {
    let whole = b"one\ntwo\nthree\nrest";
    let total = count_lines(&whole[..7]) + count_lines(&whole[7..]);
    assert_eq!(total, count_lines(whole));
}

#[test]
fn totals_are_sums_over_all_files() {
    let results = vec![Some(3), Some(4), Some(5)];
    let s = aggregate(&results);
    assert_eq!(s.total_lines, 12);
    assert_eq!(s.total_files, 3);
}

#[test]
fn an_empty_file_still_counts_as_a_file() {
    let results = vec![Some(2), Some(0)];
    let s = aggregate(&results);
    assert_eq!(s.total_lines, 2);
    assert_eq!(s.total_files, 2);
}

#[test]
fn a_failed_file_counts_nowhere() {
    let results = vec![Some(3), None, Some(4), Some(0)];
    let s = aggregate(&results);
    assert_eq!(s.total_lines, 7);
    assert_eq!(s.total_files, 3);
}

#[test]
fn aggregation_is_order_independent() {
    let one_way = vec![Some(3), None, Some(4), Some(0), Some(9)];
    let another = vec![Some(9), Some(0), Some(4), None, Some(3)];
    let a = aggregate(&one_way);
    let b = aggregate(&another);
    assert_eq!(a.total_lines, b.total_lines);
    assert_eq!(a.total_files, b.total_files);
}

#[test]
fn summary_accumulates_per_result() {
    let mut s = Summary::new();
    assert_eq!(s.total_lines, 0);
    assert_eq!(s.total_files, 0);
    s.add(Some(5));
    s.add(None);
    s.add(Some(1));
    assert_eq!(s.total_lines, 6);
    assert_eq!(s.total_files, 2);
}
