use logcompress::context::{expand_context, merge_ranges, ranges_to_line_set};

#[test]
fn expand_basic() {
    let ranges = expand_context(&[5, 10], 2, 20);
    assert_eq!(ranges.len(), 2);
    assert_eq!(ranges[0], 3..=7);
    assert_eq!(ranges[1], 8..=12);
}

#[test]
fn expand_clamps_to_zero() {
    let ranges = expand_context(&[1], 3, 100);
    assert_eq!(ranges[0], 0..=4);
}

#[test]
fn expand_clamps_to_max() {
    let ranges = expand_context(&[98], 3, 100);
    assert_eq!(ranges[0], 95..=99);
}

#[test]
fn merge_overlapping() {
    let mut ranges = vec![3..=7, 6..=12, 20..=25];
    merge_ranges(&mut ranges);
    assert_eq!(ranges, vec![3..=12, 20..=25]);
}

#[test]
fn merge_adjacent() {
    let mut ranges = vec![3..=7, 8..=12];
    merge_ranges(&mut ranges);
    assert_eq!(ranges, vec![3..=12]);
}

#[test]
fn merge_no_overlap() {
    let mut ranges = vec![1..=3, 10..=12];
    merge_ranges(&mut ranges);
    assert_eq!(ranges, vec![1..=3, 10..=12]);
}

#[test]
fn ranges_to_lines() {
    let lines = ranges_to_line_set(&[2..=4, 8..=9]);
    assert_eq!(lines, vec![2, 3, 4, 8, 9]);
}

#[test]
fn context_empty_input() {
    assert!(expand_context(&[], 2, 100).is_empty());
    assert!(expand_context(&[5], 2, 0).is_empty());
}

#[test]
fn merge_sorts_unsorted_input() {
    let mut ranges = vec![20..=25, 3..=7, 6..=12];
    merge_ranges(&mut ranges);
    assert_eq!(ranges, vec![3..=12, 20..=25]);
}

#[test]
fn merge_contained_range() {
    let mut ranges = vec![0..=10, 2..=4, 11..=11];
    merge_ranges(&mut ranges);
    assert_eq!(ranges, vec![0..=11]);
}

#[test]
fn merge_single_and_empty() {
    let mut one = vec![4..=9];
    merge_ranges(&mut one);
    assert_eq!(one, vec![4..=9]);
    let mut none: Vec<std::ops::RangeInclusive<usize>> = Vec::new();
    merge_ranges(&mut none);
    assert!(none.is_empty());
}

#[test]
fn merge_keeps_an_exhausted_range() {
    let mut spent = 5..=5;
    for _ in spent.by_ref() {}
    let mut ranges = vec![0..=1, spent.clone()];
    merge_ranges(&mut ranges);
    assert_eq!(ranges, vec![0..=1, spent]);
}

#[test]
fn expand_hit_near_both_ends() {
    let ranges = expand_context(&[0, 4], 10, 5);
    assert_eq!(ranges, vec![0..=4, 0..=4]);
}

#[test]
fn ranges_to_lines_skips_empty_ranges() {
    #[allow(clippy::reversed_empty_ranges)]
    let lines = ranges_to_line_set(&[5..=3, 7..=7]);
    assert_eq!(lines, vec![7]);
}

#[test]
fn ranges_to_lines_after_merge_are_sorted_and_unique() {
    let mut ranges = expand_context(&[10, 3, 12], 2, 20);
    merge_ranges(&mut ranges);
    let lines = ranges_to_line_set(&ranges);
    assert_eq!(lines, vec![1, 2, 3, 4, 5, 8, 9, 10, 11, 12, 13, 14]);
}
