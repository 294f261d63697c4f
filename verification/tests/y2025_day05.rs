use mdraoc::y2025::day05::{
    coalesce_ranges, merge_ranges, merge_ranges_once, part1, part2, ranges_overlap, Problem,
};

const TEST1: &str = "

3-5
10-14
16-20
12-18

1
5
8
11
17
32

";

#[test]
fn test_problem() {
    let _p = Problem::from_text(TEST1);
}

#[test]
fn y2025_day05_test_part1() {
    let result = part1(TEST1);
    assert_eq!(result, 3);
}

#[test]
fn test_ranges_overlap() {
    let r1 = 1..=3;
    let r2 = 3..=5;
    assert!(ranges_overlap(&r1, &r2))
}

#[test]
fn test_merge_ranges() {
    let ranges = vec![1..=3, 2..=4, 3..=5, 7..=9, 8..=10];
    let ranges = merge_ranges(ranges);
    assert_eq!(ranges.len(), 2);
    assert_eq!(ranges[0], 1..=5);
    assert_eq!(ranges[1], 7..=10);
}

#[test]
fn test_part() {
    let result = part2(TEST1);
    assert_eq!(result, 14);
}

#[test]
fn test_problem_contents() {
    let p = Problem::from_text(TEST1);
    assert_eq!(p.ranges, vec![3..=5, 10..=14, 16..=20, 12..=18]);
    assert_eq!(p.ids, vec![1, 5, 8, 11, 17, 32]);
}

#[test]
fn test_ranges_disjoint() {
    assert!(!ranges_overlap(&(1..=3), &(4..=5)));
    assert!(!ranges_overlap(&(6..=9), &(4..=5)));
    assert!(ranges_overlap(&(1..=10), &(4..=5)));
}

#[test]
fn test_coalesce_ranges() {
    assert_eq!(coalesce_ranges(&(3..=5), &(1..=4)), 1..=5);
    assert_eq!(coalesce_ranges(&(1..=10), &(4..=5)), 1..=10);
}

#[test]
fn test_merge_ranges_once_tally() {
    let ranges = vec![1..=3, 2..=4, 3..=5, 7..=9, 8..=10];
    let (merged, n) = merge_ranges_once(&ranges);
    assert_eq!(merged, vec![1..=5, 7..=10]);
    assert_eq!(n, 3);
}

#[test]
fn test_merge_keeps_covered_ids() {
    let p = Problem::from_text(TEST1);
    let merged = merge_ranges(p.ranges.clone());
    for id in 0..=25u64 {
        let before = p.ranges.iter().any(|r| r.contains(&id));
        let after = merged.iter().any(|r| r.contains(&id));
        assert_eq!(before, after, "id {id}");
    }
}
