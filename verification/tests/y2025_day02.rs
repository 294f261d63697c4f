use mdraoc::y2025::day02::{is_valid, parse_range, parse_ranges, part1, part2};

const TEST1: &str = "11-22,95-115,998-1012,1188511880-1188511890,222220-222224,1698522-1698528,446443-446449,38593856-38593862,565653-565659,824824821-824824827,2121212118-2121212124";

#[test]
fn test_parse_range() {
    let s = "11-22";
    let r = parse_range(s);
    assert_eq!(*r.start(), 11);
    assert_eq!(*r.end(), 22);
}

#[test]
fn test_parse_ranges() {
    let ranges = parse_ranges(TEST1);
    let n = ranges.len();
    assert_eq!(ranges.len(), 11);
    assert_eq!(ranges[0], (11..=22));
    assert_eq!(ranges[n - 1], (2121212118..=2121212124));
}

#[test]
fn test_is_valid_1() {
    for n in 11..=22 {
        let v = is_valid(n, false);
        assert_eq!(v, !(n == 11 || n == 22), "v = {}", v);
    }
}

#[test]
fn test_is_valid_2() {
    for n in 95..=115 {
        let v = is_valid(n, false);
        assert_eq!(v, (n != 99), "v = {}", v);
    }
}

#[test]
fn test_is_valid_3() {
    for n in 998..=1012 {
        let v = is_valid(n, false);
        assert_eq!(v, (n != 1010), "v = {}", v);
    }
}

#[test]
fn test_is_valid_big1() {
    assert!(!is_valid(1188511885, false));
}

#[test]
fn y2025_day02_test_part1() {
    let result = part1(TEST1);
    assert_eq!(result, 1227775554);
}

#[test]
fn y2025_day02_test_part2_multi_repeats() {
    assert!(!is_valid(111, true));
    assert!(is_valid(111, false));
    assert!(!is_valid(12121212, true));
    assert!(is_valid(1212121, true));
    assert_eq!(part2("95-115"), 99 + 111);
}

#[test]
fn y2025_day02_repeats_only_add() {
    assert!(part1(TEST1) <= part2(TEST1));
    for n in [11u64, 1212, 123123, 111, 12121212, 1234] {
        if !is_valid(n, false) {
            assert!(!is_valid(n, true));
        }
    }
}
