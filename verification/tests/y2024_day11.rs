use std::collections::HashMap;

use mdraoc::y2024::day11::{part1, part1b, part2, Array, ArrayCounts};

const TEST1: &str = "0 1 10 99 999";
const TEST2: &str = "125 17";

#[test]
fn day11_test_parse() {
    let a = Array::new(TEST1);
    let expected = Array(vec![0, 1, 10, 99, 999]);
    assert_eq!(a, expected);
}

#[test]
fn test_parse_counts() {
    let a = ArrayCounts::new("0 0 1 1 2");
    let expected = HashMap::from([(0, 2), (1, 2), (2, 1)]);
    assert_eq!(a.0, expected);
}

#[test]
fn test_blink_1() {
    let a = Array::new(TEST1);
    let expected = "1 2024 1 0 9 9 2021976";
    assert_eq!(a.blink().to_string(), expected);
}

#[test]
fn test_blink_2_6() {
    let mut a = Array::new(TEST2);
    let expected = "2097446912 14168 4048 2 0 2 4 40 48 2024 40 48 80 96 2 8 6 7 6 0 3 2";
    for _ in 0..6 {
        a = a.blink()
    }
    assert_eq!(a.to_string(), expected);
}

#[test]
fn test_blink_2_25() {
    let mut a = Array::new(TEST2);
    let expected = "2097446912 14168 4048 2 0 2 4 40 48 2024 40 48 80 96 2 8 6 7 6 0 3 2";
    for _ in 0..6 {
        a = a.blink()
    }
    assert_eq!(a.to_string(), expected);
}

#[test]
fn day11_test_part1() {
    let a = Array::new(TEST2);
    let expected = 55312;
    assert_eq!(part1(&a), expected);
}

#[test]
fn test_counts_agree_with_list() {
    let a = Array::new(TEST2);
    let c = ArrayCounts::new(TEST2);
    assert_eq!(part1(&a), part1b(&c));
    assert!(part2(&c) > part1b(&c));
}

#[test]
fn test_counts_blink() {
    let c = ArrayCounts::new("1000 0 1000");
    let b = c.blink();
    assert_eq!(b.0, HashMap::from([(10, 2), (0, 2), (1, 1)]));
    assert_eq!(b.count(), 5);
}

#[test]
fn day11_counts_blink_like_row() {
    for text in ["0 1 10 99 999", "125 17", "7 7 7 1000"] {
        let row = Array::new(text).blink();
        let counts = ArrayCounts::new(text).blink();
        for (&x, &c) in counts.0.iter() {
            assert!(c > 0);
            assert_eq!(c, row.0.iter().filter(|&&y| y == x).count());
        }
        for y in row.0.iter() {
            assert!(counts.0.contains_key(y));
        }
        assert_eq!(counts.count(), row.0.len());
    }
}
