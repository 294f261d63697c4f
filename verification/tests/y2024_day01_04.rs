use mdraoc::y2024::{day01, day02, day04};

const DAY01: &str = "3   4
4   3
2   5
1   3
3   9
3   3
";

const DAY02: &str = "7 6 4 2 1
1 2 7 8 9
9 7 6 2 1
1 3 2 4 5
8 6 4 4 1
1 3 6 7 9
";

const DAY04: &str = "MMMSXXMASM
MSAMXMSMSA
AMXSXMAAMM
MSAMASMSMX
XMASAMXAMM
XXAMMXXAMA
SMSMSASXSS
SAXAMASAAA
MAMMMXMMMM
MXMXAXMASX";

#[test]
fn day01_parse_columns() {
    let (v1, v2) = day01::parse(DAY01);
    assert_eq!(v1, vec![3, 4, 2, 1, 3, 3]);
    assert_eq!(v2, vec![4, 3, 5, 3, 9, 3]);
}

#[test]
fn day01_example() {
    let (v1, v2) = day01::parse(DAY01);
    assert_eq!(day01::part1(&v1, &v2), 11);
    assert_eq!(day01::part2(&v1, &v2), 31);
}

#[test]
fn day01_negative_values() {
    assert_eq!(day01::part1(&[-5, 2], &[3, -1]), 5);
    assert_eq!(day01::part2(&[-1, 4, 4], &[4, -1, -1]), 6);
}

#[test]
fn day02_example() {
    let rows = day02::parse(DAY02);
    assert_eq!(rows.len(), 6);
    assert_eq!(rows[0], vec![7, 6, 4, 2, 1]);
    assert_eq!(day02::part1(&rows), 2);
    assert_eq!(day02::part2(&rows), 4);
}

#[test]
fn day02_check_one() {
    assert!(day02::check_one(&[1, 2, 4, 7]));
    assert!(day02::check_one(&[7, 4, 2, 1]));
    assert!(!day02::check_one(&[1, 2, 2]));
    assert!(!day02::check_one(&[1, 5]));
    assert!(day02::check_one(&[5]));
    assert!(day02::check_one(&[]));
}

#[test]
fn day04_example() {
    let data = day04::parse(DAY04);
    assert_eq!(data.nrows(), 10);
    assert_eq!(data.ncols(), 10);
    assert_eq!(day04::part1(&data), 18);
    assert_eq!(day04::part2(&data), 9);
}

#[test]
fn day04_small() {
    let data = day04::parse("XMAS\nSAMX");
    assert_eq!(day04::part1(&data), 2);
    let data = day04::parse("M.S\n.A.\nM.S");
    assert_eq!(day04::part2(&data), 1);
}

#[test]
fn day01_order_free() {
    let (v1, v2) = day01::parse(DAY01);
    let mut r1 = v1.clone();
    r1.reverse();
    let mut r2 = v2.clone();
    r2.rotate_left(2);
    assert_eq!(day01::part1(&r1, &r2), day01::part1(&v1, &v2));
    assert_eq!(day01::part2(&r1, &r2), day01::part2(&v1, &v2));
}

#[test]
fn day02_dampener_only_adds() {
    let rows = day02::parse(DAY02);
    assert!(day02::part1(&rows) <= day02::part2(&rows));
    let one = vec![vec![1, 2, 9]];
    assert_eq!(day02::part1(&one), 0);
    assert_eq!(day02::part2(&one), 1);
}
