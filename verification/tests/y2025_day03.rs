use mdraoc::y2025::day03::{max_joltage, max_joltage_digits, parse_bank, parse_banks, part1, part2};

const TEST1: &str = "
987654321111111
811111111111119
234234234234278
818181911112111
";

#[test]
fn test_max_joltage_1() {
    let bank = parse_bank("987654321111111");
    let result = max_joltage(&bank, 2);
    assert_eq!(result, 98)
}

#[test]
fn test_max_joltage_2() {
    let bank = parse_bank("811111111111119");
    let result = max_joltage(&bank, 2);
    assert_eq!(result, 89)
}

#[test]
fn test_max_joltage_3() {
    let bank = parse_bank("234234234234278");
    let result = max_joltage(&bank, 2);
    assert_eq!(result, 78)
}

#[test]
fn test_max_joltage_4() {
    let bank = parse_bank("818181911112111");
    let result = max_joltage(&bank, 2);
    assert_eq!(result, 92)
}

#[test]
fn y2025_day03_test_part1() {
    let result = part1(TEST1);
    assert_eq!(result, 357);
}

#[test]
fn test_max_joltage_n_1() {
    let bank = parse_bank("987654321111111");
    let result = max_joltage(&bank, 12);
    assert_eq!(result, 987654321111);
}

#[test]
fn test_max_joltage_n_2() {
    let bank = parse_bank("811111111111119");
    let result = max_joltage(&bank, 12);
    assert_eq!(result, 811111111119)
}

#[test]
fn test_max_joltage_n_3() {
    let bank = parse_bank("234234234234278");
    let result = max_joltage(&bank, 12);
    assert_eq!(result, 434234234278)
}

#[test]
fn test_max_joltage_n_4() {
    let bank = parse_bank("818181911112111");
    let result = max_joltage(&bank, 12);
    assert_eq!(result, 888911112111)
}

#[test]
fn y2025_day03_test_part2() {
    let result = part2(TEST1);
    assert_eq!(result, 3121910778619);
}

#[test]
fn test_max_joltage_digits_edges() {
    let bank = parse_bank("5291");
    assert_eq!(max_joltage_digits(&bank, 0), Vec::<char>::new());
    assert_eq!(max_joltage_digits(&bank, 4), vec!['5', '2', '9', '1']);
    assert_eq!(max_joltage_digits(&bank, 1), vec!['9']);
    assert_eq!(parse_banks("12\n34").len(), 2);
}
