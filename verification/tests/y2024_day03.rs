use mdraoc::y2024::day03::{part1, part2};

#[test]
fn day03_part1_example() {
    let text = "xmul(2,4)%&mul[3,7]!@^do_not_mul(5,5)+mul(32,64]then(mul(11,8)mul(8,5))";
    assert_eq!(part1(text), 161);
}

#[test]
fn day03_part2_example() {
    let text = "xmul(2,4)&mul[3,7]!^don't()_mul(5,5)+mul(32,64](mul(11,8)undo()?mul(8,5))";
    assert_eq!(part2(text), 48);
}

#[test]
fn day03_digit_limits() {
    assert_eq!(part1("mul(1234,5)mul(123,4)"), 492);
    assert_eq!(part1("mul(12,3456)mul(,1)mul(2,3"), 0);
    assert_eq!(part1("mulmul(3,4))"), 12);
}

#[test]
fn day03_enabled_at_most_all() {
    let text = "xmul(2,4)&mul[3,7]!^don't()_mul(5,5)+mul(32,64](mul(11,8)undo()?mul(8,5))";
    assert!(part2(text) <= part1(text));
    assert_eq!(part1(text), 161);
    let on = "do()mul(2,3)don't()do()mul(4,5)";
    assert_eq!(part2(on), part1(on));
}
