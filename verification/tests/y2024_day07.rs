use mdraoc::y2024::day07::{parse, part1, part2, Equation, Op};

const TEST_TEXT: &str = "190: 10 19
3267: 81 40 27
83: 17 5
156: 15 6
7290: 6 8 6 15
161011: 16 10 13
192: 17 8 14
21037: 9 7 18 13
292: 11 6 16 20";

#[test]
fn test_parse_one() {
    let text = "3267: 81 40 27";
    let result = 3267;
    let values = vec![81, 40, 27];
    let actual = Equation::from_text(text);
    let expected = Equation { result, values };
    assert_eq!(actual, expected);
}

#[test]
fn day07_test_parse() {
    let text = &TEST_TEXT;
    let _equations = parse(text);
}

#[test]
fn day07_parts() {
    let eqs = parse(TEST_TEXT);
    assert_eq!(eqs.len(), 9);
    assert_eq!(part1(&eqs), 3749);
    assert_eq!(part2(&eqs), 11387);
}

#[test]
fn day07_is_valid() {
    let eq = Equation::from_text("156: 15 6");
    assert!(eq.is_valid(&[&Op::Concat]));
    assert!(!eq.is_valid(&[&Op::Add]));
    assert!(eq.is_maybe_valid(&[Op::Add, Op::Concat]));
    assert!(!eq.is_maybe_valid(&[Op::Add, Op::Mul]));
    let single = Equation::from_text("7: 7");
    assert!(single.is_maybe_valid(&[]));
}

#[test]
fn day07_search_matches_choices() {
    let eqs = parse(TEST_TEXT);
    let ops = [Op::Add, Op::Mul];
    for eq in &eqs {
        let n = eq.values.len() - 1;
        let mut any = false;
        for mask in 0..(1u32 << n) {
            let choice: Vec<&Op> = (0..n).map(|i| &ops[((mask >> i) & 1) as usize]).collect();
            any = any || eq.is_valid(&choice);
        }
        assert_eq!(eq.is_maybe_valid(&ops), any);
    }
}

#[test]
fn day07_concat_only_adds() {
    let eqs = parse(TEST_TEXT);
    assert!(part1(&eqs) <= part2(&eqs));
}
