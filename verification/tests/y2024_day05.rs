use std::cmp::Ordering;

use mdraoc::y2024::day05::{get_mid_elem, is_ordered, parse, part1, part2, rules_cmp, Rule};

const TEST_INP: &str = "47|53
97|13
97|61
97|47
75|29
61|13
75|53
29|13
97|29
53|29
61|53
97|53
61|29
47|13
75|47
97|75
47|61
75|61
47|29
75|13
53|13

75,47,61,53,29
97,61,53,29,13
75,29,13
75,97,47,61,53
61,13,29
97,13,75,29,47";

#[test]
fn day05_parse() {
    let (rules, updates) = parse(TEST_INP);
    assert_eq!(rules.len(), 21);
    assert_eq!(rules[0], Rule((47, 53)));
    assert_eq!(updates.len(), 6);
    assert_eq!(updates[2], vec![75, 29, 13]);
}

#[test]
fn day05_parts() {
    let (rules, updates) = parse(TEST_INP);
    assert_eq!(part1(&updates, &rules), 143);
    assert_eq!(part2(&updates, &rules), 123);
}

#[test]
fn day05_helpers() {
    let (rules, updates) = parse(TEST_INP);
    assert!(is_ordered(&updates[0], &rules));
    assert!(!is_ordered(&updates[3], &rules));
    assert_eq!(get_mid_elem(&[1, 2, 3]), 2);
    assert_eq!(rules_cmp(47, 53, &rules), Ordering::Less);
    assert_eq!(rules_cmp(53, 47, &rules), Ordering::Greater);
    assert_eq!(rules_cmp(1, 2, &rules), Ordering::Equal);
    assert_eq!(Rule::new("12|34"), Rule((12, 34)));
}
