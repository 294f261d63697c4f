use mdraoc::y2024::day10::{part1, part2, Layout, Loc, Step};

const TEST1: &str = "...0...
...1...
...2...
6543456
7.....7
8.....8
9.....9";

const TEST2: &str = "..90..9
...1.98
...2..7
6543456
765.987
876....
987....";

const TEST3: &str = "10..9..
2...8..
3...7..
4567654
...8..3
...9..2
.....01";

const TEST: &str = "89010123
78121874
87430965
96549874
45678903
32019012
01329801
10456732";

#[test]
fn day10_test_parse() {
    let _m1 = Layout::from_text(TEST1);
    let _m2 = Layout::from_text(TEST2);
    let _m3 = Layout::from_text(TEST3);
    let _m = Layout::from_text(TEST);
}

#[test]
fn test_find_tails_1() {
    let m = Layout::from_text(TEST1);
    let start = Loc(0, 3);
    let num_tails = m.find_tails(&start).len();
    assert_eq!(num_tails, 2);
}

#[test]
fn test_find_tails_2() {
    let m = Layout::from_text(TEST2);
    let start = Loc(0, 3);
    let num_tails = m.find_tails(&start).len();
    assert_eq!(num_tails, 4);
}

#[test]
fn test_find_tails_3() {
    let m = Layout::from_text(TEST3);
    let start = Loc(0, 1);
    let num_tails = m.find_tails(&start).len();
    assert_eq!(num_tails, 1);

    let start = Loc(6, 5);
    let num_tails = m.find_tails(&start).len();
    assert_eq!(num_tails, 2);
}

#[test]
fn day10_test_part1() {
    let m = Layout::from_text(TEST);
    assert_eq!(part1(&m), 36);
}

#[test]
fn day10_test_part2() {
    let m = Layout::from_text(TEST);
    assert_eq!(part2(&m), 81);
}

#[test]
fn day10_heights_and_steps() {
    let m = Layout::from_text(TEST1);
    assert_eq!(m.at(&Loc(0, 3)), 0);
    assert_eq!(m.at(&Loc(0, 0)), -1);
    assert_eq!(m.at(&Loc(-1, 0)), -1);
    assert_eq!(m.at(&Loc(6, 6)), 9);
    assert_eq!(Loc(3, 3).step(&Step::Up), Loc(2, 3));
    assert_eq!(Loc(3, 3).step(&Step::Left), Loc(3, 2));
    assert!(m.is_inbounds(&Loc(6, 6)));
    assert!(!m.is_inbounds(&Loc(7, 0)));
}

#[test]
fn day10_trail_counts_per_summit() {
    // one summit reached by two trails
    let m = Layout::from_text("0123\n1234\n2345\n3456\n4567\n5678\n6789");
    let tails = m.find_tails(&Loc(6, 3));
    assert_eq!(tails, vec![(Loc(6, 3), 1)]);
    let m = Layout::from_text("012\n123\n234\n345\n456\n567\n678\n789");
    let tails = m.find_tails(&Loc(0, 0));
    // every monotone path from the corner to (7, 2) is a trail: C(9, 2) of them
    assert_eq!(tails, vec![(Loc(7, 2), 36)]);
    assert_eq!(part2(&m), 36);
    assert_eq!(part1(&m), 1);
}

#[test]
fn day10_score_at_most_rating() {
    for text in [TEST, TEST1, TEST2, TEST3] {
        let m = Layout::from_text(text);
        assert!(part1(&m) <= part2(&m));
    }
}
