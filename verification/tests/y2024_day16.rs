use mdraoc::grid::Loc;
use mdraoc::y2024::day16::{find, parse, part1, part2, search, trace_all_paths, Dir, State};

const TEST: &str = "###############
#.......#....E#
#.#.###.#.###.#
#.....#.#...#.#
#.###.#####.#.#
#.#.#.......#.#
#.#.#####.###.#
#...........#.#
###.#.#####.#.#
#...#.....#.#.#
#.#.#.###.#.#.#
#.....#...#.#.#
#.###.#.#.#.#.#
#S..#.....#...#
###############";

const TEST2: &str = "#################
#...#...#...#..E#
#.#.#.#.#.#.#.#.#
#.#.#.#...#...#.#
#.#.#.#.###.#.#.#
#...#.#.#.....#.#
#.#.#.#.#.#####.#
#.#...#.#.#.....#
#.#.#####.#.###.#
#.#.#.......#...#
#.#.###.#####.###
#.#.#...#.....#.#
#.#.#.#####.###.#
#.#.#.........#.#
#.#.#.#########.#
#S#.............#
#################";

#[test]
fn test_find() {
    let maze = parse(TEST);
    let expected_s = Loc(13, 1);
    let expected_e = Loc(1, 13);
    assert_eq!(find(&maze, 'S').unwrap(), expected_s);
    assert_eq!(find(&maze, 'E').unwrap(), expected_e);
}

#[test]
fn test_find2() {
    let maze = parse(TEST2);
    let expected_s = Loc(15, 1);
    let expected_e = Loc(1, 15);
    assert_eq!(find(&maze, 'S').unwrap(), expected_s);
    assert_eq!(find(&maze, 'E').unwrap(), expected_e);
}

#[test]
fn day16_test_part1_small() {
    let maze = parse(TEST);
    let result = part1(&maze);
    let expected = 7036;
    assert_eq!(result, expected);
}

#[test]
fn day16_test_part1_large() {
    let maze = parse(TEST2);
    let result = part1(&maze);
    let expected = 11048;
    assert_eq!(result, expected);
}

#[test]
fn test_part2_small() {
    let maze = parse(TEST);
    let result = part2(&maze);
    let expected = 45;
    assert_eq!(result, expected);
}

#[test]
fn test_part2_large() {
    let maze = parse(TEST2);
    let result = part2(&maze);
    let expected = 64;
    assert_eq!(result, expected);
}

#[test]
fn day16_find_missing_letter() {
    let maze = parse(TEST);
    assert_eq!(find(&maze, 'X'), None);
}

#[test]
fn day16_straight_corridor() {
    // three steps east: no turn needed
    let maze = parse("######\n#S..E#\n######");
    assert_eq!(part1(&maze), 3);
    assert_eq!(part2(&maze), 4);
}

#[test]
fn day16_one_turn() {
    // a quarter turn and two steps north
    let maze = parse("###\n#E#\n#.#\n#S#\n###");
    assert_eq!(part1(&maze), 1002);
    assert_eq!(part2(&maze), 3);
}

#[test]
fn day16_search_costs_and_trace() {
    let maze = parse("######\n#S..E#\n######");
    let (dist, prev) = search(&maze, Loc(1, 1), Loc(1, 4), true);
    // poses are numbered 4 * (row * cols + col) + (up, down, left, right)
    let at = |r: usize, c: usize, d: usize| dist[4 * (r * 6 + c) + d];
    assert_eq!(at(1, 1, 3), Some(0));
    assert_eq!(at(1, 2, 3), Some(1));
    assert_eq!(at(1, 4, 3), Some(3));
    assert_eq!(at(1, 1, 0), Some(1000));
    let end = vec![State { loc: Loc(1, 4), dir: Dir::Right, cost: 3 }];
    let mut tiles = trace_all_paths(&maze, &prev, end);
    tiles.sort_by_key(|l| (l.0, l.1));
    assert_eq!(tiles, vec![Loc(1, 1), Loc(1, 2), Loc(1, 3), Loc(1, 4)]);
}
