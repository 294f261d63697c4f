use mdraoc::y2024::day06::{part1, part2, Dir, Layout, Loc, Outcome, Path};

const TEST_INPUT: &str = "....#.....
.........#
..........
..#.......
.......#..
..........
.#..^.....
........#.
#.........
......#...";

#[test]
fn test_layout() {
    let _layout = Layout::new(TEST_INPUT);
}

#[test]
fn day06_test_part1() {
    let v1 = part1(TEST_INPUT);
    assert_eq!(v1, 41)
}

#[test]
fn day06_test_part2() {
    let v2 = part2(TEST_INPUT);
    assert_eq!(v2, 6)
}

#[test]
fn test_start_and_walk() {
    let layout = Layout::new(TEST_INPUT);
    let start = layout.start_loc();
    assert_eq!(start, Loc(6, 4));
    assert_eq!(layout.index(&Loc(0, 4)), '#');
    let path = Path::generate(layout, &start, Dir::Up);
    assert_eq!(path.outcome, Outcome::Exit);
    assert_eq!(path.history[0].loc, Loc(6, 4));
    assert_eq!(path.history[1].loc, Loc(5, 4));
    assert_eq!(path.final_state.count_visited(), 41);
}

#[test]
fn test_walk_loop() {
    let mut layout = Layout::new(TEST_INPUT);
    layout.update(&Loc(6, 3), '#');
    let start = layout.start_loc();
    let path = Path::generate(layout, &start, Dir::Up);
    assert_eq!(path.outcome, Outcome::Loop);
}

#[test]
fn test_dir_turns() {
    assert_eq!(Dir::Up.next(), Dir::Right);
    assert_eq!(Dir::Left.next(), Dir::Up);
    assert_eq!(Dir::Down.delta(), (1, 0));
    assert_eq!(Dir::Left.value(), '<');
    assert_eq!(Loc(3, 3).next(Dir::Right), Loc(3, 4));
}
