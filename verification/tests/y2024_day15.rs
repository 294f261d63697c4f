use mdraoc::grid::Grid;
use mdraoc::y2024::day15::{inflate, parse, part1, part2, sum_gps, try_step};

const TEST: &str = "########
#..O.O.#
##@.O..#
#...O..#
#.#.O..#
#...O..#
#......#
########

<^^>>>vv<v>>v<<";

const TEST2: &str = "##########
#..O..O.O#
#......O.#
#.OO..O.O#
#..O@..O.#
#O#..O...#
#O..O..O.#
#.OO.O.OO#
#....O...#
##########

<vv>^<v^>v>^vv^v>v<>v^v<v<^vv<<<^><<><>>v<vvv<>^v^>^<<<><<v<<<v^vv^v>^
vvv<<^>^v^^><<>>><>^<<><^vv^^<>vvv<>><^^v>^>vv<>v<<<<v<^v>^<^^>>>^<v<v
><>vv>v^v^<>><>>>><^^>vv>v<^^^>>v^v^<^^>v^^>v^<^v>v<>>v^v^<v>v^^<^^vv<
<<v<^>>^^^^>>>v^<>vvv^><v<<<>^^^vv^<vvv>^>v<^^^^v<>^>vvvv><>>v^<<^^^^^
^><^><>>><>^^<<^^v>>><^<v>^<vv>>v>>>^v><>^v><<<<v>>v<v<v>vvv>^<><<>^><
^>><>^v<><^vvv<^^<><v<<<<<><^v<<<><<<^^<v<^^^><^>>^<v^><<<^>>^v<v^v<v^
>^>>^v>vv>^<<^v<>><<><<v<<v><>v<^vv<<<>^^v^>^^>>><<^v>>v^v><^^>>^<>vv^
<><^^>^^^<><vvvvv^v<v<<>^v<v>v<<^><<><<><<<^^<<<^<<>><<><^^^>^^<>^>v<>
^^>vv<^v^v<vv>^<><v<^v>^^^>>>^^vvv^>vvv<>>>^<^>>>>>^<<^v>^vvv<>^<><<v>
v^^>>><<^^<>>^v^<v^vv<>v^<<>^<^v^v><^<<<><<^<v><v<>vv>>v><v^<vv<>v^<<^";

fn rows(g: &Grid<char>) -> Vec<String> {
    let n = g.ncols() as usize;
    g.raw_data().chunks(n).map(|r| r.iter().collect()).collect()
}

#[test]
fn day15_test_parse() {
    let (grid, steps) = parse(TEST);
    let grid = inflate(&grid);
    assert_eq!(grid.nrows(), 8);
    assert_eq!(grid.ncols(), 16);
    assert_eq!(steps, "<^^>>>vv<v>>v<<");
}

#[test]
fn day15_test_part1_small() {
    let result = part1(TEST);
    let expected = 2028;
    assert_eq!(result, expected);
}

#[test]
fn day15_test_part1_large() {
    let result = part1(TEST2);
    let expected = 10092;
    assert_eq!(result, expected);
}

#[test]
fn day15_test_part2() {
    let result = part2(TEST2);
    let expected = 9021;
    assert_eq!(result, expected);
}

#[test]
fn day15_moves_join_lines() {
    let (_grid, steps) = parse("###\n#@#\n###\n\n<^\nv>\n");
    assert_eq!(steps, "<^v>");
}

#[test]
fn day15_step_into_wall_changes_nothing() {
    let (grid, _) = parse(TEST);
    // the robot stands at row 2, col 2 with a wall to its left
    let after = try_step(&grid, '<');
    assert_eq!(rows(&after), rows(&grid));
}

#[test]
fn day15_step_pushes_a_chain() {
    let grid = Grid::parse_char_grid("#######\n#@OO..#\n#######");
    let after = try_step(&grid, '>');
    assert_eq!(rows(&after)[1], "#.@OO.#");
    let after = try_step(&after, '>');
    assert_eq!(rows(&after)[1], "#..@OO#");
    // the chain is against the wall now
    let stuck = try_step(&after, '>');
    assert_eq!(rows(&stuck)[1], "#..@OO#");
}

#[test]
fn day15_wide_push_moves_both_halves() {
    let grid = Grid::parse_char_grid("#####\n#...#\n#.O.#\n#.@.#\n#####");
    let wide = inflate(&grid);
    assert_eq!(rows(&wide)[2], "##..[]..##");
    assert_eq!(rows(&wide)[3], "##..@...##");
    let after = try_step(&wide, '^');
    assert_eq!(rows(&after)[1], "##..[]..##");
    assert_eq!(rows(&after)[2], "##..@...##");
    assert_eq!(rows(&after)[3], "##......##");
}

#[test]
fn day15_gps_sum() {
    let grid = Grid::parse_char_grid("#######\n#...O..\n#......");
    assert_eq!(sum_gps(&grid), 104);
    let wide = Grid::parse_char_grid("##########\n##...[]...");
    assert_eq!(sum_gps(&wide), 105);
}

#[test]
fn day15_steps_keep_walls_robot_and_boxes() {
    let (mut grid, moves) = parse(TEST2);
    let count = |g: &Grid<char>, c: char| g.raw_data().iter().filter(|&&x| x == c).count();
    let walls: Vec<bool> = grid.raw_data().iter().map(|&c| c == '#').collect();
    let boxes = count(&grid, 'O');
    for step in moves.chars() {
        grid = try_step(&grid, step);
        let now: Vec<bool> = grid.raw_data().iter().map(|&c| c == '#').collect();
        assert_eq!(now, walls);
        assert_eq!(count(&grid, '@'), 1);
        assert_eq!(count(&grid, 'O'), boxes);
    }
}
