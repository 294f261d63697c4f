use mdraoc::y2025::day04::{count_neighbor_rolls, is_accessible_roll, part1, part2, Grid};

const TEST1: &str = "
..@@.@@@@.
@@@.@.@.@@
@@@@@.@.@@
@.@@@@..@.
@@.@@@@.@@
.@@@@@@@.@
.@.@.@.@@@
@.@@@.@@@@
.@@@@@@@@.
@.@.@@@.@.
";

#[test]
fn test_read_grid() {
    Grid::new_char(TEST1).unwrap();
}

#[test]
fn test_count_neighbors_1() {
    let s = "
.@.
@..
@@@
";
    let g = Grid::new_char(s).unwrap();
    let result = count_neighbor_rolls(&g, 0, 0);
    assert_eq!(result, 2);
    let result = count_neighbor_rolls(&g, 1, 1);
    assert_eq!(result, 5);
    let result = count_neighbor_rolls(&g, 2, 1);
    assert_eq!(result, 3);
}

#[test]
fn y2025_day04_test_part1() {
    let result = part1(TEST1);
    assert_eq!(result, 13);
}

#[test]
fn y2025_day04_test_part2() {
    let result = part2(TEST1);
    assert_eq!(result, 43);
}

#[test]
fn test_accessible_roll_cases() {
    let g = Grid::new_char("@@@\n@@@\n@@@").unwrap();
    assert!(is_accessible_roll(&g, 0, 0));
    assert!(!is_accessible_roll(&g, 1, 1));
    assert!(!is_accessible_roll(&g, 0, 1));
    let g = Grid::new_char(".@\n..").unwrap();
    assert!(!is_accessible_roll(&g, 0, 0));
    assert_eq!(part2("@@@\n@@@\n@@@"), 9);
}
