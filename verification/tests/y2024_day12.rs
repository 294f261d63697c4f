use mdraoc::grid::{Grid, Loc};
use mdraoc::y2024::day12::{
    get_area, get_blocks, get_num_sides, get_perimeter, get_point_sets_by_letter, part1, part2,
};

const TEST0: &str = "AAAA
BBCD
BBCC
EEEC";

const TEST1: &str = "OOOOO
OXOXO
OOOOO
OXOXO
OOOOO";

const TEST2: &str = "RRRRIICCFF
RRRRIICCCF
VVRRRCCFFF
VVRCCCJFFF
VVVVCJJCFE
VVIVCCJJEE
VVIIICJJEE
MIIIIIJJEE
MIIISIJEEE
MMMISSJEEE";

const TEST3: &str = "EEEEE
EXXXX
EEEEE
EXXXX
EEEEE";

const TEST4: &str = "AAAAAA
AAABBA
AAABBA
ABBAAA
ABBAAA
AAAAAA";

#[test]
fn day12_test_part1() {
    let grid = Grid::parse_char_grid(TEST0);
    assert_eq!(part1(&grid), 140);
    let grid = Grid::parse_char_grid(TEST1);
    assert_eq!(part1(&grid), 772);
    let grid = Grid::parse_char_grid(TEST2);
    assert_eq!(part1(&grid), 1930);
}

#[test]
fn day12_test_part2() {
    let grid = Grid::parse_char_grid(TEST0);
    assert_eq!(part2(&grid), 80);
    let grid = Grid::parse_char_grid(TEST1);
    assert_eq!(part2(&grid), 436);
    let grid = Grid::parse_char_grid(TEST2);
    assert_eq!(part2(&grid), 1206);
    let grid = Grid::parse_char_grid(TEST3);
    assert_eq!(part2(&grid), 236);
    let grid = Grid::parse_char_grid(TEST4);
    assert_eq!(part2(&grid), 368);
}

#[test]
fn day12_letter_sets_in_first_seen_order() {
    let grid = Grid::parse_char_grid(TEST0);
    let sets = get_point_sets_by_letter(&grid);
    let letters: Vec<char> = sets.iter().map(|(c, _)| *c).collect();
    assert_eq!(letters, vec!['A', 'B', 'C', 'D', 'E']);
    assert_eq!(sets[3].1, vec![Loc(1, 3)]);
    assert_eq!(sets[1].1.len(), 4);
}

#[test]
fn day12_split_regions_of_one_letter() {
    // the O region of TEST1 is one piece; the four X plots are four pieces
    let grid = Grid::parse_char_grid(TEST1);
    let sets = get_point_sets_by_letter(&grid);
    let x = sets.iter().find(|(c, _)| *c == 'X').unwrap();
    let blocks = get_blocks(&x.1);
    assert_eq!(blocks.len(), 4);
    assert!(blocks.iter().all(|b| b.len() == 1));
    let o = sets.iter().find(|(c, _)| *c == 'O').unwrap();
    let blocks = get_blocks(&o.1);
    assert_eq!(blocks.len(), 1);
    assert_eq!(blocks[0].len(), 21);
    assert_eq!(blocks[0][0], Loc(0, 0));
}

#[test]
fn day12_area_perimeter_sides() {
    // an L of three plots: area 3, perimeter 8, six sides
    let block = vec![Loc(0, 0), Loc(1, 0), Loc(1, 1)];
    assert_eq!(get_area(&block), 3);
    assert_eq!(get_perimeter(&block), 8);
    assert_eq!(get_num_sides(&block), 6);
    // a single plot
    let single = vec![Loc(5, 5)];
    assert_eq!(get_perimeter(&single), 4);
    assert_eq!(get_num_sides(&single), 4);
}

#[test]
fn day12_empty_garden() {
    let grid: Grid<char> = Grid::new(0, 0);
    assert_eq!(part1(&grid), 0);
    assert_eq!(part2(&grid), 0);
}

#[test]
fn day12_sides_cost_at_most_fence() {
    for text in [TEST0, TEST1, TEST2, TEST3, TEST4] {
        let g = Grid::parse_char_grid(text);
        assert!(part2(&g) <= part1(&g));
    }
}
