use mdraoc::y2024::day08::{part1, part2, Layout, Loc};

const TEST_TEXT: &str = "............
........0...
.....0......
.......0....
....0.......
......A.....
............
............
........A...
.........A..
............
............";

#[test]
fn day08_test_parse() {
    let data = Layout::from_text(TEST_TEXT);
    assert_eq!(data.uniq_freqs(), vec!['0', 'A']);
    let groups = data.freq_locs();
    assert_eq!(groups.len(), 2);
    assert_eq!(groups[0].0, '0');
    assert_eq!(groups[0].1, vec![Loc(1, 8), Loc(2, 5), Loc(3, 7), Loc(4, 4)]);
    assert_eq!(groups[1].0, 'A');
    assert_eq!(groups[1].1, vec![Loc(5, 6), Loc(8, 8), Loc(9, 9)]);
}

#[test]
fn test_bounds() {
    let data = Layout::from_text(TEST_TEXT);
    assert!(data.is_inbounds(&Loc(0, 0)));
    assert!(data.is_inbounds(&Loc(11, 11)));
    assert!(!data.is_inbounds(&Loc(12, 11)));
    assert!(!data.is_inbounds(&Loc(11, 12)));
    assert!(!data.is_inbounds(&Loc(-1, 0)));
    assert!(!data.is_inbounds(&Loc(0, -1)));
}

#[test]
fn day08_test_part1() {
    let data = Layout::from_text(TEST_TEXT);
    assert_eq!(part1(&data), 14)
}

#[test]
fn day08_test_part2() {
    let data = Layout::from_text(TEST_TEXT);
    assert_eq!(part2(&data), 34)
}

#[test]
fn day08_shape_and_locs() {
    let data = Layout::from_text("a.\n.a\n..");
    assert_eq!(data.nrows(), 3);
    assert_eq!(data.ncols(), 2);
    assert_eq!(
        data.locs(),
        vec![Loc(0, 0), Loc(0, 1), Loc(1, 0), Loc(1, 1), Loc(2, 0), Loc(2, 1)]
    );
    let l = Loc(2, 1);
    assert_eq!((l.row(), l.col(), l.row_usize(), l.col_usize()), (2, 1, 2, 1));
}

#[test]
fn day08_two_antennas() {
    // Two antennas on a diagonal: the mirrors (2, 2) and (-1, -1) are one on
    // the map and one off it.
    let data = Layout::from_text("a...\n.a..\n....\n....");
    assert_eq!(part1(&data), 1);
    // The whole diagonal is in line with them.
    assert_eq!(part2(&data), 4);
}

#[test]
fn day08_lines_use_the_smallest_step() {
    // (0, 0) and (2, 4) share the factor 2: (1, 2) and (3, 6) are in line too.
    let data = Layout::from_text("x.......\n........\n....x...\n........");
    assert_eq!(part1(&data), 0);
    assert_eq!(part2(&data), 4);
}

#[test]
fn day08_single_antennas_and_dots() {
    let data = Layout::from_text("a.b\n...\n.c.");
    assert_eq!(part1(&data), 0);
    assert_eq!(part2(&data), 0);
    let empty = Layout::from_text("...\n...");
    assert_eq!(empty.uniq_freqs(), Vec::<char>::new());
    assert_eq!(part2(&empty), 0);
}
