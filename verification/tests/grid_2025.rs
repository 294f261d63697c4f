use mdraoc::y2025::grid::Grid;

const TEST_CHAR_1: &str = "
abcabcabc
defdefdef
ghighighi
";

const TEST_NUM_1: &str = "
123123123
456456456
789789789
";

#[test]
fn test_grid_new_char() {
    Grid::new_char(TEST_CHAR_1).unwrap();
}

#[test]
fn test_grid_new_u8() {
    Grid::new_u8(TEST_NUM_1).unwrap();
}

#[test]
fn test_grid_dense_string() {
    let g: Grid<u8> = Grid::new_u8(TEST_NUM_1).unwrap();
    println!("\n{}", g.as_dense_string());
}

#[test]
fn test_grid_padded_string() {
    let g: Grid<u8> = Grid::new_u8(TEST_NUM_1).unwrap();
    println!("\n{}", g.as_padded_string(2, 1));
}

#[test]
fn test_grid_dense_string_exact() {
    let g: Grid<u8> = Grid::new_u8("12\n34").unwrap();
    assert_eq!(g.as_dense_string(), "12\n34\n");
    assert_eq!(g.as_padded_string(1, 1), " 1 2\n\n 3 4\n\n");
}

#[test]
fn test_grid_2025_accessors() {
    let mut g = Grid::new_char(TEST_CHAR_1).unwrap();
    assert_eq!(g.height(), 3);
    assert_eq!(g.width(), 9);
    assert_eq!(g.capacity(), 27);
    assert_eq!(*g.at(1, 2).unwrap(), 'f');
    assert_eq!(g.position_to_index(2, 3).unwrap(), 21);
    assert!(g.is_inbounds(0, 0));
    assert!(!g.is_inbounds(3, 0));
    assert!(!g.is_inbounds(0, -1));
    *g.at_mut(0, 0).unwrap() = 'z';
    assert_eq!(g.elems()[0], 'z');
    let e = g.at(3, 0).unwrap_err();
    assert_eq!(e.0, "(3, 0) is not in bounds for 3x9 grid");
    let e = g.at_mut(-1, 4).unwrap_err();
    assert_eq!(e.0, "(-1, 4) is not in bounds for 3x9 grid");
}

#[test]
fn test_grid_2025_parse_errors() {
    let e = Grid::new_char("\n\n").unwrap_err();
    assert_eq!(e.0, "found zero columns in input");
    let e = Grid::new_char("ab\nc").unwrap_err();
    assert_eq!(e.0, "found mismatched line lengths in input");
    let g = Grid::new_u8("\n\n09\n").unwrap();
    assert_eq!(g.elems(), &vec![0u8, 9]);
}

#[test]
fn test_grid_2025_write_then_read() {
    let mut g = Grid::new_char(TEST_CHAR_1).unwrap();
    *g.at_mut(2, 4).unwrap() = 'Q';
    assert_eq!(*g.at(2, 4).unwrap(), 'Q');
    assert_eq!(*g.at(2, 3).unwrap(), 'g');
    assert_eq!(*g.at(1, 4).unwrap(), 'e');
}

#[test]
fn test_grid_2025_padded_exact() {
    let g: Grid<u8> = Grid::new_u8("12\n34").unwrap();
    assert_eq!(g.as_padded_string(0, 0), "12\n34\n");
    assert_eq!(g.as_padded_string(2, 1), "  1  2\n\n  3  4\n\n");
    let c = Grid::new_char("ab\ncd").unwrap();
    assert_eq!(c.as_padded_string(1, 0), "a b \nc d \n");
    assert_eq!(c.as_dense_string(), "ab\ncd\n");
}

#[test]
fn test_grid_2025_ascii_full() {
    let mut g = Grid::new_char(TEST_CHAR_1).unwrap();
    assert_eq!(g.capacity(), g.elems().len());
    *g.at_mut(1, 1).unwrap() = 'x';
    assert_eq!(g.capacity(), (g.width() * g.height()) as usize);
    assert_eq!(g.capacity(), g.elems().len());
}
