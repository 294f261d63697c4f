use mdraoc::grid::{Delta, Edge, Grid, Loc};

#[test]
fn test_loc_new() {
    Loc::new(37, 73);
}

#[test]
fn test_loc_01() {
    let loc = Loc(37, 73);
    assert_eq!(loc.row(), 37);
    assert_eq!(loc.col(), 73);
}

#[test]
fn test_loc_01_i32() {
    let loc = Loc(37, 73);
    assert_eq!(loc.row(), 37);
    assert_eq!(loc.col(), 73);
}

#[test]
fn test_loc_sub() {
    let loc1 = Loc::new(1, 2);
    let loc2 = Loc::new(3, 6);
    let expected = Delta::new(2, 4);
    assert_eq!(loc2 - loc1, expected);
}

#[test]
fn test_delta_new() {
    Delta::new(-37, 37);
}

#[test]
fn test_delta_01() {
    let d = Delta(-37, 37);
    assert_eq!(d.nrows(), -37);
    assert_eq!(d.ncols(), 37);
}

#[test]
fn test_delta_rot_cw() {
    let (left, right, up, down) = (Delta::left(), Delta::right(), Delta::up(), Delta::down());
    assert_eq!(left.rot_cw(), up);
    assert_eq!(up.rot_cw(), right);
    assert_eq!(right.rot_cw(), down);
    assert_eq!(down.rot_cw(), left);
}

#[test]
fn test_delta_rot_ccw() {
    let (left, right, up, down) = (Delta::left(), Delta::right(), Delta::up(), Delta::down());
    assert_eq!(left.rot_ccw(), down);
    assert_eq!(down.rot_ccw(), right);
    assert_eq!(right.rot_ccw(), up);
    assert_eq!(up.rot_ccw(), left);
}

#[test]
fn test_loc_delta_add() {
    let loc = Loc::new(1, 2);
    let delta = Delta::new(3, 6);
    let expected = Loc::new(4, 8);
    assert_eq!(loc + delta, expected);
}

#[test]
fn test_edge_beside_horizontal() {
    let a = Loc::new(2, 3);
    let delta = Delta::down();
    let b = a + delta;
    let edge = Edge::beside(a, delta).unwrap();
    let expected = Edge::Horizontal(b);
    assert_eq!(edge, expected);

    let delta = Delta::up();
    let edge = Edge::beside(a, delta).unwrap();
    let expected = Edge::Horizontal(a);
    assert_eq!(edge, expected);
}

#[test]
fn test_edge_beside_vertical() {
    let a = Loc::new(2, 3);
    let delta = Delta::right();
    let b = a + delta;
    let edge = Edge::beside(a, delta).unwrap();
    let expected = Edge::Vertical(b);
    assert_eq!(edge, expected);

    let delta = Delta::left();
    let edge = Edge::beside(a, delta).unwrap();
    let expected = Edge::Vertical(a);
    assert_eq!(edge, expected);
}

#[test]
fn test_edge_between_horizontal() {
    let a = Loc::new(2, 3);
    let b = a + Delta::down();

    let edge = Edge::between(a, b).unwrap();
    let expected = Edge::Horizontal(b);
    assert_eq!(edge, expected);

    let edge = Edge::between(b, a).unwrap();
    let expected = Edge::Horizontal(b);
    assert_eq!(edge, expected);
}

#[test]
fn test_edge_between_vertical() {
    let a = Loc::new(2, 3);
    let b = a + Delta::right();

    let edge = Edge::between(a, b).unwrap();
    let expected = Edge::Vertical(b);
    assert_eq!(edge, expected);

    let edge = Edge::between(b, a).unwrap();
    let expected = Edge::Vertical(b);
    assert_eq!(edge, expected);
}

#[test]
fn test_edge_between_not_adjacent() {
    let a = Loc::new(2, 3);
    let b = Loc::new(3, 4);
    assert!(Edge::between(a, b).is_err());
    assert!(Edge::beside(a, Delta::new(1, 1)).is_err());
}

#[test]
fn test_edge_next() {
    assert_eq!(Edge::Horizontal(Loc(2, 3)).next(), Edge::Horizontal(Loc(2, 4)));
    assert_eq!(Edge::Vertical(Loc(2, 3)).next(), Edge::Vertical(Loc(3, 3)));
}

#[test]
fn test_grid_new_i32() {
    let g: Grid<i32> = Grid::new(3, 3);
    for i in 0..9 {
        assert_eq!(g.raw_data()[i], 0);
    }
}

#[test]
fn test_grid_new_u32() {
    let g: Grid<u32> = Grid::new(3, 3);
    for i in 0..9 {
        assert_eq!(g.raw_data()[i], 0);
    }
}

#[test]
fn lib_test_grid_new_char() {
    let g: Grid<char> = Grid::new(3, 3);
    for i in 0..9 {
        assert_eq!(g.raw_data()[i], '\0');
    }
}

#[test]
fn test_grid_from_value_i32() {
    let g: Grid<i32> = Grid::from_value(3, 3, -37);
    for i in 0..9 {
        assert_eq!(g.raw_data()[i], -37);
    }
}

#[test]
fn test_grid_from_value_u32() {
    let g: Grid<u32> = Grid::from_value(3, 3, 37);
    for i in 0..9 {
        assert_eq!(g.raw_data()[i], 37);
    }
}

#[test]
fn test_grid_from_value_char() {
    let g: Grid<char> = Grid::from_value(3, 3, 'α');
    for i in 0..9 {
        assert_eq!(g.raw_data()[i], 'α');
    }
}

#[test]
fn test_grid_from_array_u8() {
    let input = [&[0u8, 1, 2] as &[u8], &[3, 4, 5], &[6, 7, 8]];
    let g = Grid::from_array(3, 3, &input[..]);
    for (i, &(_loc, &val)) in g.each_item().iter().enumerate() {
        assert_eq!(val, i.try_into().expect("should fit in u8"));
    }
}

#[test]
fn test_grid_size() {
    let g: Grid<u8> = Grid::new(3, 7);
    assert_eq!(g.size(), 21);
}

#[test]
fn test_grid_u32_to_index() {
    let g: Grid<u8> = Grid::new(3, 7);
    let index = g.u32_to_index(2, 6);
    assert_eq!(index, 2 * 7 + 6);
}

#[test]
fn test_grid_transform_char_char() {
    let s = "
abc
def
ghi";
    let g = Grid::parse_char_grid(s.trim());
    let s2 = "
ABC
DEF
GHI";
    let expected = Grid::parse_char_grid(s2);
    let g2 = g.transform(|(_loc, c)| c.to_ascii_uppercase());
    assert_eq!(g2, expected);
}

#[test]
fn test_grid_transform_int_int() {
    let g: Grid<i32> = Grid::new(3, 3);
    let g2 = g.transform(|(loc, _val)| loc.row() + loc.col());
    let expected = &[&[0, 1, 2] as &[i32], &[1, 2, 3], &[2, 3, 4]];
    assert_eq!(g2, Grid::from_array(3, 3, expected));
}

#[test]
fn test_grid_at() {
    let mut g: Grid<u8> = Grid::new(3, 7);
    let loc = Loc(2, 6);
    *g.at_mut(loc) = 37;
    assert_eq!(*g.at(loc), 37);
}

#[test]
fn test_grid_at_u32() {
    let mut g: Grid<u8> = Grid::new(3, 7);
    *g.at_u32_mut(2, 6) = 37;
    assert_eq!(*g.at_u32(2, 6), 37);
}

#[test]
fn test_grid_at_u64() {
    let mut g: Grid<u8> = Grid::new(3, 7);
    *g.at_u64_mut(2, 6) = 37;
    assert_eq!(*g.at_u32(2, 6), 37);
}

#[test]
fn test_grid_at_usize() {
    let mut g: Grid<u8> = Grid::new(3, 7);
    *g.at_u64_mut(2, 6) = 37;
    assert_eq!(*g.at_u32(2, 6), 37);
}

#[test]
fn test_grid_at_i32() {
    let mut g: Grid<u8> = Grid::new(3, 7);
    *g.at_i32_mut(2, 6) = 37;
    assert_eq!(*g.at_i32(2, 6), 37);
}

#[test]
fn test_grid_at_other_widths() {
    let mut g: Grid<u8> = Grid::new(3, 7);
    *g.at_usize_mut(1, 2) = 5;
    *g.at_i64_mut(2, 3) = 6;
    assert_eq!(*g.at_usize(1, 2), 5);
    assert_eq!(*g.at_i64(2, 3), 6);
    assert_eq!(*g.at_u64(1, 2), 5);
    assert_eq!(g.raw_data()[1 * 7 + 2], 5);
}

#[test]
fn test_grid_each_loc_row_major() {
    let g: Grid<u8> = Grid::new(2, 3);
    let locs = g.each_loc();
    assert_eq!(locs, vec![Loc(0, 0), Loc(0, 1), Loc(0, 2), Loc(1, 0), Loc(1, 1), Loc(1, 2)]);
    assert_eq!(g.nrows(), 2);
    assert_eq!(g.ncols(), 3);
}

#[test]
fn test_grid_each_value_mut() {
    let mut g: Grid<u8> = Grid::new(2, 2);
    for v in g.each_value_mut().iter_mut() {
        *v = 4;
    }
    assert_eq!(g.each_value(), &[4, 4, 4, 4]);
}

#[test]
fn test_parse_char_grid_short_lines() {
    let g = Grid::parse_char_grid("  ab\nc\n\n");
    assert_eq!(g.nrows(), 2);
    assert_eq!(g.ncols(), 2);
    assert_eq!(g.raw_data(), &vec!['a', 'b', 'c', '\0']);
}

#[test]
fn test_loc_conversions() {
    assert_eq!(Loc::from_usize(3, 4), Loc(3, 4));
    assert_eq!(Loc::from_u32(3, 4), Loc(3, 4));
    assert_eq!(Loc::from_u64(3, 4), Loc(3, 4));
    assert_eq!(Loc::from_i64(-3, 4), Loc(-3, 4));
    let l = Loc(-1, 5);
    assert_eq!(l.row_u32(), u32::MAX);
    assert_eq!(l.col_u32(), 5);
    assert_eq!(l.row_usize(), usize::MAX);
    assert_eq!(l.col_usize(), 5);
}

#[test]
fn test_grid_each_item_mut() {
    let mut g: Grid<i32> = Grid::new(2, 3);
    {
        let (locs, values) = g.each_item_mut();
        for (loc, v) in locs.iter().zip(values.iter_mut()) {
            *v = loc.row() * 10 + loc.col();
        }
    }
    assert_eq!(g.raw_data(), &vec![0, 1, 2, 10, 11, 12]);
}
