use mdraoc::y2025::day01::{parse_moves, part1, part2, Move, Position};

const TEST1: &str = "L68
L30
R48
L5
R60
L55
L1
L99
R14
L82";

#[test]
fn test_move() {
    let mut p = Position(50);
    p = p.apply(&Move(-20)).apply(&Move(10));
    assert_eq!(p.0, 40);
}

#[test]
fn test_move_counted_1() {
    let p = Position(50);
    let (p, n) = p.apply_counted(&Move(-68));
    assert_eq!(p.pos(), 82);
    assert_eq!(n, 1);
}

#[test]
fn test_move_counted_2() {
    let p = Position(50);
    let (p, n) = p.apply_counted(&Move(1000));
    assert_eq!(p.pos(), 50);
    assert_eq!(n, 10);
}

#[test]
fn test_move_counted_3() {
    let p = Position(50);
    let (p, n) = p.apply_counted(&Move(-1000));
    assert_eq!(p.pos(), 50);
    assert_eq!(n, 10);
}

#[test]
fn test_move_counted_several() {
    let mut pos = Position(50);
    let moves = parse_moves(TEST1);
    let ps = vec![82, 52, 0, 95, 55, 0, 99, 0, 14, 32];
    let ns = vec![1, 0, 1, 0, 1, 1, 0, 1, 0, 1];
    for ((m, &p), &c) in moves.iter().zip(ps.iter()).zip(ns.iter()) {
        let (newpos, n) = pos.apply_counted(m);
        pos = newpos;
        println!(
            "MOVE {:>8?} || pos = {} ({}) vs {} // n = {} vs {}",
            m,
            pos.pos(),
            pos.0,
            p,
            n,
            c
        );
        assert_eq!(pos.pos(), p);
        assert_eq!(n, c as u32);
    }
}

#[test]
fn test_parse_moves_1() {
    let s = "L68";
    let moves = parse_moves(s);

    let expected = vec![Move(-68)];
    assert_eq!(moves, expected);
}

#[test]
fn test_parse_moves_2() {
    let s = "L68\nL30\nR48";
    let moves = parse_moves(s);

    let expected = vec![Move(-68), Move(-30), Move(48)];
    assert_eq!(moves, expected);
}

#[test]
fn main_test_part1() {
    let moves = parse_moves(TEST1);
    let expected = 3;
    let result = part1(&moves);
    assert_eq!(result, expected)
}

#[test]
fn main_test_part2() {
    let moves = parse_moves(TEST1);
    let expected = 6;
    let result = part2(&moves);
    assert_eq!(result, expected)
}

#[test]
fn test_move_from_line_and_pos() {
    assert_eq!(Move::from_line("R+7"), Move(7));
    assert_eq!(Move::from_line("L0"), Move(0));
    assert_eq!(Position(-1).pos(), 99);
    assert_eq!(Position(-100).pos(), 0);
    let (p, n) = Position(0).apply_counted(&Move(-1));
    assert_eq!((p.0, n), (-1, 0));
    let (p, n) = Position(1).apply_counted(&Move(-1));
    assert_eq!((p.0, n), (0, 1));
}
