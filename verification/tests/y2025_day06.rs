use mdraoc::y2025::day06::{
    part1, part2, tasks_from_text, tasks_from_text_part2, Op, Task, ToOp,
};

const TEST1: &str = "
123 328  51 64 
 45 64  387 23 
  6 98  215 314
*   +   *   +  

";

#[test]
fn test_parse_problem() {
    let _p = tasks_from_text(TEST1);
}

#[test]
fn y2025_day06_test_part1() {
    let result = part1(TEST1);
    assert_eq!(result, 4277556);
}

#[test]
fn y2025_day06_test_part2() {
    let result = part2(TEST1);
    assert_eq!(result, 3263827);
}

#[test]
fn test_tasks_oblivious() {
    let tasks = tasks_from_text(TEST1);
    assert_eq!(tasks.len(), 4);
    assert_eq!(tasks[0].nums, vec![123, 45, 6]);
    assert_eq!(tasks[0].op, Op::Mul);
    assert_eq!(tasks[3].nums, vec![64, 23, 314]);
    assert_eq!(tasks[3].op, Op::Add);
}

#[test]
fn test_tasks_by_column() {
    let tasks = tasks_from_text_part2(TEST1);
    assert_eq!(tasks.len(), 4);
    assert_eq!(tasks[0].nums, vec![1, 24, 356]);
    assert_eq!(tasks[0].op, Op::Mul);
    assert_eq!(tasks[3].nums, vec![623, 431, 4]);
    assert_eq!(tasks[3].op, Op::Add);
}

#[test]
fn test_task_result() {
    let t = Task { nums: vec![2, 3, 7], op: Op::Mul };
    assert_eq!(t.result(), 42);
    let t = Task { nums: vec![2, 3, 7], op: Op::Add };
    assert_eq!(t.result(), 12);
    let t = Task { nums: vec![], op: Op::Mul };
    assert_eq!(t.result(), 1);
    let t = Task { nums: vec![], op: Op::Add };
    assert_eq!(t.result(), 0);
}

#[test]
fn test_maybe_op() {
    assert_eq!('+'.maybe_op(), Some(Op::Add));
    assert_eq!('*'.maybe_op(), Some(Op::Mul));
    assert_eq!('-'.maybe_op(), None);
    assert_eq!("+".maybe_op(), Some(Op::Add));
    assert_eq!("*".maybe_op(), Some(Op::Mul));
    assert_eq!("**".maybe_op(), None);
    assert_eq!("".maybe_op(), None);
}
