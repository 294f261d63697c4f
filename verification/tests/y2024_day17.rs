use mdraoc::y2024::day17::{part1, part2, Computer, Instruction, Opcode, Operand};

const TEST: &str = "
Register A: 729
Register B: 0
Register C: 0

Program: 0,1,5,4,3,0";

const TEST2: &str = "
Register A: 2024
Register B: 0
Register C: 0

Program: 0,3,5,4,3,0";

#[test]
fn day17_test_parse() {
    let _c = Computer::new(TEST.trim());
}

#[test]
fn test_ex1() {
    let text = "
Register A: 0
Register B: 0
Register C: 9

Program: 2,6";
    let comp = Computer::new(text.trim());
    let result = comp.run();
    assert_eq!(result.b, 1);
}

#[test]
fn test_ex2() {
    let text = "
Register A: 10
Register B: 0
Register C: 0

Program: 5,0,5,1,5,4";
    let comp = Computer::new(text.trim());
    let result = comp.run();
    assert_eq!(result.out, vec![0, 1, 2]);
}

#[test]
fn test_ex3() {
    let text = "
Register A: 2024
Register B: 0
Register C: 0

Program: 0,1,5,4,3,0";
    let comp = Computer::new(text.trim());
    let result = comp.run();
    assert_eq!(result.out, vec![4, 2, 5, 6, 7, 7, 7, 7, 3, 1, 0]);
    assert_eq!(result.a, 0);
}

#[test]
fn test_ex4() {
    let text = "
Register A: 0
Register B: 2024
Register C: 43690

Program: 4,0";
    let comp = Computer::new(text.trim());
    let result = comp.run();
    assert_eq!(result.b, 44354);
}

#[test]
fn test_run() {
    let comp = Computer::new(TEST);
    let result = comp.run();
    let expected = vec![4, 6, 3, 5, 6, 3, 5, 2, 1, 0];
    assert_eq!(result.out, expected);
}

#[test]
fn day17_test_part1() {
    let comp = Computer::new(TEST);
    let result = part1(&comp);
    let expected = "4,6,3,5,6,3,5,2,1,0";
    assert_eq!(result, expected);
}

#[test]
fn day17_test_part2() {
    let comp = Computer::new(TEST2);
    let result = part2(&comp);
    assert_eq!(result, 117440);
}

#[test]
fn test_part2_print() {
    let mut comp = Computer::new(TEST2);
    for a in 117440 - 2..=117440 + 10 {
        comp.a = a;
        comp.run();
        let s = comp
            .progstr("")
            .chars()
            .rev()
            .map(|c| c.to_string())
            .collect::<Vec<_>>()
            .join("");
        println!("a = {a} = {a:#o} | s = {} | prog = {}", s, comp.progstr(""));
    }
}

#[test]
fn test_new_fields() {
    let comp = Computer::new("junk Register A: 7\nRegister B: 8\nRegister C: 9\n\nProgram: 1,2,3");
    assert_eq!((comp.a, comp.b, comp.c, comp.ptr), (7, 8, 9, 0));
    assert_eq!(
        comp.prog,
        vec![Instruction { opcode: Opcode::Bxl, operand: Operand(2) }]
    );
    assert!(comp.out.is_empty());
}

#[test]
fn test_step_and_halt() {
    let mut comp = Computer::new("Register A: 5\nRegister B: 0\nRegister C: 0\n\nProgram: 5,4");
    assert!(comp.step());
    assert_eq!(comp.out, vec![5]);
    assert_eq!(comp.ptr, 1);
    assert!(!comp.step());
    assert_eq!(comp.ptr, 1);
}

#[test]
fn test_progstr_outstr() {
    let comp = Computer::new(TEST2);
    assert_eq!(comp.progstr(","), "0,3,5,4,3,0");
    assert_eq!(comp.progstr("-"), "0-3-5-4-3-0");
    assert_eq!(comp.progstr(""), "035430");
    let comp = Computer::new(TEST).run();
    assert_eq!(comp.outstr(), "4,6,3,5,6,3,5,2,1,0");
}

#[test]
fn test_opcode_digits() {
    for c in 0u8..8 {
        assert_eq!(Opcode::from_u8(c).as_digit(), c);
    }
    assert_eq!(Opcode::Bxc.to_string(), "Bxc");
}
