use barb::interpreter::{parse_code, Action, Fault, Interpreter};
use barb::shared::Operation;

fn machine(program: Vec<Operation>) -> Interpreter {
    Interpreter { memory: [0; 30000], data_ptr: 0, instr_ptr: 0, program }
}

fn run(program: Vec<Operation>, input: &[u8]) -> Vec<u8> {
    let mut m = machine(program);
    let mut bytes = input.iter();
    let mut pending = None;
    let mut out = Vec::new();
    loop {
        assert_eq!(m.fault(), None);
        match m.step(pending.take()) {
            Action::Halted => break,
            Action::Output(b) => out.push(b),
            Action::NeedInput => pending = Some(*bytes.next().unwrap_or(&0)),
            Action::Continue => {}
        }
    }
    out
}

const HELLO: &str = ">++++++++[<+++++++++>-]<.>++++[<+++++++>-]<+.+++++++..+++.>>++++++[<+++++++>-]<++.------------.>++++++[<+++++++++>-]<+.<.+++.------.--------.>>>++++[<++++++++>-]<+.";

#[test]
fn hello_world_program_prints_greeting() {
    let out = run(parse_code(HELLO), &[]);
    assert_eq!(out, b"Hello, World!".to_vec());
}

#[test]
fn echo_program_copies_input() {
    let out = run(parse_code(",.,.,."), b"abc");
    assert_eq!(out, b"abc".to_vec());
}

#[test]
fn cat_until_zero() {
    let out = run(parse_code(",[.,]"), b"hi\0rest");
    assert_eq!(out, b"hi".to_vec());
}

#[test]
fn loop_adds_cells() {
    // 3 * 4 into cell 1, printed as the byte 12
    let out = run(parse_code("+++[>++++<-]>."), &[]);
    assert_eq!(out, vec![12]);
}

#[test]
fn step_increments_and_advances() {
    let mut m = machine(vec![Operation::Increment, Operation::Next, Operation::Decrement]);
    m.memory[1] = 5;
    assert_eq!(m.step(None), Action::Continue);
    assert_eq!(m.memory[0], 1);
    assert_eq!(m.instr_ptr, 1);
    assert_eq!(m.step(None), Action::Continue);
    assert_eq!(m.data_ptr, 1);
    assert_eq!(m.step(None), Action::Continue);
    assert_eq!(m.memory[1], 4);
    assert_eq!(m.instr_ptr, 3);
    assert!(m.is_halted());
    assert_eq!(m.step(None), Action::Halted);
    assert_eq!(m.instr_ptr, 3);
    assert_eq!(m.data_ptr, 1);
    assert_eq!(m.program, vec![Operation::Increment, Operation::Next, Operation::Decrement]);
}

#[test]
fn input_waits_for_a_byte() {
    let mut m = machine(vec![Operation::Input]);
    assert_eq!(m.step(None), Action::NeedInput);
    assert_eq!(m.instr_ptr, 0);
    assert_eq!(m.memory[0], 0);
    assert_eq!(m.step(Some(65)), Action::Continue);
    assert_eq!(m.memory[0], 65);
    assert_eq!(m.instr_ptr, 1);
}

#[test]
fn output_reports_the_cell() {
    let mut m = machine(vec![Operation::Output]);
    m.memory[0] = 72;
    assert_eq!(m.step(None), Action::Output(72));
    assert_eq!(m.instr_ptr, 1);
}

#[test]
fn jumps_follow_the_cell() {
    let mut m = machine(vec![Operation::JumpIfZero(1), Operation::JumpIfNonzero(0)]);
    assert_eq!(m.step(None), Action::Continue);
    assert_eq!(m.instr_ptr, 1);
    m.memory[0] = 1;
    assert_eq!(m.step(None), Action::Continue);
    assert_eq!(m.instr_ptr, 0);
    assert_eq!(m.step(None), Action::Continue);
    assert_eq!(m.instr_ptr, 1);
    m.memory[0] = 0;
    assert_eq!(m.step(None), Action::Continue);
    assert_eq!(m.instr_ptr, 2);
}

#[test]
fn faults_are_reported() {
    assert_eq!(machine(vec![Operation::Prev]).fault(), Some(Fault::PointerUnderflow));
    assert_eq!(machine(vec![Operation::Decrement]).fault(), Some(Fault::CellUnderflow));
    let mut m = machine(vec![Operation::Increment]);
    m.memory[0] = 255;
    assert_eq!(m.fault(), Some(Fault::CellOverflow));
    let mut m = machine(vec![Operation::Output]);
    m.data_ptr = 30000;
    assert_eq!(m.fault(), Some(Fault::OutOfMemory));
    let mut m = machine(vec![Operation::Next]);
    m.data_ptr = usize::MAX;
    assert_eq!(m.fault(), Some(Fault::PointerOverflow));
    assert_eq!(machine(vec![Operation::Next]).fault(), None);
    assert_eq!(machine(vec![]).fault(), None);
}
