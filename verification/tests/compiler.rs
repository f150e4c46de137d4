use barb::compiler::{plan_blocks, Block, Effect, Exit};
use barb::interpreter::{parse_code, Action, Interpreter};
use barb::shared::Operation;

#[test]
fn plan_of_empty_program() {
    assert!(plan_blocks(&[]).is_empty());
}

#[test]
fn plan_chains_blocks_to_return() {
    let blocks = plan_blocks(&[Operation::Next, Operation::Output]);
    assert_eq!(
        blocks,
        vec![
            Block { effect: Effect::PointerForward, exit: Exit::Goto(1) },
            Block { effect: Effect::PutChar, exit: Exit::Goto(2) },
        ]
    );
}

#[test]
fn plan_of_each_operation() {
    let ops = parse_code("><+-.,");
    let effects: Vec<Effect> = plan_blocks(&ops).iter().map(|b| b.effect).collect();
    assert_eq!(
        effects,
        vec![
            Effect::PointerForward,
            Effect::PointerBack,
            Effect::CellIncrement,
            Effect::CellDecrement,
            Effect::PutChar,
            Effect::GetChar,
        ]
    );
}

#[test]
fn plan_branches_to_bracket_blocks() {
    let ops = parse_code("[-]+");
    let blocks = plan_blocks(&ops);
    assert_eq!(blocks[0], Block { effect: Effect::Nothing, exit: Exit::IfZero(2, 1) });
    assert_eq!(blocks[1], Block { effect: Effect::CellDecrement, exit: Exit::Goto(2) });
    assert_eq!(blocks[2], Block { effect: Effect::Nothing, exit: Exit::IfNonzero(0, 3) });
    assert_eq!(blocks[3], Block { effect: Effect::CellIncrement, exit: Exit::Goto(4) });
}

/// Runs planned blocks the way the compiled code does: 8-bit cells and a
/// 64-bit data pointer that wrap, `getchar` reading from `input` and then
/// giving 255 (the low byte of end of input).
fn run_plan(blocks: &[Block], input: &[u8]) -> Vec<u8> {
    let mut mem = vec![0u8; 30000];
    let mut dp: u64 = 0;
    let mut b = 0usize;
    let mut bytes = input.iter();
    let mut out = Vec::new();
    while b < blocks.len() {
        let block = blocks[b];
        let cell = dp as usize;
        match block.effect {
            Effect::Nothing => {}
            Effect::PointerForward => dp = dp.wrapping_add(1),
            Effect::PointerBack => dp = dp.wrapping_sub(1),
            Effect::CellIncrement => mem[cell] = mem[cell].wrapping_add(1),
            Effect::CellDecrement => mem[cell] = mem[cell].wrapping_sub(1),
            Effect::PutChar => out.push(mem[cell]),
            Effect::GetChar => mem[cell] = *bytes.next().unwrap_or(&255),
        }
        let cell = dp as usize;
        b = match block.exit {
            Exit::Goto(n) => n,
            Exit::IfZero(t, n) => if mem[cell] == 0 { t } else { n },
            Exit::IfNonzero(t, n) => if mem[cell] != 0 { t } else { n },
        };
    }
    out
}

fn interpret(ops: Vec<Operation>, input: &[u8]) -> Vec<u8> {
    let mut m = Interpreter { memory: [0; 30000], data_ptr: 0, instr_ptr: 0, program: ops };
    let mut bytes = input.iter();
    let mut pending = None;
    let mut out = Vec::new();
    loop {
        assert_eq!(m.fault(), None);
        match m.step(pending.take()) {
            Action::Halted => break,
            Action::Output(b) => out.push(b),
            Action::NeedInput => pending = Some(*bytes.next().unwrap_or(&0)),
            Action::Continue => {}
        }
    }
    out
}

#[test]
fn compiled_plan_writes_what_interpreter_writes() {
    let programs: [(&str, &[u8]); 4] = [
        (">++++++++[<+++++++++>-]<.>++++[<+++++++>-]<+.+++++++..+++.>>++++++[<+++++++>-]<++.------------.>++++++[<+++++++++>-]<+.<.+++.------.--------.>>>++++[<++++++++>-]<+.", b""),
        (",[.,]", b"copy me\0"),
        ("+++[>++++<-]>.", b""),
        ("", b""),
    ];
    for (code, input) in programs {
        let ops = parse_code(code);
        let plan = plan_blocks(&ops);
        assert_eq!(run_plan(&plan, input), interpret(ops, input));
    }
}

#[test]
fn compiled_read_at_end_of_input_differs() {
    let ops = parse_code(",.");
    let plan = plan_blocks(&ops);
    assert_eq!(run_plan(&plan, b""), vec![255]);
    assert_eq!(interpret(ops, b""), vec![0]);
}

/// Steps of the planned blocks until the return block, at most `limit`.
fn plan_steps(blocks: &[Block], limit: usize) -> Option<usize> {
    let mut mem = vec![0u8; 30000];
    let mut dp: u64 = 0;
    let mut b = 0usize;
    for n in 0..limit {
        if b >= blocks.len() {
            return Some(n);
        }
        let block = blocks[b];
        let cell = dp as usize;
        match block.effect {
            Effect::PointerForward => dp = dp.wrapping_add(1),
            Effect::PointerBack => dp = dp.wrapping_sub(1),
            Effect::CellIncrement => mem[cell] = mem[cell].wrapping_add(1),
            Effect::CellDecrement => mem[cell] = mem[cell].wrapping_sub(1),
            _ => {}
        }
        let cell = dp as usize;
        b = match block.exit {
            Exit::Goto(n) => n,
            Exit::IfZero(t, n) => if mem[cell] == 0 { t } else { n },
            Exit::IfNonzero(t, n) => if mem[cell] != 0 { t } else { n },
        };
    }
    if b >= blocks.len() { Some(limit) } else { None }
}

/// Steps of the interpreter until it halts, at most `limit`.
fn interpreter_steps(ops: Vec<Operation>, limit: usize) -> Option<usize> {
    let mut m = Interpreter { memory: [0; 30000], data_ptr: 0, instr_ptr: 0, program: ops };
    for n in 0..limit {
        if m.is_halted() {
            return Some(n);
        }
        assert_eq!(m.fault(), None);
        m.step(None);
    }
    if m.is_halted() { Some(limit) } else { None }
}

#[test]
fn compiled_and_interpreted_stop_together() {
    for code in ["+[]", "+++[-]", "++[>+++[-]<-]", "", "+[>+<]"] {
        let ops = parse_code(code);
        let plan = plan_blocks(&ops);
        assert_eq!(plan_steps(&plan, 1000), interpreter_steps(ops, 1000));
    }
}
