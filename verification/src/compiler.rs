use vstd::prelude::*;

use crate::interpreter::{fault_of, step_result, Action, MEMORY_SIZE};
use crate::shared::{targets_in_range, Operation};

verus! {

// The compiled program is a `main` function of basic blocks: an entry block
// that clears the memory and the data pointer and jumps to block 0, one
// block per operation, and a return block. Blocks are numbered by the
// operation they belong to; the number `n` (the length of the program)
// names the return block.

/// What a block does to the machine before it leaves.
#[derive(Clone, Copy, Debug, PartialEq, Eq, Structural)]
pub enum Effect {
    /// Nothing (the jump blocks only test the current cell).
    Nothing,
    /// Add one to the 64-bit data pointer.
    PointerForward,
    /// Subtract one from the 64-bit data pointer.
    PointerBack,
    /// Add one to the current 8-bit cell.
    CellIncrement,
    /// Subtract one from the current 8-bit cell.
    CellDecrement,
    /// Pass the current cell to `putchar`.
    PutChar,
    /// Store the low 8 bits of what `getchar` returns in the current cell.
    GetChar,
}

/// How a block leaves.
#[derive(Clone, Copy, Debug, PartialEq, Eq, Structural)]
pub enum Exit {
    /// Go to the block.
    Goto(usize),
    /// Go to the first block when the current cell is zero, else to the second.
    IfZero(usize, usize),
    /// Go to the first block when the current cell is not zero, else to the second.
    IfNonzero(usize, usize),
}

/// The block of one operation.
#[derive(Clone, Copy, Debug, PartialEq, Eq, Structural)]
pub struct Block {
    pub effect: Effect,
    pub exit: Exit,
}

/// The block of operation `i` of a program of `n` operations.
pub open spec fn block_of(op: Operation, i: int, n: int) -> Block {
    let next = (i + 1) as usize;
    match op {
        Operation::Next => Block { effect: Effect::PointerForward, exit: Exit::Goto(next) },
        Operation::Prev => Block { effect: Effect::PointerBack, exit: Exit::Goto(next) },
        Operation::Increment => Block { effect: Effect::CellIncrement, exit: Exit::Goto(next) },
        Operation::Decrement => Block { effect: Effect::CellDecrement, exit: Exit::Goto(next) },
        Operation::Output => Block { effect: Effect::PutChar, exit: Exit::Goto(next) },
        Operation::Input => Block { effect: Effect::GetChar, exit: Exit::Goto(next) },
        Operation::JumpIfZero(t) => Block { effect: Effect::Nothing, exit: Exit::IfZero(t, next) },
        Operation::JumpIfNonzero(t) => Block {
            effect: Effect::Nothing,
            exit: Exit::IfNonzero(t, next),
        },
    }
}

/// The blocks of a whole program.
pub open spec fn planned(ops: Seq<Operation>) -> Seq<Block> {
    Seq::new(ops.len(), |i: int| block_of(ops[i], i, ops.len() as int))
}

/// Where the block of an operation goes: a jump branches to exactly the
/// block of the operation it names when its test holds, else to the next
/// block; every other operation goes on to the next block.
pub proof fn lemma_block_exits(op: Operation, i: int, n: int)
    requires
        0 <= i < n,
        n <= usize::MAX,
    ensures
        block_of(op, i, n).exit == match op {
            Operation::JumpIfZero(t) => Exit::IfZero(t, (i + 1) as usize),
            Operation::JumpIfNonzero(t) => Exit::IfNonzero(t, (i + 1) as usize),
            _ => Exit::Goto((i + 1) as usize),
        },
        op is JumpIfZero || op is JumpIfNonzero ==> block_of(op, i, n).effect == Effect::Nothing,
        op == Operation::Next ==> block_of(op, i, n).effect == Effect::PointerForward,
        op == Operation::Prev ==> block_of(op, i, n).effect == Effect::PointerBack,
        op == Operation::Increment ==> block_of(op, i, n).effect == Effect::CellIncrement,
        op == Operation::Decrement ==> block_of(op, i, n).effect == Effect::CellDecrement,
        op == Operation::Output ==> block_of(op, i, n).effect == Effect::PutChar,
        op == Operation::Input ==> block_of(op, i, n).effect == Effect::GetChar,
{
}

/// Lays out the blocks of the compiled program: block `i` carries out
/// operation `i` and goes on to block `i + 1` (the return block after the
/// last operation); a jump goes to the block of the bracket it names.
/// The entry block always goes to block 0, which is the return block of
/// an empty program.
pub fn plan_blocks(operations: &[Operation]) -> (blocks: Vec<Block>)
    requires
        targets_in_range(operations@),
    ensures
        blocks.len() == operations.len(),
        blocks@ == planned(operations@),
        forall|i: int|
            0 <= i < blocks.len() ==> #[trigger] blocks[i] == block_of(
                operations[i],
                i,
                operations.len() as int,
            ),
        // A jump branches to exactly the block of the operation it names, or
        // on to the next block; every other block goes on to the next.
        forall|i: int|
            0 <= i < blocks.len() ==> (#[trigger] blocks[i]).exit == match operations[i] {
                Operation::JumpIfZero(t) => Exit::IfZero(t, (i + 1) as usize),
                Operation::JumpIfNonzero(t) => Exit::IfNonzero(t, (i + 1) as usize),
                _ => Exit::Goto((i + 1) as usize),
            },
{
    let n = operations.len();
    let mut blocks: Vec<Block> = Vec::with_capacity(n);
    for i in 0..n
        invariant
            n == operations.len(),
            blocks.len() == i,
            forall|j: int|
                0 <= j < i ==> #[trigger] blocks[j] == block_of(operations[j], j, n as int),
    {
        let next_block = i + 1;
        let block = match operations[i] {
            Operation::Next => Block { effect: Effect::PointerForward, exit: Exit::Goto(next_block) },
            Operation::Prev => Block { effect: Effect::PointerBack, exit: Exit::Goto(next_block) },
            Operation::Increment => Block {
                effect: Effect::CellIncrement,
                exit: Exit::Goto(next_block),
            },
            Operation::Decrement => Block {
                effect: Effect::CellDecrement,
                exit: Exit::Goto(next_block),
            },
            Operation::Output => Block { effect: Effect::PutChar, exit: Exit::Goto(next_block) },
            Operation::Input => Block { effect: Effect::GetChar, exit: Exit::Goto(next_block) },
            Operation::JumpIfZero(target) => Block {
                effect: Effect::Nothing,
                exit: Exit::IfZero(target, next_block),
            },
            Operation::JumpIfNonzero(target) => Block {
                effect: Effect::Nothing,
                exit: Exit::IfNonzero(target, next_block),
            },
        };
        blocks.push(block);
    }
    assert(blocks@ =~= planned(operations@));
    blocks
}

/// Running one block on the memory and the data pointer of the compiled
/// program: the memory, data pointer and next block after it, and what it
/// asks of the world. Cells and the data pointer wrap around as the 8-bit
/// and 64-bit machine integers of the compiled code do; `input` is the
/// byte that `getchar` gave.
pub open spec fn run_block(block: Block, mem: Seq<u8>, dp: int, input: u8) -> (
    Seq<u8>,
    int,
    int,
    Action,
) {
    let (mem2, dp2, out) = match block.effect {
        Effect::Nothing => (mem, dp, None),
        Effect::PointerForward => (mem, (dp + 1) % 0x1_0000_0000_0000_0000, None),
        Effect::PointerBack => (mem, (dp - 1) % 0x1_0000_0000_0000_0000, None),
        Effect::CellIncrement => (mem.update(dp, ((mem[dp] + 1) % 256) as u8), dp, None),
        Effect::CellDecrement => (mem.update(dp, ((mem[dp] - 1) % 256) as u8), dp, None),
        Effect::PutChar => (mem, dp, Some(mem[dp])),
        Effect::GetChar => (mem.update(dp, input), dp, None),
    };
    let next = match block.exit {
        Exit::Goto(b) => b as int,
        Exit::IfZero(a, b) => if mem2[dp2] == 0 {
            a as int
        } else {
            b as int
        },
        Exit::IfNonzero(a, b) => if mem2[dp2] != 0 {
            a as int
        } else {
            b as int
        },
    };
    let act = match out {
        Some(c) => Action::Output(c),
        None => Action::Continue,
    };
    (mem2, dp2, next, act)
}

/// Compiling and interpreting agree: on every state in which the
/// interpreter can take its next step, running the block of the next
/// operation gives the same memory, data pointer, next operation and
/// output as that step (for `,`, with the same byte read).
pub proof fn lemma_block_matches_step(
    ops: Seq<Operation>,
    mem: Seq<u8>,
    dp: int,
    ip: int,
    input: u8,
)
    requires
        targets_in_range(ops),
        ops.len() <= usize::MAX,
        0 <= ip < ops.len(),
        0 <= dp < 0x1_0000_0000_0000_0000,
        mem.len() == MEMORY_SIZE,
        fault_of(mem, dp, ip, ops) is None,
    ensures
        run_block(block_of(ops[ip], ip, ops.len() as int), mem, dp, input) == step_result(
            mem,
            dp,
            ip,
            ops,
            Some(input),
        ),
{
    assert(usize::MAX < 0x1_0000_0000_0000_0000);
    match ops[ip] {
        Operation::Next => {
            assert((dp + 1) % 0x1_0000_0000_0000_0000 == dp + 1);
        },
        Operation::Prev => {
            assert((dp - 1) % 0x1_0000_0000_0000_0000 == dp - 1);
        },
        Operation::Increment => {
            assert((mem[dp] + 1) % 256 == mem[dp] + 1);
        },
        Operation::Decrement => {
            assert((mem[dp] - 1) % 256 == mem[dp] - 1);
        },
        _ => {},
    }
}

/// The byte that the interpreter's `,` stores: the next byte of `inputs`,
/// 0 at the end of input (a read of stdin that gives nothing leaves 0).
pub open spec fn interpreter_read(inputs: Seq<u8>) -> u8 {
    if inputs.len() > 0 {
        inputs[0]
    } else {
        0
    }
}

/// The byte that the compiled `,` stores: the next byte of `inputs`; at the
/// end of input `getchar` returns -1, whose low 8 bits are 255.
pub open spec fn compiled_read(inputs: Seq<u8>) -> u8 {
    if inputs.len() > 0 {
        inputs[0]
    } else {
        255
    }
}

/// The bytes left after a read.
pub open spec fn after_read(inputs: Seq<u8>) -> Seq<u8> {
    if inputs.len() > 0 {
        inputs.drop_first()
    } else {
        inputs
    }
}

/// The UTF-8 encoding of the character with code `c`: how the interpreter
/// prints a cell (as a `char`). Codes from 128 on take two bytes.
pub open spec fn char_bytes(c: u8) -> Seq<u8> {
    if c < 128 {
        seq![c]
    } else {
        seq![(0xC0 + c / 64) as u8, (0x80 + c % 64) as u8]
    }
}

/// The bytes that the interpreter writes for an action.
pub open spec fn interpreter_written(act: Action) -> Seq<u8> {
    match act {
        Action::Output(c) => char_bytes(c),
        _ => Seq::empty(),
    }
}

/// The bytes that the compiled code writes for an action: `putchar` writes
/// the cell itself.
pub open spec fn compiled_written(act: Action) -> Seq<u8> {
    match act {
        Action::Output(c) => seq![c],
        _ => Seq::empty(),
    }
}

/// The bytes that the interpreter writes in at most `fuel` steps from the
/// given state, reading from `inputs` in order.
pub open spec fn interpreter_output(
    prog: Seq<Operation>,
    mem: Seq<u8>,
    dp: int,
    ip: int,
    inputs: Seq<u8>,
    fuel: nat,
) -> Seq<u8>
    decreases fuel,
{
    if fuel == 0 || ip < 0 || ip >= prog.len() {
        Seq::empty()
    } else {
        let (mem2, dp2, ip2, act) = step_result(mem, dp, ip, prog, Some(interpreter_read(inputs)));
        let rest = if prog[ip] is Input {
            after_read(inputs)
        } else {
            inputs
        };
        interpreter_written(act) + interpreter_output(prog, mem2, dp2, ip2, rest, (fuel - 1) as nat)
    }
}

/// Within `fuel` steps from the given state the interpreter meets no fault,
/// no `,` finds the input used up, and no `.` writes a cell of 128 or more:
/// the runs on which compiling and interpreting can be compared byte for
/// byte.
pub open spec fn comparable_run(
    prog: Seq<Operation>,
    mem: Seq<u8>,
    dp: int,
    ip: int,
    inputs: Seq<u8>,
    fuel: nat,
) -> bool
    decreases fuel,
{
    if fuel == 0 || ip < 0 || ip >= prog.len() {
        true
    } else {
        let (mem2, dp2, ip2, act) = step_result(mem, dp, ip, prog, Some(interpreter_read(inputs)));
        let rest = if prog[ip] is Input {
            after_read(inputs)
        } else {
            inputs
        };
        &&& fault_of(mem, dp, ip, prog) is None
        &&& prog[ip] is Input ==> inputs.len() > 0
        &&& prog[ip] is Output ==> mem[dp] < 128
        &&& comparable_run(prog, mem2, dp2, ip2, rest, (fuel - 1) as nat)
    }
}

/// The bytes that the compiled program writes in at most `fuel` blocks
/// from block `b`, with `getchar` giving the bytes of `inputs` in order and
/// then end of input.
pub open spec fn compiled_output(
    blocks: Seq<Block>,
    mem: Seq<u8>,
    dp: int,
    b: int,
    inputs: Seq<u8>,
    fuel: nat,
) -> Seq<u8>
    decreases fuel,
{
    if fuel == 0 || b < 0 || b >= blocks.len() {
        Seq::empty()
    } else {
        let (mem2, dp2, b2, act) = run_block(blocks[b], mem, dp, compiled_read(inputs));
        let rest = if blocks[b].effect is GetChar {
            after_read(inputs)
        } else {
            inputs
        };
        compiled_written(act) + compiled_output(blocks, mem2, dp2, b2, rest, (fuel - 1) as nat)
    }
}

/// Compiling and interpreting write the same bytes, on the runs where they
/// can be compared: from any state, as long as the interpreter meets no
/// fault, no `,` finds the input used up and no `.` writes a cell of 128 or
/// more, running the planned blocks writes what the interpreter writes,
/// step for step. (Outside those runs they differ: at the end of input the
/// compiled `,` stores 255 where the interpreter stores 0; the compiled `.`
/// writes a cell of 128 or more as one byte where the interpreter writes
/// two; and cells wrap in the compiled code where the interpreter stops.)
pub proof fn lemma_compiled_matches_interpreted(
    ops: Seq<Operation>,
    mem: Seq<u8>,
    dp: int,
    ip: int,
    inputs: Seq<u8>,
    fuel: nat,
)
    requires
        targets_in_range(ops),
        ops.len() <= usize::MAX,
        0 <= ip,
        0 <= dp <= usize::MAX,
        mem.len() == MEMORY_SIZE,
        comparable_run(ops, mem, dp, ip, inputs, fuel),
    ensures
        compiled_output(planned(ops), mem, dp, ip, inputs, fuel) == interpreter_output(
            ops,
            mem,
            dp,
            ip,
            inputs,
            fuel,
        ),
    decreases fuel,
{
    if fuel > 0 && ip < ops.len() {
        let input = interpreter_read(inputs);
        lemma_block_matches_step(ops, mem, dp, ip, input);
        let (mem2, dp2, ip2, act) = step_result(mem, dp, ip, ops, Some(input));
        let rest = if ops[ip] is Input {
            after_read(inputs)
        } else {
            inputs
        };
        assert(planned(ops)[ip] == block_of(ops[ip], ip, ops.len() as int));
        if ops[ip] is Input {
            assert(compiled_read(inputs) == input);
        }
        if ops[ip] is Output {
            assert(char_bytes(mem[dp]) == seq![mem[dp]]);
        }
        assert(0 <= dp2 <= usize::MAX);
        assert(0 <= ip2) by {
            match ops[ip] {
                Operation::JumpIfZero(t) => {},
                Operation::JumpIfNonzero(t) => {},
                _ => {},
            }
        }
        lemma_compiled_matches_interpreted(ops, mem2, dp2, ip2, rest, (fuel - 1) as nat);
    }
}

/// The interpreter, started in the given state and reading from `inputs`,
/// reaches the end of the program within `fuel` steps.
pub open spec fn interpreter_halts_within(
    prog: Seq<Operation>,
    mem: Seq<u8>,
    dp: int,
    ip: int,
    inputs: Seq<u8>,
    fuel: nat,
) -> bool
    decreases fuel,
{
    if ip < 0 || ip >= prog.len() {
        true
    } else if fuel == 0 {
        false
    } else {
        let (mem2, dp2, ip2, act) = step_result(mem, dp, ip, prog, Some(interpreter_read(inputs)));
        let rest = if prog[ip] is Input {
            after_read(inputs)
        } else {
            inputs
        };
        interpreter_halts_within(prog, mem2, dp2, ip2, rest, (fuel - 1) as nat)
    }
}

/// The compiled program, started at block `b` and reading from `inputs`,
/// reaches the return block within `fuel` blocks.
pub open spec fn compiled_returns_within(
    blocks: Seq<Block>,
    mem: Seq<u8>,
    dp: int,
    b: int,
    inputs: Seq<u8>,
    fuel: nat,
) -> bool
    decreases fuel,
{
    if b < 0 || b >= blocks.len() {
        true
    } else if fuel == 0 {
        false
    } else {
        let (mem2, dp2, b2, act) = run_block(blocks[b], mem, dp, compiled_read(inputs));
        let rest = if blocks[b].effect is GetChar {
            after_read(inputs)
        } else {
            inputs
        };
        compiled_returns_within(blocks, mem2, dp2, b2, rest, (fuel - 1) as nat)
    }
}

/// Compiling and interpreting stop together, on the runs where they can be
/// compared: within any number of steps, the interpreter reaches the end of
/// the program exactly when the planned blocks reach the return block.
pub proof fn lemma_compiled_halts_with_interpreted(
    ops: Seq<Operation>,
    mem: Seq<u8>,
    dp: int,
    ip: int,
    inputs: Seq<u8>,
    fuel: nat,
)
    requires
        targets_in_range(ops),
        ops.len() <= usize::MAX,
        0 <= ip,
        0 <= dp <= usize::MAX,
        mem.len() == MEMORY_SIZE,
        comparable_run(ops, mem, dp, ip, inputs, fuel),
    ensures
        compiled_returns_within(planned(ops), mem, dp, ip, inputs, fuel) == interpreter_halts_within(
            ops,
            mem,
            dp,
            ip,
            inputs,
            fuel,
        ),
    decreases fuel,
{
    if fuel > 0 && ip < ops.len() {
        let input = interpreter_read(inputs);
        lemma_block_matches_step(ops, mem, dp, ip, input);
        let (mem2, dp2, ip2, act) = step_result(mem, dp, ip, ops, Some(input));
        let rest = if ops[ip] is Input {
            after_read(inputs)
        } else {
            inputs
        };
        assert(planned(ops)[ip] == block_of(ops[ip], ip, ops.len() as int));
        if ops[ip] is Input {
            assert(compiled_read(inputs) == input);
        }
        assert(0 <= dp2 <= usize::MAX);
        assert(0 <= ip2) by {
            match ops[ip] {
                Operation::JumpIfZero(t) => {},
                Operation::JumpIfNonzero(t) => {},
                _ => {},
            }
        }
        lemma_compiled_halts_with_interpreted(ops, mem2, dp2, ip2, rest, (fuel - 1) as nat);
    }
}

} // verus!
