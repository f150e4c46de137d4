use vstd::prelude::*;

verus! {

/// One instruction of a Brainfuck program.
///
/// The two jump instructions carry the index, in the instruction sequence,
/// of the bracket that closes or opens them.
#[derive(Clone, Copy, Debug, PartialEq, Eq, Structural)]
pub enum Operation {
    /// `>`: move the data pointer one cell to the right.
    Next,
    /// `<`: move the data pointer one cell to the left.
    Prev,
    /// `+`: add one to the current cell.
    Increment,
    /// `-`: subtract one from the current cell.
    Decrement,
    /// `.`: write the current cell.
    Output,
    /// `,`: read a byte into the current cell.
    Input,
    /// `[`: jump to the matching `]` when the current cell is zero.
    JumpIfZero(usize),
    /// `]`: jump back to the matching `[` when the current cell is not zero.
    JumpIfNonzero(usize),
}

/// Every jump of `ops` names an operation of `ops`.
pub open spec fn targets_in_range(ops: Seq<Operation>) -> bool {
    forall|i: int|
        0 <= i < ops.len() ==> match #[trigger] ops[i] {
            Operation::JumpIfZero(t) => t < ops.len(),
            Operation::JumpIfNonzero(t) => t < ops.len(),
            _ => true,
        }
}

/// Tells whether every jump of `ops` names an operation of `ops`.
pub fn targets_valid(ops: &[Operation]) -> (b: bool)
    ensures
        b == targets_in_range(ops@),
{
    for i in 0..ops.len()
        invariant
            forall|j: int| 0 <= j < i ==> match #[trigger] ops@[j] {
                Operation::JumpIfZero(t) => t < ops@.len(),
                Operation::JumpIfNonzero(t) => t < ops@.len(),
                _ => true,
            },
    {
        match ops[i] {
            Operation::JumpIfZero(t) => if t >= ops.len() {
                return false;
            },
            Operation::JumpIfNonzero(t) => if t >= ops.len() {
                return false;
            },
            _ => {},
        }
    }
    true
}

impl Operation {
    /// The index that a jump operation holds; 0 for the others.
    pub open spec fn target(self) -> int {
        match self {
            Operation::JumpIfZero(t) => t as int,
            Operation::JumpIfNonzero(t) => t as int,
            _ => 0,
        }
    }
}

} // verus!
