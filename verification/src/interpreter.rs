use vstd::prelude::*;

use crate::shared::{targets_in_range, Operation};

verus! {

// ---------------------------------------------------------------------------
// The machine
// ---------------------------------------------------------------------------

/// The number of memory cells of the machine.
pub const MEMORY_SIZE: usize = 30000;

/// A Brainfuck machine: its memory, the data pointer, the index of the next
/// operation, and the program.
pub struct Interpreter {
    pub memory: [u8; 30000],
    pub data_ptr: usize,
    pub instr_ptr: usize,
    pub program: Vec<Operation>,
}

/// What a step asks of the world around the machine.
#[derive(Clone, Copy, Debug, PartialEq, Eq, Structural)]
pub enum Action {
    /// Nothing: the step is done.
    Continue,
    /// The step wrote this byte.
    Output(u8),
    /// The next operation reads a byte, and none was given: call `step`
    /// again with the byte.
    NeedInput,
    /// The program has ended; nothing changed.
    Halted,
}

/// Why the next operation cannot run: where the machine would stop with
/// an arithmetic overflow or an index out of bounds.
#[derive(Clone, Copy, Debug, PartialEq, Eq, Structural)]
pub enum Fault {
    /// `>` with the data pointer at the largest `usize`.
    PointerOverflow,
    /// `<` with the data pointer at 0.
    PointerUnderflow,
    /// An operation on the current cell with the data pointer past the memory.
    OutOfMemory,
    /// `+` on a cell that holds 255.
    CellOverflow,
    /// `-` on a cell that holds 0.
    CellUnderflow,
}

/// The fault of the next operation of a machine in the given state, if any.
pub open spec fn fault_of(mem: Seq<u8>, dp: int, ip: int, prog: Seq<Operation>) -> Option<Fault> {
    if ip < 0 || ip >= prog.len() {
        None
    } else {
        match prog[ip] {
            Operation::Next => if dp >= usize::MAX {
                Some(Fault::PointerOverflow)
            } else {
                None
            },
            Operation::Prev => if dp <= 0 {
                Some(Fault::PointerUnderflow)
            } else {
                None
            },
            Operation::Increment => if dp >= mem.len() {
                Some(Fault::OutOfMemory)
            } else if mem[dp] == 255 {
                Some(Fault::CellOverflow)
            } else {
                None
            },
            Operation::Decrement => if dp >= mem.len() {
                Some(Fault::OutOfMemory)
            } else if mem[dp] == 0 {
                Some(Fault::CellUnderflow)
            } else {
                None
            },
            _ => if dp >= mem.len() {
                Some(Fault::OutOfMemory)
            } else {
                None
            },
        }
    }
}

/// One step of the machine: the memory, data pointer and operation index
/// after the step, and what the step asks of the world. `input` is the
/// byte that a `,` reads, where one is at hand.
pub open spec fn step_result(
    mem: Seq<u8>,
    dp: int,
    ip: int,
    prog: Seq<Operation>,
    input: Option<u8>,
) -> (Seq<u8>, int, int, Action) {
    if ip < 0 || ip >= prog.len() {
        (mem, dp, ip, Action::Halted)
    } else {
        match prog[ip] {
            Operation::Next => (mem, dp + 1, ip + 1, Action::Continue),
            Operation::Prev => (mem, dp - 1, ip + 1, Action::Continue),
            Operation::Increment => (
                mem.update(dp, (mem[dp] + 1) as u8),
                dp,
                ip + 1,
                Action::Continue,
            ),
            Operation::Decrement => (
                mem.update(dp, (mem[dp] - 1) as u8),
                dp,
                ip + 1,
                Action::Continue,
            ),
            Operation::Output => (mem, dp, ip + 1, Action::Output(mem[dp])),
            Operation::Input => match input {
                Some(b) => (mem.update(dp, b), dp, ip + 1, Action::Continue),
                None => (mem, dp, ip, Action::NeedInput),
            },
            Operation::JumpIfZero(t) => if mem[dp] == 0 {
                (mem, dp, t as int, Action::Continue)
            } else {
                (mem, dp, ip + 1, Action::Continue)
            },
            Operation::JumpIfNonzero(t) => if mem[dp] != 0 {
                (mem, dp, t as int, Action::Continue)
            } else {
                (mem, dp, ip + 1, Action::Continue)
            },
        }
    }
}

impl Interpreter {
    /// The fault of the next operation, if any.
    pub open spec fn spec_fault(&self) -> Option<Fault> {
        fault_of(self.memory@, self.data_ptr as int, self.instr_ptr as int, self.program@)
    }

    /// The program has ended.
    pub fn is_halted(&self) -> (b: bool)
        ensures
            b == (self.instr_ptr >= self.program.len()),
    {
        self.instr_ptr >= self.program.len()
    }

    /// Tells whether the next operation would overflow or leave the memory,
    /// and how.
    pub fn fault(&self) -> (f: Option<Fault>)
        ensures
            f == self.spec_fault(),
    {
        if self.instr_ptr >= self.program.len() {
            return None;
        }
        let in_memory = self.data_ptr < MEMORY_SIZE;
        match self.program[self.instr_ptr] {
            Operation::Next => if self.data_ptr == usize::MAX {
                Some(Fault::PointerOverflow)
            } else {
                None
            },
            Operation::Prev => if self.data_ptr == 0 {
                Some(Fault::PointerUnderflow)
            } else {
                None
            },
            Operation::Increment => if !in_memory {
                Some(Fault::OutOfMemory)
            } else if self.memory[self.data_ptr] == 255 {
                Some(Fault::CellOverflow)
            } else {
                None
            },
            Operation::Decrement => if !in_memory {
                Some(Fault::OutOfMemory)
            } else if self.memory[self.data_ptr] == 0 {
                Some(Fault::CellUnderflow)
            } else {
                None
            },
            _ => if !in_memory {
                Some(Fault::OutOfMemory)
            } else {
                None
            },
        }
    }

    /// Runs the next operation. `input` is the byte for a `,`; where the
    /// next operation is a `,` and no byte is given, nothing changes and the
    /// result asks for one. The program itself never changes.
    pub fn step(&mut self, input: Option<u8>) -> (action: Action)
        requires
            old(self).spec_fault() is None,
        ensures
            final(self).program == old(self).program,
            ({
                let (mem, dp, ip, act) = step_result(
                    old(self).memory@,
                    old(self).data_ptr as int,
                    old(self).instr_ptr as int,
                    old(self).program@,
                    input,
                );
                &&& final(self).memory@ == mem
                &&& final(self).data_ptr == dp
                &&& final(self).instr_ptr == ip
                &&& action == act
            }),
            // A `,` with no byte given asks for one and changes nothing.
            old(self).instr_ptr < old(self).program.len() && old(self).program@[old(self).instr_ptr as int]
                is Input && input is None ==> action == Action::NeedInput && final(self).memory@ == old(
                self,
            ).memory@ && final(self).data_ptr == old(self).data_ptr && final(self).instr_ptr == old(
                self,
            ).instr_ptr,
            // A `,` with a byte stores it in the current cell and moves on.
            old(self).instr_ptr < old(self).program.len() && old(self).program@[old(self).instr_ptr as int]
                is Input && input is Some ==> action == Action::Continue && final(self).memory@ == old(
                self,
            ).memory@.update(old(self).data_ptr as int, input->0) && final(self).data_ptr == old(
                self,
            ).data_ptr && final(self).instr_ptr == old(self).instr_ptr + 1,
            // A jump goes to exactly the operation it names, or on to the next.
            old(self).instr_ptr < old(self).program.len() && old(self).program@[old(self).instr_ptr as int]
                is JumpIfZero ==> final(self).instr_ptr == (if old(self).memory@[old(
                self,
            ).data_ptr as int] == 0 {
                old(self).program@[old(self).instr_ptr as int]->JumpIfZero_0
            } else {
                (old(self).instr_ptr + 1) as usize
            }),
            old(self).instr_ptr < old(self).program.len() && old(self).program@[old(self).instr_ptr as int]
                is JumpIfNonzero ==> final(self).instr_ptr == (if old(self).memory@[old(
                self,
            ).data_ptr as int] != 0 {
                old(self).program@[old(self).instr_ptr as int]->JumpIfNonzero_0
            } else {
                (old(self).instr_ptr + 1) as usize
            }),
    {
        if self.instr_ptr >= self.program.len() {
            return Action::Halted;
        }
        let operation = self.program[self.instr_ptr];
        match operation {
            Operation::Next => self.data_ptr += 1,
            Operation::Prev => self.data_ptr -= 1,
            Operation::Increment => {
                let v = self.memory[self.data_ptr];
                self.memory[self.data_ptr] = v + 1;
            },
            Operation::Decrement => {
                let v = self.memory[self.data_ptr];
                self.memory[self.data_ptr] = v - 1;
            },
            Operation::Output => {
                let v = self.memory[self.data_ptr];
                self.instr_ptr += 1;
                return Action::Output(v);
            },
            Operation::Input => {
                match input {
                    Some(b) => self.memory[self.data_ptr] = b,
                    None => return Action::NeedInput,
                }
            },
            Operation::JumpIfZero(target) => {
                if self.memory[self.data_ptr] == 0 {
                    self.instr_ptr = target;
                    return Action::Continue;
                }
            },
            Operation::JumpIfNonzero(target) => {
                if self.memory[self.data_ptr] != 0 {
                    self.instr_ptr = target;
                    return Action::Continue;
                }
            },
        }
        self.instr_ptr += 1;
        Action::Continue
    }
}

/// What a `,` does: with no byte given it asks for one and leaves the
/// machine as it is, whatever the data pointer; with a byte it stores the
/// byte in the current cell and moves on to the next operation.
pub proof fn lemma_step_input(mem: Seq<u8>, dp: int, ip: int, prog: Seq<Operation>)
    requires
        0 <= ip < prog.len(),
        prog[ip] == Operation::Input,
    ensures
        step_result(mem, dp, ip, prog, None) == (mem, dp, ip, Action::NeedInput),
        forall|b: u8|
            #[trigger] step_result(mem, dp, ip, prog, Some(b)) == (
                mem.update(dp, b),
                dp,
                ip + 1,
                Action::Continue,
            ),
{
}

/// What the other operations do, each moving on to the next operation:
/// `>` and `<` move the data pointer by one and leave the memory; `+` and
/// `-` change the current cell by one and nothing else; `.` writes the
/// current cell and changes nothing. Past the last operation nothing
/// changes and the machine reports that it has halted.
pub proof fn lemma_step_plain(mem: Seq<u8>, dp: int, ip: int, prog: Seq<Operation>, input: Option<u8>)
    ensures
        (ip < 0 || ip >= prog.len()) ==> step_result(mem, dp, ip, prog, input) == (
            mem,
            dp,
            ip,
            Action::Halted,
        ),
        0 <= ip < prog.len() && prog[ip] == Operation::Next ==> step_result(mem, dp, ip, prog, input)
            == (mem, dp + 1, ip + 1, Action::Continue),
        0 <= ip < prog.len() && prog[ip] == Operation::Prev ==> step_result(mem, dp, ip, prog, input)
            == (mem, dp - 1, ip + 1, Action::Continue),
        0 <= ip < prog.len() && prog[ip] == Operation::Increment && 0 <= dp < mem.len() && mem[dp]
            < 255 ==> ({
            let (mem2, dp2, ip2, act) = step_result(mem, dp, ip, prog, input);
            &&& mem2.len() == mem.len()
            &&& mem2[dp] == mem[dp] + 1
            &&& forall|c: int| 0 <= c < mem.len() && c != dp ==> mem2[c] == mem[c]
            &&& dp2 == dp && ip2 == ip + 1 && act == Action::Continue
        }),
        0 <= ip < prog.len() && prog[ip] == Operation::Decrement && 0 <= dp < mem.len() && mem[dp]
            > 0 ==> ({
            let (mem2, dp2, ip2, act) = step_result(mem, dp, ip, prog, input);
            &&& mem2.len() == mem.len()
            &&& mem2[dp] == mem[dp] - 1
            &&& forall|c: int| 0 <= c < mem.len() && c != dp ==> mem2[c] == mem[c]
            &&& dp2 == dp && ip2 == ip + 1 && act == Action::Continue
        }),
        0 <= ip < prog.len() && prog[ip] == Operation::Output ==> step_result(mem, dp, ip, prog, input)
            == (mem, dp, ip + 1, Action::Output(mem[dp])),
{
}

/// What a jump does: it changes neither memory nor data pointer, and goes
/// to exactly the operation it names when its test holds (`[` on a zero
/// cell, `]` on a non-zero cell), else on to the next operation.
pub proof fn lemma_step_jump(mem: Seq<u8>, dp: int, ip: int, prog: Seq<Operation>, input: Option<u8>)
    requires
        0 <= ip < prog.len(),
        prog[ip] is JumpIfZero || prog[ip] is JumpIfNonzero,
    ensures
        ({
            let (mem2, dp2, ip2, act) = step_result(mem, dp, ip, prog, input);
            &&& mem2 == mem
            &&& dp2 == dp
            &&& act == Action::Continue
            &&& prog[ip] matches Operation::JumpIfZero(t) ==> ip2 == (if mem[dp] == 0 {
                t as int
            } else {
                ip + 1
            })
            &&& prog[ip] matches Operation::JumpIfNonzero(t) ==> ip2 == (if mem[dp] != 0 {
                t as int
            } else {
                ip + 1
            })
        }),
{
}

// ---------------------------------------------------------------------------
// The source language
// ---------------------------------------------------------------------------

/// The eight characters that are Brainfuck commands; every other character
/// of a source text is a comment.
pub open spec fn is_command(c: char) -> bool {
    c == '>' || c == '<' || c == '+' || c == '-' || c == '.' || c == ',' || c == '[' || c == ']'
}

/// The command characters of `s`, in order, with the comments left out.
pub open spec fn commands(s: Seq<char>) -> Seq<char>
    decreases s.len(),
{
    if s.len() == 0 {
        Seq::empty()
    } else if is_command(s.last()) {
        commands(s.drop_last()).push(s.last())
    } else {
        commands(s.drop_last())
    }
}

/// How a single command changes the bracket nesting depth.
pub open spec fn depth_change(c: char) -> int {
    if c == '[' {
        1
    } else if c == ']' {
        -1
    } else {
        0
    }
}

/// The bracket nesting depth in front of position `n` of the command
/// sequence `k`: the number of `[` minus the number of `]` in `k[0..n]`.
pub open spec fn depth(k: Seq<char>, n: int) -> int
    decreases n,
{
    if n <= 0 {
        0
    } else {
        depth(k, n - 1) + depth_change(k[n - 1])
    }
}

/// No `]` of `k` closes a bracket that was never opened: the depth never
/// falls below zero.
pub open spec fn no_stray_close(k: Seq<char>) -> bool {
    forall|n: int| 0 <= n <= k.len() ==> #[trigger] depth(k, n) >= 0
}

/// The `[` at position `i` and the `]` at position `j` of `k` belong
/// together: `j` is the first position after `i` at which the depth comes
/// back to what it was in front of `i`.
pub open spec fn brackets_match(k: Seq<char>, i: int, j: int) -> bool {
    &&& 0 <= i < j < k.len()
    &&& k[i] == '['
    &&& k[j] == ']'
    &&& depth(k, j) == depth(k, i) + 1
    &&& forall|m: int| i < m <= j ==> #[trigger] depth(k, m) > depth(k, i)
}

/// The `[` at position `i` of `k` is closed somewhere.
pub open spec fn has_match(k: Seq<char>, i: int) -> bool {
    exists|j: int| brackets_match(k, i, j)
}

/// The operation that a command character that is no bracket stands for.
pub open spec fn plain_operation(c: char) -> Operation {
    if c == '>' {
        Operation::Next
    } else if c == '<' {
        Operation::Prev
    } else if c == '+' {
        Operation::Increment
    } else if c == '-' {
        Operation::Decrement
    } else if c == '.' {
        Operation::Output
    } else {
        Operation::Input
    }
}

/// `op` is what `parse_code` yields for position `p` of the command
/// sequence `k`.
pub open spec fn parsed_at(k: Seq<char>, p: int, op: Operation) -> bool {
    if k[p] == '[' {
        &&& op is JumpIfZero
        &&& has_match(k, p) ==> brackets_match(k, p, op.target())
        &&& !has_match(k, p) ==> op.target() == 0
    } else if k[p] == ']' {
        &&& op is JumpIfNonzero
        &&& brackets_match(k, op.target(), p)
    } else {
        op == plain_operation(k[p])
    }
}

/// `ops` is what `parse_code` gives for the text `s`: one operation for
/// each command, each as `parsed_at` says.
pub open spec fn parses_to(s: Seq<char>, ops: Seq<Operation>) -> bool {
    &&& ops.len() == commands(s).len()
    &&& forall|p: int| 0 <= p < ops.len() ==> parsed_at(commands(s), p, #[trigger] ops[p])
}

/// The brackets of `k` are balanced: no `]` closes a bracket that was not
/// opened, and every `[` is closed by the end.
pub open spec fn balanced(k: Seq<char>) -> bool {
    no_stray_close(k) && depth(k, k.len() as int) == 0
}

/// `ops` with every jump moved on by `n` places.
pub open spec fn shifted(ops: Seq<Operation>, n: int) -> Seq<Operation> {
    ops.map_values(
        |op: Operation|
            match op {
                Operation::JumpIfZero(t) => Operation::JumpIfZero((t + n) as usize),
                Operation::JumpIfNonzero(t) => Operation::JumpIfNonzero((t + n) as usize),
                _ => op,
            },
    )
}

/// Which operation each command character that is no bracket stands for.
pub proof fn lemma_plain_operations()
    ensures
        plain_operation('>') == Operation::Next,
        plain_operation('<') == Operation::Prev,
        plain_operation('+') == Operation::Increment,
        plain_operation('-') == Operation::Decrement,
        plain_operation('.') == Operation::Output,
        plain_operation(',') == Operation::Input,
{
}

/// The commands of `s.take(i)` are a prefix of the commands of `s.take(j)`.
proof fn lemma_commands_prefix(s: Seq<char>, i: int, j: int)
    requires
        0 <= i <= j <= s.len(),
    ensures
        commands(s.take(i)).len() <= commands(s.take(j)).len(),
        commands(s.take(i)) == commands(s.take(j)).take(commands(s.take(i)).len() as int),
    decreases j - i,
{
    if i < j {
        lemma_commands_prefix(s, i, j - 1);
        assert(s.take(j).drop_last() == s.take(j - 1));
    } else {
        assert(commands(s.take(i)) == commands(s.take(j)).take(commands(s.take(i)).len() as int));
    }
}

/// A `[` is matched by at most one `]`, and a `]` matches at most one `[`.
pub proof fn lemma_match_unique(k: Seq<char>, i1: int, j1: int, i2: int, j2: int)
    requires
        brackets_match(k, i1, j1),
        brackets_match(k, i2, j2),
        i1 == i2 || j1 == j2,
    ensures
        i1 == i2 && j1 == j2,
{
    if i1 == i2 {
        if j1 < j2 {
            assert(depth(k, j1 + 1) > depth(k, i1));
        } else if j2 < j1 {
            assert(depth(k, j2 + 1) > depth(k, i1));
        }
    } else {
        if i1 < i2 {
            assert(depth(k, i2) > depth(k, i1));
        } else {
            assert(depth(k, i1) > depth(k, i2));
        }
    }
}

proof fn lemma_commands_len(s: Seq<char>)
    ensures
        commands(s).len() <= s.len(),
    decreases s.len(),
{
    if s.len() > 0 {
        lemma_commands_len(s.drop_last());
    }
}

proof fn lemma_depth_bound(k: Seq<char>, n: int)
    requires
        0 <= n,
    ensures
        depth(k, n) <= n,
    decreases n,
{
    if n > 0 {
        lemma_depth_bound(k, n - 1);
    }
}

proof fn lemma_commands_concat(a: Seq<char>, b: Seq<char>)
    ensures
        commands(a + b) == commands(a) + commands(b),
    decreases b.len(),
{
    if b.len() == 0 {
        assert(a + b == a);
        assert(commands(a) + commands(b) == commands(a));
    } else {
        lemma_commands_concat(a, b.drop_last());
        assert((a + b).drop_last() == a + b.drop_last());
        assert((a + b).last() == b.last());
        if is_command(b.last()) {
            assert(commands(a) + commands(b.drop_last()).push(b.last()) == (commands(a) + commands(
                b.drop_last(),
            )).push(b.last()));
        }
    }
}

proof fn lemma_depth_concat(ka: Seq<char>, kb: Seq<char>, m: int)
    requires
        0 <= m <= ka.len() + kb.len(),
    ensures
        m <= ka.len() ==> depth(ka + kb, m) == depth(ka, m),
        m >= ka.len() ==> depth(ka + kb, m) == depth(ka, ka.len() as int) + depth(
            kb,
            m - ka.len(),
        ),
    decreases m,
{
    if m > 0 {
        lemma_depth_concat(ka, kb, m - 1);
        if m > ka.len() {
            assert((ka + kb)[m - 1] == kb[m - 1 - ka.len()]);
        } else {
            assert((ka + kb)[m - 1] == ka[m - 1]);
        }
    }
}

/// In a balanced command sequence every `[` is closed: from position `m`,
/// where the depth is still above that in front of `i`, the closing bracket
/// lies ahead.
proof fn lemma_close_ahead(k: Seq<char>, i: int, m: int)
    requires
        balanced(k),
        0 <= i < m <= k.len(),
        k[i] == '[',
        forall|m2: int| i < m2 <= m ==> #[trigger] depth(k, m2) > depth(k, i),
    ensures
        has_match(k, i),
    decreases k.len() - m,
{
    assert(depth(k, i) >= 0);
    if m < k.len() {
        assert(depth(k, m + 1) == depth(k, m) + depth_change(k[m]));
    }
    if m == k.len() {
        assert(depth(k, m) > depth(k, i));
    } else if depth(k, m + 1) == depth(k, i) {
        assert(brackets_match(k, i, m));
    } else {
        lemma_close_ahead(k, i, m + 1);
    }
}

/// Parsing distributes over joining balanced texts: the operations of
/// `a + b` are those of `a` followed by those of `b`, with the jumps of the
/// second part moved on by the number of operations of `a`.
pub proof fn lemma_parse_concat(
    a: Seq<char>,
    b: Seq<char>,
    oa: Seq<Operation>,
    ob: Seq<Operation>,
    oab: Seq<Operation>,
)
    requires
        balanced(commands(a)),
        balanced(commands(b)),
        parses_to(a, oa),
        parses_to(b, ob),
        parses_to(a + b, oab),
        oab.len() <= usize::MAX,
    ensures
        oab == oa + shifted(ob, oa.len() as int),
{
    let ka = commands(a);
    let kb = commands(b);
    let k = commands(a + b);
    let n = ka.len() as int;
    lemma_commands_concat(a, b);
    assert(k == ka + kb);
    assert forall|m: int| 0 <= m <= k.len() implies #[trigger] depth(k, m) == (if m <= n {
        depth(ka, m)
    } else {
        depth(kb, m - n)
    }) by {
        lemma_depth_concat(ka, kb, m);
    }
    // A bracket pair of `k` lies within `a` or within `b`.
    assert forall|i: int, j: int| brackets_match(k, i, j) implies (j < n && brackets_match(ka, i, j))
        || (n <= i && brackets_match(kb, i - n, j - n)) by {
        if i < n {
            if j >= n {
                assert(depth(k, n) > depth(k, i));
                assert(depth(ka, i) >= 0);
            }
            assert(k[i] == ka[i] && k[j] == ka[j]);
            assert forall|m: int| i < m <= j implies #[trigger] depth(ka, m) > depth(ka, i) by {
                assert(depth(k, m) > depth(k, i));
            }
        } else {
            assert(k[i] == kb[i - n] && k[j] == kb[j - n]);
            assert forall|m: int| i - n < m <= j - n implies #[trigger] depth(kb, m) > depth(
                kb,
                i - n,
            ) by {
                assert(depth(k, m + n) > depth(k, i));
            }
        }
    }
    assert forall|i: int, j: int| brackets_match(ka, i, j) implies brackets_match(k, i, j) by {
        assert(k[i] == ka[i] && k[j] == ka[j]);
        assert forall|m: int| i < m <= j implies #[trigger] depth(k, m) > depth(k, i) by {
            assert(depth(ka, m) > depth(ka, i));
        }
    }
    assert forall|i: int, j: int| brackets_match(kb, i, j) implies brackets_match(k, i + n, j + n) by {
        assert(k[i + n] == kb[i] && k[j + n] == kb[j]);
        assert forall|m: int| i + n < m <= j + n implies #[trigger] depth(k, m) > depth(k, i + n) by {
            assert(depth(kb, m - n) > depth(kb, i));
        }
    }
    let sb = shifted(ob, n);
    assert forall|p: int| 0 <= p < oab.len() implies #[trigger] oab[p] == (oa + sb)[p] by {
        assert(parsed_at(k, p, oab[p]));
        if p < n {
            assert(parsed_at(ka, p, oa[p]));
            assert(k[p] == ka[p]);
            assert((oa + sb)[p] == oa[p]);
            if ka[p] == '[' {
                if has_match(ka, p) {
                    let j = choose|j: int| brackets_match(ka, p, j);
                    assert(brackets_match(k, p, j));
                    lemma_match_unique(k, p, j, p, oab[p].target());
                    lemma_match_unique(ka, p, j, p, oa[p].target());
                } else {
                    if has_match(k, p) {
                        let j = choose|j: int| brackets_match(k, p, j);
                        assert(brackets_match(ka, p, j));
                    }
                }
            } else if ka[p] == ']' {
                let i = oab[p].target();
                assert(brackets_match(ka, i, p));
                lemma_match_unique(ka, i, p, oa[p].target(), p);
            }
        } else {
            let q = p - n;
            assert(parsed_at(kb, q, ob[q]));
            assert(k[p] == kb[q]);
            assert((oa + sb)[p] == sb[q]);
            if kb[q] == '[' {
                assert(depth(kb, q + 1) > depth(kb, q));
                lemma_close_ahead(kb, q, q + 1);
                let j = choose|j: int| brackets_match(kb, q, j);
                assert(brackets_match(k, p, j + n));
                lemma_match_unique(k, p, j + n, p, oab[p].target());
                lemma_match_unique(kb, q, j, q, ob[q].target());
            } else if kb[q] == ']' {
                let i = oab[p].target();
                assert(brackets_match(kb, i - n, q));
                lemma_match_unique(kb, i - n, q, ob[q].target(), q);
            }
        }
    }
    assert(oab =~= oa + sb);
}

/// Tells whether `code` holds a `]` with no open `[` in front of it, the
/// text that `parse_code` does not accept.
pub fn has_stray_close(code: &str) -> (b: bool)
    ensures
        b == !no_stray_close(commands(code@)),
{
    let ghost s = code@;
    let ghost k = commands(s);
    // The character count bounds the depth counter below `usize::MAX`.
    let total = code.unicode_len();
    let mut open: usize = 0;
    let ghost mut i: int = 0;
    let ghost mut n: int = 0;
    proof {
        assert(s.take(0) =~= Seq::<char>::empty());
        lemma_commands_prefix(s, 0, s.len() as int);
        assert(s.take(s.len() as int) == s);
    }
    for token in it: code.chars()
        invariant
            s == code@,
            k == commands(s),
            total == s.len(),
            it.seq() == s,
            i == it.index(),
            0 <= i <= s.len(),
            n == commands(s.take(i)).len(),
            commands(s.take(i)) == k.take(n),
            n <= k.len(),
            open == depth(k, n),
            forall|m: int| 0 <= m <= n ==> #[trigger] depth(k, m) >= 0,
    {
        proof {
            lemma_commands_prefix(s, i, i + 1);
            lemma_commands_prefix(s, i + 1, s.len() as int);
            lemma_commands_len(s.take(i));
            lemma_depth_bound(k, n);
            assert(s.take(i + 1).drop_last() == s.take(i));
            assert(s.take(i + 1).last() == token);
            assert(s.take(s.len() as int) == s);
            if is_command(token) {
                assert(commands(s.take(i + 1)) == k.take(n).push(token));
                assert(k.take(n + 1)[n] == token);
                assert(k[n] == token);
            }
        }
        if token == '[' {
            open += 1;
        } else if token == ']' {
            if open == 0 {
                assert(depth(k, n + 1) < 0);
                return true;
            }
            open -= 1;
        }
        proof {
            if is_command(token) {
                n = n + 1;
            }
            i = i + 1;
        }
    }
    proof {
        assert(s.take(s.len() as int) == s);
    }
    false
}

/// Turns Brainfuck source text into a program: one operation for each
/// command character, in order, with each `[` and `]` holding the index of
/// the bracket that it pairs with. A `[` that is never closed holds 0.
///
/// A `]` with no open `[` in front of it has no meaning; such text is not
/// accepted (see `has_stray_close`).
pub fn parse_code(code: &str) -> (ops: Vec<Operation>)
    requires
        no_stray_close(commands(code@)),
    ensures
        parses_to(code@, ops@),
        targets_in_range(ops@),
        forall|p: int|
            0 <= p < ops.len() && #[trigger] ops[p] is JumpIfZero && has_match(commands(code@), p)
                ==> ops[ops[p].target()] == Operation::JumpIfNonzero(p as usize),
        forall|p: int|
            0 <= p < ops.len() && #[trigger] ops[p] is JumpIfNonzero ==> ops[ops[p].target()]
                == Operation::JumpIfZero(p as usize),
{
    let ghost s = code@;
    let ghost k = commands(s);
    let mut operaions: Vec<Operation> = Vec::new();
    let mut stack: Vec<usize> = Vec::new();
    let ghost mut i: int = 0;

    proof {
        assert(s.take(0) =~= Seq::<char>::empty());
        lemma_commands_prefix(s, 0, s.len() as int);
        assert(s.take(s.len() as int) == s);
    }

    for token in it: code.chars()
        invariant
            s == code@,
            k == commands(s),
            no_stray_close(k),
            it.seq() == s,
            i == it.index(),
            0 <= i <= s.len(),
            commands(s.take(i)) == k.take(operaions.len() as int),
            operaions.len() <= k.len(),
            stack.len() == depth(k, operaions.len() as int),
            forall|t: int|
                #![trigger stack[t]]
                0 <= t < stack.len() ==> {
                    &&& stack[t] < operaions.len()
                    &&& k[stack[t] as int] == '['
                    &&& depth(k, stack[t] as int) == t
                    &&& operaions[stack[t] as int] == Operation::JumpIfZero(0)
                    &&& forall|m: int|
                        stack[t] < m <= operaions.len() ==> #[trigger] depth(k, m) > t
                },
            forall|p: int|
                0 <= p < operaions.len() ==> {
                    let op = #[trigger] operaions[p];
                    if k[p] == '[' {
                        &&& op is JumpIfZero
                        &&& ((op.target() == 0 && forall|m: int|
                            p < m <= operaions.len() ==> #[trigger] depth(k, m) > depth(k, p))
                            || (brackets_match(k, p, op.target()) && op.target() < operaions.len()))
                    } else if k[p] == ']' {
                        &&& op is JumpIfNonzero
                        &&& brackets_match(k, op.target(), p)
                    } else {
                        op == plain_operation(k[p])
                    }
                },
    {
        let ghost n = operaions.len() as int;
        proof {
            lemma_commands_prefix(s, i, i + 1);
            lemma_commands_prefix(s, i + 1, s.len() as int);
            assert(s.take(i + 1).drop_last() == s.take(i));
            assert(s.take(i + 1).last() == token);
            assert(s.take(s.len() as int) == s);
            if is_command(token) {
                assert(commands(s.take(i + 1)) == k.take(n).push(token));
                assert(commands(s.take(i + 1)).len() == n + 1);
                assert(k.take(n + 1)[n] == token);
                assert(k[n] == token);
            } else {
                assert(commands(s.take(i + 1)) == k.take(n));
            }
        }
        match token {
            '>' => operaions.push(Operation::Next),
            '<' => operaions.push(Operation::Prev),
            '+' => operaions.push(Operation::Increment),
            '-' => operaions.push(Operation::Decrement),
            '.' => operaions.push(Operation::Output),
            ',' => operaions.push(Operation::Input),
            '[' => {
                stack.push(operaions.len());
                operaions.push(Operation::JumpIfZero(0));
            },
            ']' => {
                assert(k[n] == ']');
                assert(depth(k, n + 1) >= 0);
                let start_idx = stack.pop().unwrap();
                let end_idx = operaions.len();
                proof {
                    let q = start_idx as int;
                    assert(brackets_match(k, q, n));
                    assert forall|p: int|
                        0 <= p < n && p != q && k[p] == '[' && operaions[p].target() == 0 && (forall|
                            m: int,
                        | p < m <= n ==> #[trigger] depth(k, m) > depth(k, p)) implies depth(
                        k,
                        n + 1,
                    ) > depth(k, p) by {
                        if p < q {
                            assert(depth(k, q) > depth(k, p));
                        } else {
                            assert(depth(k, p) > depth(k, q));
                        }
                    }
                }
                operaions.set(start_idx, Operation::JumpIfZero(end_idx));
                operaions.push(Operation::JumpIfNonzero(start_idx));
            },
            _ => {},
        }
        proof {
            i = i + 1;
        }
    }
    proof {
        assert(s.take(s.len() as int) == s);
        assert(operaions.len() == k.len());
        assert forall|p: int| 0 <= p < operaions.len() implies parsed_at(
            k,
            p,
            #[trigger] operaions[p],
        ) by {
            if k[p] == '[' && operaions[p].target() == 0 && (forall|m: int|
                p < m <= operaions.len() ==> #[trigger] depth(k, m) > depth(k, p)) {
                if has_match(k, p) {
                    let j = choose|j: int| brackets_match(k, p, j);
                    assert(depth(k, j + 1) > depth(k, p));
                }
            }
        }
        assert forall|p: int|
            0 <= p < operaions.len() && #[trigger] operaions[p] is JumpIfZero && has_match(k, p)
                implies operaions[operaions[p].target()] == Operation::JumpIfNonzero(
            p as usize,
        ) by {
            let j = operaions[p].target();
            assert(parsed_at(k, p, operaions[p]));
            assert(parsed_at(k, j, operaions[j]));
            lemma_match_unique(k, p, j, operaions[j].target(), j);
        }
        assert forall|p: int|
            0 <= p < operaions.len() && #[trigger] operaions[p] is JumpIfNonzero implies operaions[operaions[p].target()]
                == Operation::JumpIfZero(p as usize) by {
            let i0 = operaions[p].target();
            assert(parsed_at(k, p, operaions[p]));
            assert(parsed_at(k, i0, operaions[i0]));
            assert(has_match(k, i0));
            lemma_match_unique(k, i0, p, i0, operaions[i0].target());
        }
    }
    return operaions;
}

} // verus!
