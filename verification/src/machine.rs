//! The machine: a tape of cells, a cursor, an instruction pointer, and what
//! each instruction does to them.

use vstd::prelude::*;
use crate::error::ExecError;
use crate::op::{CellType, Op, Program, MEMORY_SIZE};

verus! {

/// What the host has to do after a step.
#[derive(Clone, Copy, Debug, PartialEq, Eq)]
pub enum Action {
    /// Nothing: take the next step.
    Continue,
    /// Write this byte to the output, then take the next step.
    Emit(u8),
    /// Read one byte from the input and hand it over with `deliver`.
    Read,
    /// Stop: the instruction pointer is past the last instruction.
    Halt,
}

/// What a read does when the input is at its end.
#[derive(Clone, Copy, Debug, PartialEq, Eq)]
pub enum EofPolicy {
    /// The run fails with `InputExhausted`.
    Fail,
    /// The cell is set to zero.
    ZeroFill,
    /// The cell keeps its value.
    NoOp,
}

impl Default for EofPolicy {
    /// Reading past the end of the input fails unless something else is
    /// asked for.
    fn default() -> (policy: EofPolicy)
        ensures
            policy == EofPolicy::Fail,
    {
        EofPolicy::Fail
    }
}

/// The machine as a mathematical value.
pub struct MachineState {
    /// The cells, left to right.
    pub tape: Seq<u8>,
    /// Index of the current cell.
    pub cursor: int,
    /// Index of the next instruction.
    pub ip: int,
}

impl MachineState {
    /// The cursor is on the tape.
    pub open spec fn wf(self) -> bool {
        &&& 0 <= self.cursor < self.tape.len()
        &&& 0 <= self.ip
    }

    /// A tape of `size` zero cells, cursor and instruction pointer at 0.
    pub open spec fn fresh(size: nat) -> MachineState {
        MachineState { tape: Seq::new(size, |i: int| 0u8), cursor: 0, ip: 0 }
    }

    /// The current cell.
    pub open spec fn cell(self) -> u8 {
        self.tape[self.cursor]
    }

    /// The state with the current cell replaced.
    pub open spec fn store(self, value: u8) -> MachineState {
        MachineState { tape: self.tape.update(self.cursor, value), ..self }
    }

    /// The state with the instruction pointer at `ip`.
    pub open spec fn jump(self, ip: int) -> MachineState {
        MachineState { ip, ..self }
    }

    /// The state with the instruction pointer on the next instruction.
    pub open spec fn advance(self) -> MachineState {
        self.jump(self.ip + 1)
    }
}

/// The cell value after adding `amount`, modulo 256.
pub open spec fn cell_plus(cell: u8, amount: int) -> u8 {
    ((cell + amount) % 256) as u8
}

/// The cell value after subtracting `amount`, modulo 256.
pub open spec fn cell_minus(cell: u8, amount: int) -> u8 {
    ((cell - amount) % 256) as u8
}

/// What the next step answers: the host's action, or the error on which the
/// run ends.
pub open spec fn verdict(program: Seq<Op>, s: MachineState) -> Result<Action, ExecError> {
    if s.ip >= program.len() {
        Ok(Action::Halt)
    } else {
        match program[s.ip] {
            Op::IncreaseDPBy(n) => if s.cursor + n < s.tape.len() {
                Ok(Action::Continue)
            } else {
                Err(ExecError::DataPointerOutOfBounds)
            },
            Op::DecreaseDPBy(n) => if n <= s.cursor {
                Ok(Action::Continue)
            } else {
                Err(ExecError::DataPointerOutOfBounds)
            },
            Op::OutputByteAtDP => Ok(Action::Emit(s.cell())),
            Op::InputByteToDP => Ok(Action::Read),
            Op::IfByteZeroJumpTo(None) => Err(ExecError::UnresolvedBranch),
            _ => Ok(Action::Continue),
        }
    }
}

/// The state after the next step. A step that halts, fails or asks for
/// input leaves the state as it is.
pub open spec fn next_state(program: Seq<Op>, s: MachineState) -> MachineState {
    if verdict(program, s) is Err || s.ip >= program.len() {
        s
    } else {
        match program[s.ip] {
            Op::IncreaseDPBy(n) => MachineState { cursor: s.cursor + n, ..s }.advance(),
            Op::DecreaseDPBy(n) => MachineState { cursor: s.cursor - n, ..s }.advance(),
            Op::IncreaseByteAtDPBy(n) => s.store(cell_plus(s.cell(), n as int)).advance(),
            Op::DecreaseByteAtDPBy(n) => s.store(cell_minus(s.cell(), n as int)).advance(),
            Op::OutputByteAtDP => s.advance(),
            Op::InputByteToDP => s,
            Op::IfByteZeroJumpTo(Some(target)) => if s.cell() == 0 {
                s.jump(target as int)
            } else {
                s.advance()
            },
            Op::IfByteZeroJumpTo(None) => s,
            Op::IfByteNotZeroJumpTo(target) => if s.cell() != 0 {
                s.jump(target as int)
            } else {
                s.advance()
            },
        }
    }
}

/// A step leaves the tape its length and the cursor on the tape.
pub proof fn lemma_step_keeps_tape(program: Seq<Op>, s: MachineState)
    requires
        s.wf(),
    ensures
        next_state(program, s).wf(),
        next_state(program, s).tape.len() == s.tape.len(),
{
}

/// An answered read leaves the tape its length and the cursor on the tape.
pub proof fn lemma_delivery_keeps_tape(s: MachineState, byte: Option<u8>, on_eof: EofPolicy)
    requires
        s.wf(),
        delivered(s, byte, on_eof) is Ok,
    ensures
        delivered(s, byte, on_eof)->Ok_0.wf(),
        delivered(s, byte, on_eof)->Ok_0.tape.len() == s.tape.len(),
{
}

/// Whether the machine stands on a read.
pub open spec fn awaits_input(program: Seq<Op>, s: MachineState) -> bool {
    0 <= s.ip < program.len() && program[s.ip] == Op::InputByteToDP
}

/// The state after a read was answered with `byte`, `None` standing for the
/// end of the input; or the error on which the run ends.
pub open spec fn delivered(s: MachineState, byte: Option<u8>, on_eof: EofPolicy) -> Result<
    MachineState,
    ExecError,
> {
    match byte {
        Some(value) => Ok(s.store(value).advance()),
        None => match on_eof {
            EofPolicy::Fail => Err(ExecError::InputExhausted),
            EofPolicy::ZeroFill => Ok(s.store(0).advance()),
            EofPolicy::NoOp => Ok(s.advance()),
        },
    }
}

/// A tape, a cursor on it and an instruction pointer.
#[derive(Debug)]
pub struct Machine {
    memory: Vec<CellType>,
    data_pointer: usize,
    instruction_pointer: usize,
}

impl View for Machine {
    type V = MachineState;

    closed spec fn view(&self) -> MachineState {
        MachineState {
            tape: self.memory@,
            cursor: self.data_pointer as int,
            ip: self.instruction_pointer as int,
        }
    }
}

impl Machine {
    #[verifier::type_invariant]
    spec fn cursor_on_tape(self) -> bool {
        self.data_pointer < self.memory.len()
    }

    /// A machine with the default tape of `MEMORY_SIZE` zero cells.
    pub fn new() -> (m: Machine)
        ensures
            m@ == MachineState::fresh(MEMORY_SIZE as nat),
    {
        Machine::with_tape_size(MEMORY_SIZE)
    }

    /// A machine with a tape of `size` zero cells.
    pub fn with_tape_size(size: usize) -> (m: Machine)
        requires
            size >= 1,
        ensures
            m@ == MachineState::fresh(size as nat),
    {
        let mut memory: Vec<CellType> = Vec::new();
        let mut i: usize = 0;
        while i < size
            invariant
                i <= size,
                memory@ =~= Seq::new(i as nat, |k: int| 0u8),
            decreases size - i,
        {
            memory.push(0);
            i = i + 1;
        }
        Machine { memory, data_pointer: 0, instruction_pointer: 0 }
    }

    /// The cells of the tape, left to right.
    pub fn memory(&self) -> (cells: &Vec<CellType>)
        ensures
            cells@ == self@.tape,
            self@.wf(),
    {
        proof {
            use_type_invariant(self);
        }
        &self.memory
    }

    /// Index of the current cell.
    pub fn data_pointer(&self) -> (cursor: usize)
        ensures
            cursor == self@.cursor,
            self@.wf(),
    {
        proof {
            use_type_invariant(self);
        }
        self.data_pointer
    }

    /// Index of the next instruction. After a step that failed it is the
    /// index of the instruction that failed.
    pub fn instruction_pointer(&self) -> (ip: usize)
        ensures
            ip == self@.ip,
    {
        self.instruction_pointer
    }

    /// Takes one step of `program`.
    ///
    /// Moves check the cursor before they move it; cell arithmetic wraps. A
    /// step that fails, halts or asks for input leaves the machine as it
    /// was.
    pub fn step(&mut self, program: &Program) -> (r: Result<Action, ExecError>)
        ensures
            old(self)@.wf(),
            r == verdict(program@, old(self)@),
            final(self)@ == next_state(program@, old(self)@),
    {
        proof {
            use_type_invariant(&*self);
        }
        let ip = self.instruction_pointer;
        if ip >= program.len() {
            return Ok(Action::Halt);
        }
        let cursor = self.data_pointer;
        let cell = self.memory[cursor];
        match program[ip] {
            Op::IncreaseDPBy(n) => {
                if n >= self.memory.len() - cursor {
                    return Err(ExecError::DataPointerOutOfBounds);
                }
                self.data_pointer = cursor + n;
            },
            Op::DecreaseDPBy(n) => {
                if n > cursor {
                    return Err(ExecError::DataPointerOutOfBounds);
                }
                self.data_pointer = cursor - n;
            },
            Op::IncreaseByteAtDPBy(n) => {
                self.memory[cursor] = cell_add(cell, n);
            },
            Op::DecreaseByteAtDPBy(n) => {
                self.memory[cursor] = cell_sub(cell, n);
            },
            Op::OutputByteAtDP => {
                self.instruction_pointer = ip + 1;
                return Ok(Action::Emit(cell));
            },
            Op::InputByteToDP => {
                return Ok(Action::Read);
            },
            Op::IfByteZeroJumpTo(Some(jump_location)) => {
                if cell == 0 {
                    self.instruction_pointer = jump_location;
                    return Ok(Action::Continue);
                }
            },
            Op::IfByteZeroJumpTo(None) => {
                return Err(ExecError::UnresolvedBranch);
            },
            Op::IfByteNotZeroJumpTo(jump_location) => {
                if cell != 0 {
                    self.instruction_pointer = jump_location;
                    return Ok(Action::Continue);
                }
            },
        }
        self.instruction_pointer = ip + 1;
        Ok(Action::Continue)
    }

    /// Answers the read on which the machine stands: stores `byte` in the
    /// current cell and moves on. `None` says that the input is at its end;
    /// `on_eof` then decides.
    pub fn deliver(&mut self, program: &Program, byte: Option<u8>, on_eof: EofPolicy) -> (r: Result<
        (),
        ExecError,
    >)
        requires
            awaits_input(program@, old(self)@),
        ensures
            old(self)@.wf(),
            delivered(old(self)@, byte, on_eof) matches Ok(s) ==> r is Ok && final(self)@ == s,
            delivered(old(self)@, byte, on_eof) matches Err(e) ==> r == Err::<(), ExecError>(e)
                && final(self)@ == old(self)@,
    {
        proof {
            use_type_invariant(&*self);
        }
        let cursor = self.data_pointer;
        assert(self.instruction_pointer < program.len());
        match byte {
            Some(value) => {
                self.memory[cursor] = value;
            },
            None => match on_eof {
                EofPolicy::Fail => {
                    return Err(ExecError::InputExhausted);
                },
                EofPolicy::ZeroFill => {
                    self.memory[cursor] = 0;
                },
                EofPolicy::NoOp => {},
            },
        }
        self.instruction_pointer = self.instruction_pointer + 1;
        Ok(())
    }
}

/// Adds `amount` to a cell, wrapping at 256.
fn cell_add(cell: CellType, amount: usize) -> (r: CellType)
    ensures
        r == cell_plus(cell, amount as int),
{
    let sum: usize = cell as usize + amount % 256;
    assert((cell + amount) % 256 == (cell + amount % 256) % 256) by {
        vstd::arithmetic::div_mod::lemma_add_mod_noop_right(cell as int, amount as int, 256);
    }
    (sum % 256) as u8
}

/// Subtracts `amount` from a cell, wrapping at 256.
fn cell_sub(cell: CellType, amount: usize) -> (r: CellType)
    ensures
        r == cell_minus(cell, amount as int),
{
    let rest: usize = cell as usize + 256 - amount % 256;
    assert((cell - amount) % 256 == (cell + 256 - amount % 256) % 256) by {
        vstd::arithmetic::div_mod::lemma_sub_mod_noop_right(cell as int, amount as int, 256);
        vstd::arithmetic::div_mod::lemma_mod_add_multiples_vanish(
            cell as int - (amount as int) % 256,
            256,
        );
    }
    (rest % 256) as u8
}

} // verus!
