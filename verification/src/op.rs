//! The instruction set.

use vstd::prelude::*;

verus! {

/// Number of cells on the default tape.
pub const MEMORY_SIZE: usize = 30000;

/// Index of an instruction within a program.
pub type InstructionIndex = usize;

/// One tape cell.
pub type CellType = u8;

/// One instruction of a translated program.
///
/// The four counted instructions stand for that many repetitions of the
/// source character. Jump targets are instruction indices; a target equal to
/// the program's length means "leave the program".
#[derive(Clone, Copy, Debug, PartialEq, Eq)]
pub enum Op {
    /// `>`: move the cursor right by the given number of cells.
    IncreaseDPBy(usize),
    /// `<`: move the cursor left by the given number of cells.
    DecreaseDPBy(usize),
    /// `+`: add the given amount to the current cell, wrapping.
    IncreaseByteAtDPBy(usize),
    /// `-`: subtract the given amount from the current cell, wrapping.
    DecreaseByteAtDPBy(usize),
    /// `.`: emit the current cell.
    OutputByteAtDP,
    /// `,`: read one byte into the current cell.
    InputByteToDP,
    /// `[`: jump to the target if the current cell is zero. `None` is the
    /// placeholder of a bracket that has not been matched yet.
    IfByteZeroJumpTo(Option<InstructionIndex>),
    /// `]`: jump to the target if the current cell is not zero.
    IfByteNotZeroJumpTo(InstructionIndex),
}

/// A translated program: instructions addressed by index.
pub type Program = Vec<Op>;

impl Op {
    /// What the instruction adds to the bracket nesting depth.
    pub open spec fn nesting(self) -> int {
        match self {
            Op::IfByteZeroJumpTo(_) => 1,
            Op::IfByteNotZeroJumpTo(_) => -1,
            _ => 0,
        }
    }

    /// How many instruction characters of the source the instruction stands
    /// for.
    pub open spec fn width(self) -> nat {
        match self {
            Op::IncreaseDPBy(n) => n as nat,
            Op::DecreaseDPBy(n) => n as nat,
            Op::IncreaseByteAtDPBy(n) => n as nat,
            Op::DecreaseByteAtDPBy(n) => n as nat,
            _ => 1,
        }
    }
}

} // verus!
