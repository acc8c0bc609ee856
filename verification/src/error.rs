//! What can go wrong while translating or running a program.

use vstd::prelude::*;

verus! {

/// Why a source text has no translation.
#[derive(Clone, Copy, Debug, PartialEq, Eq)]
pub enum ParseError {
    /// A `]` closes nothing, or a `[` is never closed. `position` is the
    /// index of that bracket among the characters of the text.
    MismatchedBracket { position: usize },
}

/// Why a run stopped before the end of its program.
#[derive(Clone, Copy, Debug, PartialEq, Eq)]
pub enum ExecError {
    /// The cursor would have left the tape.
    DataPointerOutOfBounds,
    /// A `[` whose target was never filled in was reached.
    UnresolvedBranch,
    /// A read found the input at its end.
    InputExhausted,
}

} // verus!
