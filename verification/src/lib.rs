//! A two-stage interpreter for an eight-instruction tape language: a
//! translator from source text to a flat instruction stream with resolved
//! jump targets, and a machine that runs that stream on a byte tape.
//!
//! [`parse`] translates a text. [`Machine::step`] takes one step of a
//! program and tells the host what to do: nothing, write a byte, read a
//! byte, or stop. [`execute`] does all of that on an input held in memory,
//! within a step budget.

pub mod coalescing;
pub mod empty_loop;
pub mod error;
pub mod expansion;
pub mod interp;
pub mod machine;
pub mod nesting;
pub mod op;
pub mod parser;
pub mod syntax;

pub use crate::error::{ExecError, ParseError};
pub use crate::interp::{execute, Execution, Status};
pub use crate::machine::{Action, EofPolicy, Machine};
pub use crate::op::{CellType, InstructionIndex, Op, Program, MEMORY_SIZE};
pub use crate::parser::{parse, parse_unoptimized};
