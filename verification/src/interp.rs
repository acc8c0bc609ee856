//! Whole runs: a program, an input and a step budget give an output.

use vstd::prelude::*;
use crate::error::ExecError;
use crate::machine::{
    delivered, next_state, verdict, Action, EofPolicy, Machine, MachineState,
};
use crate::op::{Op, Program, MEMORY_SIZE};
use crate::syntax::targets_resolved;

verus! {

/// How far a run has come.
#[derive(Clone, Copy, Debug, PartialEq, Eq)]
pub enum Status {
    /// The run can go on.
    Running,
    /// The instruction pointer has passed the last instruction.
    Halted,
    /// The run ended on an error.
    Failed(ExecError),
}

/// A run as a mathematical value.
pub struct RunState {
    /// The machine.
    pub machine: MachineState,
    /// Number of input bytes read so far.
    pub consumed: int,
    /// The bytes written so far.
    pub output: Seq<u8>,
    /// Whether the run can go on.
    pub status: Status,
}

impl RunState {
    /// The run that has not begun: nothing read, nothing written.
    pub open spec fn start(machine: MachineState) -> RunState {
        RunState { machine, consumed: 0, output: Seq::empty(), status: Status::Running }
    }
}

/// The byte that the next read gets, `None` at the end of the input.
pub open spec fn next_byte(input: Seq<u8>, consumed: int) -> Option<u8> {
    if 0 <= consumed < input.len() {
        Some(input[consumed])
    } else {
        None
    }
}

/// The run one step later. A run that has halted or failed stays as it is.
pub open spec fn advance(program: Seq<Op>, input: Seq<u8>, on_eof: EofPolicy, r: RunState) -> RunState {
    if !(r.status is Running) {
        r
    } else {
        match verdict(program, r.machine) {
            Err(e) => RunState { status: Status::Failed(e), ..r },
            Ok(Action::Halt) => RunState { status: Status::Halted, ..r },
            Ok(Action::Continue) => RunState { machine: next_state(program, r.machine), ..r },
            Ok(Action::Emit(byte)) => RunState {
                machine: next_state(program, r.machine),
                output: r.output.push(byte),
                ..r
            },
            Ok(Action::Read) => match delivered(
                r.machine,
                next_byte(input, r.consumed),
                on_eof,
            ) {
                Err(e) => RunState { status: Status::Failed(e), ..r },
                Ok(machine) => RunState {
                    machine,
                    consumed: if r.consumed < input.len() {
                        r.consumed + 1
                    } else {
                        r.consumed
                    },
                    ..r
                },
            },
        }
    }
}

/// The run after `steps` further steps.
pub open spec fn run(
    program: Seq<Op>,
    input: Seq<u8>,
    on_eof: EofPolicy,
    r: RunState,
    steps: nat,
) -> RunState
    decreases steps,
{
    if steps == 0 {
        r
    } else {
        advance(program, input, on_eof, run(program, input, on_eof, r, (steps - 1) as nat))
    }
}

/// A run that has halted or failed does not change any more.
pub proof fn lemma_run_settled(
    program: Seq<Op>,
    input: Seq<u8>,
    on_eof: EofPolicy,
    r: RunState,
    steps: nat,
    more: nat,
)
    requires
        !(run(program, input, on_eof, r, steps).status is Running),
        steps <= more,
    ensures
        run(program, input, on_eof, r, more) == run(program, input, on_eof, r, steps),
    decreases more,
{
    if steps < more {
        lemma_run_settled(program, input, on_eof, r, steps, (more - 1) as nat);
    }
}

/// Throughout a run the tape keeps its length and the cursor stays on it.
pub proof fn lemma_run_keeps_tape(
    program: Seq<Op>,
    input: Seq<u8>,
    on_eof: EofPolicy,
    r: RunState,
    steps: nat,
)
    requires
        r.machine.wf(),
    ensures
        run(program, input, on_eof, r, steps).machine.wf(),
        run(program, input, on_eof, r, steps).machine.tape.len() == r.machine.tape.len(),
    decreases steps,
{
    if steps > 0 {
        lemma_run_keeps_tape(program, input, on_eof, r, (steps - 1) as nat);
    }
}

/// A run of a program whose jumps all have their targets never fails on an
/// unresolved branch.
pub proof fn lemma_resolved_never_unresolved(
    program: Seq<Op>,
    input: Seq<u8>,
    on_eof: EofPolicy,
    r: RunState,
    steps: nat,
)
    requires
        targets_resolved(program),
        r.machine.wf(),
        r.status != Status::Failed(ExecError::UnresolvedBranch),
    ensures
        run(program, input, on_eof, r, steps).status != Status::Failed(
            ExecError::UnresolvedBranch,
        ),
    decreases steps,
{
    if steps > 0 {
        lemma_resolved_never_unresolved(program, input, on_eof, r, (steps - 1) as nat);
        lemma_run_keeps_tape(program, input, on_eof, r, (steps - 1) as nat);
    }
}

/// What a run has come to.
#[derive(Debug)]
pub struct Execution {
    /// The machine as the run left it.
    pub machine: Machine,
    /// Number of input bytes that were read.
    pub consumed: usize,
    /// The bytes that were written.
    pub output: Vec<u8>,
    /// How the run ended; `Running` if the step budget ran out first.
    pub status: Status,
}

impl View for Execution {
    type V = RunState;

    open spec fn view(&self) -> RunState {
        RunState {
            machine: self.machine@,
            consumed: self.consumed as int,
            output: self.output@,
            status: self.status,
        }
    }
}

impl Machine {
    /// Runs `program` from the machine's present state for at most
    /// `max_steps` steps, reading from `input` and collecting the output.
    pub fn run(self, program: &Program, input: &[u8], on_eof: EofPolicy, max_steps: usize) -> (r:
        Execution)
        ensures
            r@ == run(program@, input@, on_eof, RunState::start(self@), max_steps as nat),
    {
        let ghost start = RunState::start(self@);
        let mut machine = self;
        let mut consumed: usize = 0;
        let mut output: Vec<u8> = Vec::new();
        let mut status = Status::Running;
        let mut steps: usize = 0;
        while steps < max_steps
            invariant_except_break
                status is Running,
            invariant
                steps <= max_steps,
                consumed <= input@.len(),
                (RunState {
                    machine: machine@,
                    consumed: consumed as int,
                    output: output@,
                    status,
                }) == run(program@, input@, on_eof, start, steps as nat),
            ensures
                (RunState {
                    machine: machine@,
                    consumed: consumed as int,
                    output: output@,
                    status,
                }) == run(program@, input@, on_eof, start, max_steps as nat),
            decreases max_steps - steps,
        {
            let ghost before = run(program@, input@, on_eof, start, steps as nat);
            steps = steps + 1;
            match machine.step(program) {
                Err(e) => {
                    status = Status::Failed(e);
                },
                Ok(Action::Halt) => {
                    status = Status::Halted;
                },
                Ok(Action::Continue) => {},
                Ok(Action::Emit(byte)) => {
                    output.push(byte);
                },
                Ok(Action::Read) => {
                    let byte = if consumed < input.len() {
                        Some(input[consumed])
                    } else {
                        None
                    };
                    match machine.deliver(program, byte, on_eof) {
                        Ok(()) => {
                            if consumed < input.len() {
                                consumed = consumed + 1;
                            }
                        },
                        Err(e) => {
                            status = Status::Failed(e);
                        },
                    }
                },
            }
            proof {
                assert((RunState {
                    machine: machine@,
                    consumed: consumed as int,
                    output: output@,
                    status,
                }) == advance(program@, input@, on_eof, before));
            }
            match status {
                Status::Running => {},
                _ => {
                    proof {
                        lemma_run_settled(
                            program@,
                            input@,
                            on_eof,
                            start,
                            steps as nat,
                            max_steps as nat,
                        );
                    }
                    break ;
                },
            }
        }
        Execution { machine, consumed, output, status }
    }
}

/// Runs `program` on a fresh machine with the default tape for at most
/// `max_steps` steps, reading from `input` and collecting the output.
pub fn execute(program: &Program, input: &[u8], on_eof: EofPolicy, max_steps: usize) -> (r:
    Execution)
    ensures
        r@ == run(
            program@,
            input@,
            on_eof,
            RunState::start(MachineState::fresh(MEMORY_SIZE as nat)),
            max_steps as nat,
        ),
{
    Machine::new().run(program, input, on_eof, max_steps)
}

} // verus!
