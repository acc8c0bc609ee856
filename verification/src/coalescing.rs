//! Coalescing changes nothing that a run shows: a program and the program
//! with one instruction for each instruction character give the same output
//! and leave the same tape, on every input.

use vstd::prelude::*;
use crate::error::ExecError;
use crate::expansion::{
    lemma_offset_within, lemma_translation_unrolled, offset, unrolled, unrolled_at, unrolled_op,
};
use crate::interp::{advance, lemma_run_settled, run, RunState, Status};
use crate::machine::{cell_minus, cell_plus, EofPolicy, MachineState};
use crate::op::Op;
use crate::syntax::{translation, well_bracketed};

verus! {

/// Two runs show the same: status, output, input read and tape, and, unless
/// they failed, the cursor.
pub open spec fn same_outcome(a: RunState, b: RunState) -> bool {
    &&& a.status == b.status
    &&& a.output == b.output
    &&& a.consumed == b.consumed
    &&& a.machine.tape == b.machine.tape
    &&& (a.status is Failed || a.machine.cursor == b.machine.cursor)
}

/// The run `c` of the program `short` and the run `u` of its unrolling stand
/// at the same point.
pub open spec fn aligned(short: Seq<Op>, c: RunState, u: RunState) -> bool {
    &&& same_outcome(c, u)
    &&& c.machine.wf()
    &&& (c.status is Failed || (c.machine.ip <= short.len() && u.machine.ip == offset(
        short,
        c.machine.ip,
    )))
}

/// Running `a` steps and then `b` steps is running `a + b` steps.
pub proof fn lemma_run_add(
    program: Seq<Op>,
    input: Seq<u8>,
    on_eof: EofPolicy,
    r: RunState,
    a: nat,
    b: nat,
)
    ensures
        run(program, input, on_eof, r, a + b) == run(
            program,
            input,
            on_eof,
            run(program, input, on_eof, r, a),
            b,
        ),
    decreases b,
{
    if b > 0 {
        lemma_run_add(program, input, on_eof, r, a, (b - 1) as nat);
    }
}

/// The run `u` with its machine replaced.
pub open spec fn with_machine(u: RunState, machine: MachineState) -> RunState {
    RunState { machine, ..u }
}

/// A failed run that shows what `u` showed.
pub open spec fn failed_like(v: RunState, u: RunState, e: ExecError) -> bool {
    &&& v.status == Status::Failed(e)
    &&& v.output == u.output
    &&& v.consumed == u.consumed
    &&& v.machine.tape == u.machine.tape
}

/// `count` instructions from the instruction pointer on are all `op`.
pub open spec fn stands_on(long: Seq<Op>, u: RunState, op: Op, count: nat) -> bool {
    &&& u.status is Running
    &&& u.machine.wf()
    &&& u.machine.ip + count <= long.len()
    &&& forall|r: int| 0 <= r < count ==> #[trigger] long[u.machine.ip + r] == op
}

/// `count` single moves to the right move the cursor by `count`, or fail
/// where the tape ends.
proof fn lemma_unit_moves_right(
    long: Seq<Op>,
    input: Seq<u8>,
    on_eof: EofPolicy,
    u: RunState,
    count: nat,
)
    requires
        stands_on(long, u, Op::IncreaseDPBy(1), count),
    ensures
        u.machine.cursor + count < u.machine.tape.len() ==> run(long, input, on_eof, u, count)
            == with_machine(
            u,
            MachineState {
                cursor: u.machine.cursor + count,
                ip: u.machine.ip + count,
                ..u.machine
            },
        ),
        u.machine.cursor + count >= u.machine.tape.len() ==> failed_like(
            run(long, input, on_eof, u, count),
            u,
            ExecError::DataPointerOutOfBounds,
        ),
    decreases count,
{
    if count > 0 {
        lemma_unit_moves_right(long, input, on_eof, u, (count - 1) as nat);
        assert(long[u.machine.ip + (count - 1)] == Op::IncreaseDPBy(1));
    }
}

/// `count` single moves to the left move the cursor by `count`, or fail
/// where the tape begins.
proof fn lemma_unit_moves_left(
    long: Seq<Op>,
    input: Seq<u8>,
    on_eof: EofPolicy,
    u: RunState,
    count: nat,
)
    requires
        stands_on(long, u, Op::DecreaseDPBy(1), count),
    ensures
        count <= u.machine.cursor ==> run(long, input, on_eof, u, count) == with_machine(
            u,
            MachineState {
                cursor: u.machine.cursor - count,
                ip: u.machine.ip + count,
                ..u.machine
            },
        ),
        count > u.machine.cursor ==> failed_like(
            run(long, input, on_eof, u, count),
            u,
            ExecError::DataPointerOutOfBounds,
        ),
    decreases count,
{
    if count > 0 {
        lemma_unit_moves_left(long, input, on_eof, u, (count - 1) as nat);
        assert(long[u.machine.ip + (count - 1)] == Op::DecreaseDPBy(1));
    }
}

/// `count` single increments add `count` to the cell.
proof fn lemma_unit_adds(
    long: Seq<Op>,
    input: Seq<u8>,
    on_eof: EofPolicy,
    u: RunState,
    count: nat,
)
    requires
        stands_on(long, u, Op::IncreaseByteAtDPBy(1), count),
    ensures
        run(long, input, on_eof, u, count) == with_machine(
            u,
            MachineState {
                tape: u.machine.tape.update(
                    u.machine.cursor,
                    cell_plus(u.machine.cell(), count as int),
                ),
                ip: u.machine.ip + count,
                ..u.machine
            },
        ),
    decreases count,
{
    let cell = u.machine.cell();
    if count > 0 {
        lemma_unit_adds(long, input, on_eof, u, (count - 1) as nat);
        assert(long[u.machine.ip + (count - 1)] == Op::IncreaseByteAtDPBy(1));
        let before = cell_plus(cell, count - 1);
        assert(cell_plus(before, 1) == cell_plus(cell, count as int)) by {
            vstd::arithmetic::div_mod::lemma_add_mod_noop(cell + count - 1, 1, 256);
            vstd::arithmetic::div_mod::lemma_mod_twice(cell + count - 1, 256);
        }
        assert(u.machine.tape.update(u.machine.cursor, before).update(
            u.machine.cursor,
            cell_plus(before, 1),
        ) =~= u.machine.tape.update(u.machine.cursor, cell_plus(cell, count as int)));
    } else {
        assert(u.machine.tape.update(u.machine.cursor, cell_plus(cell, 0)) =~= u.machine.tape);
    }
}

/// `count` single decrements subtract `count` from the cell.
proof fn lemma_unit_subtracts(
    long: Seq<Op>,
    input: Seq<u8>,
    on_eof: EofPolicy,
    u: RunState,
    count: nat,
)
    requires
        stands_on(long, u, Op::DecreaseByteAtDPBy(1), count),
    ensures
        run(long, input, on_eof, u, count) == with_machine(
            u,
            MachineState {
                tape: u.machine.tape.update(
                    u.machine.cursor,
                    cell_minus(u.machine.cell(), count as int),
                ),
                ip: u.machine.ip + count,
                ..u.machine
            },
        ),
    decreases count,
{
    let cell = u.machine.cell();
    if count > 0 {
        lemma_unit_subtracts(long, input, on_eof, u, (count - 1) as nat);
        assert(long[u.machine.ip + (count - 1)] == Op::DecreaseByteAtDPBy(1));
        let before = cell_minus(cell, count - 1);
        assert(cell_minus(before, 1) == cell_minus(cell, count as int)) by {
            vstd::arithmetic::div_mod::lemma_sub_mod_noop(cell - (count - 1), 1, 256);
            vstd::arithmetic::div_mod::lemma_mod_twice(cell - (count - 1), 256);
        }
        assert(u.machine.tape.update(u.machine.cursor, before).update(
            u.machine.cursor,
            cell_minus(before, 1),
        ) =~= u.machine.tape.update(u.machine.cursor, cell_minus(cell, count as int)));
    } else {
        assert(u.machine.tape.update(u.machine.cursor, cell_minus(cell, 0)) =~= u.machine.tape);
    }
}

/// Number of steps that the unrolled program takes for the next step of
/// the program `short`.
pub open spec fn steps_for(short: Seq<Op>, c: RunState) -> nat {
    if c.status is Running && 0 <= c.machine.ip < short.len() {
        short[c.machine.ip].width()
    } else {
        1
    }
}

/// One step of a program is matched by the steps of its unrolling that
/// spell the instruction out.
proof fn lemma_step_unrolled(
    short: Seq<Op>,
    long: Seq<Op>,
    input: Seq<u8>,
    on_eof: EofPolicy,
    c: RunState,
    u: RunState,
)
    requires
        unrolled(short, long),
        aligned(short, c, u),
    ensures
        steps_for(short, c) >= 1,
        aligned(
            short,
            advance(short, input, on_eof, c),
            run(long, input, on_eof, u, steps_for(short, c)),
        ),
{
    let k = steps_for(short, c);
    let i = c.machine.ip;
    assert(run(long, input, on_eof, u, 1) == advance(long, input, on_eof, u)) by {
        assert(run(long, input, on_eof, u, 0) == u);
    }
    if c.status is Running && i < short.len() {
        lemma_offset_within(short, i);
        let at = offset(short, i);
        assert(unrolled_at(short, long, i, 0));
        assert forall|r: int| 0 <= r < k implies #[trigger] long[u.machine.ip + r] == unrolled_op(
            short,
            i,
        ) by {
            assert(unrolled_at(short, long, i, r));
        }
        match short[i] {
            Op::IncreaseDPBy(_) => {
                lemma_unit_moves_right(long, input, on_eof, u, k);
            },
            Op::DecreaseDPBy(_) => {
                lemma_unit_moves_left(long, input, on_eof, u, k);
            },
            Op::IncreaseByteAtDPBy(_) => {
                lemma_unit_adds(long, input, on_eof, u, k);
            },
            Op::DecreaseByteAtDPBy(_) => {
                lemma_unit_subtracts(long, input, on_eof, u, k);
            },
            Op::IfByteZeroJumpTo(Some(target)) => {
                if target < short.len() {
                    lemma_offset_within(short, target as int);
                }
            },
            Op::IfByteNotZeroJumpTo(target) => {
                if target < short.len() {
                    lemma_offset_within(short, target as int);
                }
            },
            _ => {},
        }
    }
}

/// Whatever a program has done after `steps` steps, its unrolling has done
/// after the number of steps returned, which is no smaller.
proof fn lemma_runs_aligned(
    short: Seq<Op>,
    long: Seq<Op>,
    input: Seq<u8>,
    on_eof: EofPolicy,
    machine: MachineState,
    steps: nat,
) -> (more: nat)
    requires
        unrolled(short, long),
        machine.wf(),
        machine.ip == 0,
    ensures
        more >= steps,
        aligned(
            short,
            run(short, input, on_eof, RunState::start(machine), steps),
            run(long, input, on_eof, RunState::start(machine), more),
        ),
    decreases steps,
{
    let start = RunState::start(machine);
    if steps == 0 {
        0
    } else {
        let so_far = lemma_runs_aligned(short, long, input, on_eof, machine, (steps - 1) as nat);
        let c = run(short, input, on_eof, start, (steps - 1) as nat);
        let u = run(long, input, on_eof, start, so_far);
        lemma_step_unrolled(short, long, input, on_eof, c, u);
        lemma_run_add(long, input, on_eof, start, so_far, steps_for(short, c));
        so_far + steps_for(short, c)
    }
}

/// Coalescing preserves what a run shows: whatever the coalesced
/// translation of a text has done after `steps` steps, the translation with
/// one instruction for each instruction character has done after the number
/// of steps returned, which is no smaller. Both runs then have the same
/// status, output and tape and have read the same input, on any tape, for
/// any input and with any policy for its end.
pub proof fn lemma_coalescing_preserves_runs(
    src: Seq<char>,
    input: Seq<u8>,
    on_eof: EofPolicy,
    machine: MachineState,
    steps: nat,
) -> (more: nat)
    requires
        src.len() <= usize::MAX,
        well_bracketed(src),
        machine.wf(),
        machine.ip == 0,
    ensures
        more >= steps,
        same_outcome(
            run(translation(src, true), input, on_eof, RunState::start(machine), steps),
            run(translation(src, false), input, on_eof, RunState::start(machine), more),
        ),
{
    lemma_translation_unrolled(src);
    lemma_runs_aligned(
        translation(src, true),
        translation(src, false),
        input,
        on_eof,
        machine,
        steps,
    )
}

/// A run of the translation with one instruction for each instruction
/// character that has ended within `steps` steps ended as the run of the
/// coalesced translation does within as many steps: same status, same
/// output, same tape.
pub proof fn lemma_coalescing_preserves_results(
    src: Seq<char>,
    input: Seq<u8>,
    on_eof: EofPolicy,
    machine: MachineState,
    steps: nat,
)
    requires
        src.len() <= usize::MAX,
        well_bracketed(src),
        machine.wf(),
        machine.ip == 0,
        !(run(translation(src, false), input, on_eof, RunState::start(machine), steps).status
            is Running),
    ensures
        same_outcome(
            run(translation(src, true), input, on_eof, RunState::start(machine), steps),
            run(translation(src, false), input, on_eof, RunState::start(machine), steps),
        ),
{
    let more = lemma_coalescing_preserves_runs(src, input, on_eof, machine, steps);
    lemma_run_settled(
        translation(src, false),
        input,
        on_eof,
        RunState::start(machine),
        steps,
        more,
    );
}

} // verus!
