//! The empty loop `[]`: legal, skipped on a zero cell, and without end on
//! any other.

use vstd::prelude::*;
use crate::interp::{run, RunState, Status};
use crate::machine::{EofPolicy, MachineState};
use crate::op::Op;
use crate::syntax::{
    bracket_depth, closing_from, opening_from, skeleton, translation, well_bracketed,
};

verus! {

/// The text `[]`.
pub open spec fn empty_loop_text() -> Seq<char> {
    seq!['[', ']']
}

/// The program of an empty loop: each bracket jumps past the other.
pub open spec fn empty_loop() -> Seq<Op> {
    seq![Op::IfByteZeroJumpTo(Some(2)), Op::IfByteNotZeroJumpTo(1)]
}

/// The text `[]` is well-bracketed and translates to the empty loop, with
/// or without coalescing.
pub proof fn lemma_empty_loop_translates(coalesce: bool)
    ensures
        well_bracketed(empty_loop_text()),
        translation(empty_loop_text(), coalesce) == empty_loop(),
{
    let src = empty_loop_text();
    let open = seq!['['];
    let none = Seq::<char>::empty();
    assert(src.drop_last() =~= open);
    assert(open.drop_last() =~= none);
    assert(bracket_depth(none) == 0);
    assert(bracket_depth(open) == 1);
    assert(bracket_depth(src) == 0);
    assert forall|k: int| 0 <= k <= src.len() implies bracket_depth(#[trigger] src.take(k))
        >= 0 by {
        if k == 0 {
            assert(src.take(0) =~= none);
        } else if k == 1 {
            assert(src.take(1) =~= open);
        } else {
            assert(src.take(2) =~= src);
        }
    }
    assert(skeleton(none, coalesce) =~= Seq::<Op>::empty());
    assert(skeleton(open, coalesce) =~= seq![Op::IfByteZeroJumpTo(None)]);
    let ops = skeleton(src, coalesce);
    assert(ops =~= seq![Op::IfByteZeroJumpTo(None), Op::IfByteNotZeroJumpTo(0)]);
    assert(closing_from(ops, 1, 0) == 1);
    assert(opening_from(ops, 0, 0) == 0);
    assert(translation(src, coalesce) =~= empty_loop());
}

/// On a zero cell the empty loop is left at once: the first step jumps past
/// the closing bracket, the second finds the end. The machine is otherwise
/// as it was, nothing is read and nothing written.
pub proof fn lemma_empty_loop_skipped(input: Seq<u8>, on_eof: EofPolicy, machine: MachineState)
    requires
        machine.wf(),
        machine.ip == 0,
        machine.cell() == 0,
    ensures
        run(empty_loop(), input, on_eof, RunState::start(machine), 1) == RunState::start(
            machine.jump(2),
        ),
        run(empty_loop(), input, on_eof, RunState::start(machine), 2) == (RunState {
            status: Status::Halted,
            ..RunState::start(machine.jump(2))
        }),
{
    reveal_with_fuel(run, 3);
}

/// On a cell that is not zero the empty loop never ends: from the second
/// step on the closing bracket jumps to itself.
pub proof fn lemma_empty_loop_spins(
    input: Seq<u8>,
    on_eof: EofPolicy,
    machine: MachineState,
    steps: nat,
)
    requires
        machine.wf(),
        machine.ip == 0,
        machine.cell() != 0,
        steps >= 1,
    ensures
        run(empty_loop(), input, on_eof, RunState::start(machine), steps) == RunState::start(
            machine.jump(1),
        ),
    decreases steps,
{
    if steps > 1 {
        lemma_empty_loop_spins(input, on_eof, machine, (steps - 1) as nat);
    } else {
        reveal_with_fuel(run, 2);
    }
}

} // verus!
