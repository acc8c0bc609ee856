//! What a source text means: which characters are instructions, when the
//! brackets of a text match, and the program that a text stands for.

use vstd::prelude::*;
use crate::op::Op;

verus! {

/// The eight characters that are instructions. Every other character is a
/// comment.
pub open spec fn is_instruction(c: char) -> bool {
    c == '>' || c == '<' || c == '+' || c == '-' || c == '.' || c == ',' || c == '[' || c == ']'
}

/// What one character adds to the bracket nesting depth.
pub open spec fn bracket_step(c: char) -> int {
    if c == '[' {
        1
    } else if c == ']' {
        -1
    } else {
        0
    }
}

/// Number of `[` minus number of `]` in the text.
pub open spec fn bracket_depth(src: Seq<char>) -> int
    decreases src.len(),
{
    if src.len() == 0 {
        0
    } else {
        bracket_depth(src.drop_last()) + bracket_step(src.last())
    }
}

/// Every `]` closes an earlier `[`, and every `[` is closed.
pub open spec fn well_bracketed(src: Seq<char>) -> bool {
    &&& bracket_depth(src) == 0
    &&& closes_in_order(src)
}

/// No `]` of the text comes before the `[` that it would close.
pub open spec fn closes_in_order(src: Seq<char>) -> bool {
    forall|k: int| 0 <= k <= src.len() ==> bracket_depth(#[trigger] src.take(k)) >= 0
}

/// The character at `p` is the first `]` that closes nothing.
pub open spec fn stray_close(src: Seq<char>, p: int) -> bool {
    &&& 0 <= p < src.len()
    &&& src[p] == ']'
    &&& bracket_depth(src.take(p)) == 0
    &&& forall|k: int| 0 <= k <= p ==> bracket_depth(#[trigger] src.take(k)) >= 0
}

/// Every `]` of the text closes a `[`, and the character at `p` is the last
/// `[` that is never closed.
pub open spec fn unclosed_open(src: Seq<char>, p: int) -> bool {
    &&& closes_in_order(src)
    &&& 0 <= p < src.len()
    &&& src[p] == '['
    &&& bracket_depth(src.take(p)) == bracket_depth(src) - 1
    &&& forall|q: int|
        p < q <= src.len() ==> bracket_depth(#[trigger] src.take(q)) >= bracket_depth(src)
}

/// The character at `p` is the bracket on which the text fails: its first
/// stray `]`, or else its last unclosed `[`.
pub open spec fn mismatch_at(src: Seq<char>, p: int) -> bool {
    stray_close(src, p) || unclosed_open(src, p)
}

/// The depth after one more character is the depth before it and the
/// character's step.
pub proof fn lemma_bracket_depth_step(src: Seq<char>, k: int)
    requires
        0 <= k < src.len(),
    ensures
        bracket_depth(src.take(k + 1)) == bracket_depth(src.take(k)) + bracket_step(src[k]),
{
    assert(src.take(k + 1).drop_last() =~= src.take(k));
}

/// A text has at most one bracket that is its first stray `]` or its last
/// unclosed `[`: the position of a mismatch is determined.
pub proof fn lemma_mismatch_unique(src: Seq<char>, p: int, q: int)
    requires
        mismatch_at(src, p),
        mismatch_at(src, q),
    ensures
        p == q,
{
    if stray_close(src, p) {
        lemma_bracket_depth_step(src, p);
        assert(bracket_depth(src.take(p + 1)) < 0);
    }
    if stray_close(src, q) {
        lemma_bracket_depth_step(src, q);
        assert(bracket_depth(src.take(q + 1)) < 0);
    }
}

/// A well-bracketed text has no mismatch.
pub proof fn lemma_well_bracketed_has_no_mismatch(src: Seq<char>, p: int)
    requires
        well_bracketed(src),
    ensures
        !mismatch_at(src, p),
{
    if stray_close(src, p) {
        lemma_bracket_depth_step(src, p);
        assert(bracket_depth(src.take(p + 1)) < 0);
    }
    if unclosed_open(src, p) {
        lemma_bracket_depth_step(src, p);
        assert(bracket_depth(src.take(p + 1)) >= bracket_depth(src));
    }
}

/// The instruction that a single instruction character stands for, with a
/// count of one and its jump target still open.
pub open spec fn unit_op(c: char) -> Op
    recommends
        is_instruction(c),
{
    if c == '>' {
        Op::IncreaseDPBy(1)
    } else if c == '<' {
        Op::DecreaseDPBy(1)
    } else if c == '+' {
        Op::IncreaseByteAtDPBy(1)
    } else if c == '-' {
        Op::DecreaseByteAtDPBy(1)
    } else if c == '.' {
        Op::OutputByteAtDP
    } else if c == ',' {
        Op::InputByteToDP
    } else if c == '[' {
        Op::IfByteZeroJumpTo(None)
    } else {
        Op::IfByteNotZeroJumpTo(0)
    }
}

/// Whether the character repeats the instruction: both are the same one of
/// the four counted kinds.
pub open spec fn repeats(prev: Op, c: char) -> bool {
    match prev {
        Op::IncreaseDPBy(_) => c == '>',
        Op::DecreaseDPBy(_) => c == '<',
        Op::IncreaseByteAtDPBy(_) => c == '+',
        Op::DecreaseByteAtDPBy(_) => c == '-',
        _ => false,
    }
}

/// The counted instruction with its count raised by one. No count in the
/// skeleton of a text passes the length of the text.
pub open spec fn one_more(op: Op) -> Op {
    match op {
        Op::IncreaseDPBy(n) => Op::IncreaseDPBy((n + 1) as usize),
        Op::DecreaseDPBy(n) => Op::DecreaseDPBy((n + 1) as usize),
        Op::IncreaseByteAtDPBy(n) => Op::IncreaseByteAtDPBy((n + 1) as usize),
        Op::DecreaseByteAtDPBy(n) => Op::DecreaseByteAtDPBy((n + 1) as usize),
        other => other,
    }
}

/// The instructions of a text in order, jump targets still open.
///
/// Comments are dropped. With `coalesce`, a counted instruction character
/// that follows an instruction of its own kind raises that instruction's
/// count; otherwise each instruction character gives one instruction.
pub open spec fn skeleton(src: Seq<char>, coalesce: bool) -> Seq<Op>
    decreases src.len(),
{
    if src.len() == 0 {
        Seq::empty()
    } else {
        let before = skeleton(src.drop_last(), coalesce);
        let c = src.last();
        if !is_instruction(c) {
            before
        } else if coalesce && before.len() > 0 && repeats(before.last(), c) {
            before.drop_last().push(one_more(before.last()))
        } else {
            before.push(unit_op(c))
        }
    }
}

/// Index of the `]` that closes a bracket, searching from `from` onwards with
/// `pending` further brackets open in between; the length of `ops` if there
/// is none.
pub open spec fn closing_from(ops: Seq<Op>, from: int, pending: nat) -> int
    decreases ops.len() - from,
{
    if from < 0 || from >= ops.len() {
        ops.len() as int
    } else if ops[from] is IfByteZeroJumpTo {
        closing_from(ops, from + 1, pending + 1)
    } else if ops[from] is IfByteNotZeroJumpTo {
        if pending == 0 {
            from
        } else {
            closing_from(ops, from + 1, (pending - 1) as nat)
        }
    } else {
        closing_from(ops, from + 1, pending)
    }
}

/// Index of the `[` that a bracket closes, searching from `from` backwards
/// with `pending` further brackets closed in between; -1 if there is none.
pub open spec fn opening_from(ops: Seq<Op>, from: int, pending: nat) -> int
    decreases from + 1,
{
    if from < 0 || from >= ops.len() {
        -1
    } else if ops[from] is IfByteNotZeroJumpTo {
        opening_from(ops, from - 1, pending + 1)
    } else if ops[from] is IfByteZeroJumpTo {
        if pending == 0 {
            from
        } else {
            opening_from(ops, from - 1, (pending - 1) as nat)
        }
    } else {
        opening_from(ops, from - 1, pending)
    }
}

/// The instruction at `i` with its jump target filled in: a `[` jumps to one
/// past its closing `]`, a `]` jumps to one past its opening `[`.
pub open spec fn linked(ops: Seq<Op>, i: int) -> Op {
    match ops[i] {
        Op::IfByteZeroJumpTo(_) => Op::IfByteZeroJumpTo(
            Some((closing_from(ops, i + 1, 0) + 1) as usize),
        ),
        Op::IfByteNotZeroJumpTo(_) => Op::IfByteNotZeroJumpTo(
            (opening_from(ops, i - 1, 0) + 1) as usize,
        ),
        other => other,
    }
}

/// The program that a text stands for: the instructions of its skeleton,
/// each bracket jumping to one past its partner. A text has a program if it
/// is well-bracketed.
pub open spec fn translation(src: Seq<char>, coalesce: bool) -> Seq<Op> {
    let ops = skeleton(src, coalesce);
    Seq::new(ops.len(), |i: int| linked(ops, i))
}

/// Every instruction stands for at least one instruction character: no
/// counted instruction has a count of zero.
pub open spec fn counts_positive(ops: Seq<Op>) -> bool {
    forall|i: int| 0 <= i < ops.len() ==> (#[trigger] ops[i]).width() >= 1
}

/// Every jump of the program has a target, and that target is an index of
/// the program or its length.
pub open spec fn targets_resolved(program: Seq<Op>) -> bool {
    forall|i: int|
        0 <= i < program.len() ==> match #[trigger] program[i] {
            Op::IfByteZeroJumpTo(target) => target is Some && target->0 <= program.len(),
            Op::IfByteNotZeroJumpTo(target) => target <= program.len(),
            _ => true,
        }
}

} // verus!
