//! How a coalesced program lies over the program with one instruction for
//! each instruction character: where each counted instruction begins, and
//! that brackets keep their partners.

use vstd::prelude::*;
use crate::nesting::encloses;
use crate::op::Op;
use crate::parser::{lemma_skeleton_bounds, lemma_translation_paired, paired};
use crate::syntax::{
    closing_from, counts_positive, is_instruction, linked, one_more, opening_from, repeats,
    skeleton, targets_resolved, translation, unit_op, well_bracketed,
};

verus! {

/// The instruction with a count of one.
pub open spec fn single(op: Op) -> Op {
    match op {
        Op::IncreaseDPBy(_) => Op::IncreaseDPBy(1),
        Op::DecreaseDPBy(_) => Op::DecreaseDPBy(1),
        Op::IncreaseByteAtDPBy(_) => Op::IncreaseByteAtDPBy(1),
        Op::DecreaseByteAtDPBy(_) => Op::DecreaseByteAtDPBy(1),
        other => other,
    }
}

/// Number of instruction characters that the instructions in front of `i`
/// stand for: the index at which instruction `i` begins in the program with
/// one instruction for each character.
pub open spec fn offset(ops: Seq<Op>, i: int) -> int
    decreases i,
{
    if i <= 0 {
        0
    } else {
        offset(ops, i - 1) + ops[i - 1].width()
    }
}

/// The `r`-th instruction of `long` from where instruction `i` of `short`
/// begins is that instruction, counted once.
pub open spec fn spelled_at(short: Seq<Op>, long: Seq<Op>, i: int, r: int) -> bool {
    long[offset(short, i) + r] == single(short[i])
}

/// `long` is `short` with each instruction written out count times, jump
/// targets aside.
pub open spec fn spells_out(short: Seq<Op>, long: Seq<Op>) -> bool {
    &&& long.len() == offset(short, short.len() as int)
    &&& counts_positive(short)
    &&& forall|i: int, r: int|
        0 <= i < short.len() && 0 <= r < short[i].width() ==> #[trigger] spelled_at(
            short,
            long,
            i,
            r,
        )
}

/// Where an instruction begins depends on the counts in front of it only.
pub proof fn lemma_offset_agrees(a: Seq<Op>, b: Seq<Op>, i: int)
    requires
        0 <= i <= a.len(),
        i <= b.len(),
        forall|k: int| 0 <= k < i ==> (#[trigger] a[k]).width() == (#[trigger] b[k]).width(),
    ensures
        offset(a, i) == offset(b, i),
    decreases i,
{
    if i > 0 {
        lemma_offset_agrees(a, b, i - 1);
    }
}

/// A later instruction begins later.
pub proof fn lemma_offset_grows(ops: Seq<Op>, i: int, j: int)
    requires
        0 <= i <= j <= ops.len(),
        counts_positive(ops),
    ensures
        offset(ops, i) + (j - i) <= offset(ops, j),
    decreases j - i,
{
    if i < j {
        lemma_offset_grows(ops, i, j - 1);
    }
}

/// The characters of instruction `i` lie within the whole.
pub proof fn lemma_offset_within(ops: Seq<Op>, i: int)
    requires
        0 <= i < ops.len(),
        counts_positive(ops),
    ensures
        0 <= i <= offset(ops, i),
        offset(ops, i + 1) == offset(ops, i) + ops[i].width(),
        offset(ops, i + 1) <= offset(ops, ops.len() as int),
{
    lemma_offset_grows(ops, 0, i);
    lemma_offset_grows(ops, i + 1, ops.len() as int);
}

/// What is spelled out stays so when both sequences grow at the end.
proof fn lemma_spelled_at_carries(
    short0: Seq<Op>,
    long0: Seq<Op>,
    short: Seq<Op>,
    long: Seq<Op>,
    i: int,
    r: int,
)
    requires
        spells_out(short0, long0),
        0 <= i < short0.len(),
        i < short.len(),
        0 <= r < short0[i].width(),
        long0.len() <= long.len(),
        forall|k: int| 0 <= k < long0.len() ==> long[k] == long0[k],
        forall|k: int| 0 <= k < i ==> #[trigger] short[k] == short0[k],
        single(short[i]) == single(short0[i]),
    ensures
        spelled_at(short, long, i, r),
{
    lemma_offset_agrees(short0, short, i);
    lemma_offset_within(short0, i);
    assert(spelled_at(short0, long0, i, r));
}

/// The skeleton without coalescing spells out the skeleton with coalescing.
pub proof fn lemma_skeleton_spelled_out(src: Seq<char>)
    requires
        src.len() <= usize::MAX,
    ensures
        spells_out(skeleton(src, true), skeleton(src, false)),
    decreases src.len(),
{
    let short = skeleton(src, true);
    let long = skeleton(src, false);
    lemma_skeleton_bounds(src, true);
    if src.len() > 0 {
        let rest = src.drop_last();
        let c = src.last();
        let short0 = skeleton(rest, true);
        let long0 = skeleton(rest, false);
        let n = short0.len() as int;
        lemma_skeleton_spelled_out(rest);
        lemma_skeleton_bounds(rest, true);
        if is_instruction(c) {
            assert(long == long0.push(unit_op(c)));
            if n > 0 && repeats(short0.last(), c) {
                assert(short == short0.drop_last().push(one_more(short0.last())));
                assert(short0[n - 1].width() >= 1);
                lemma_offset_agrees(short0, short, n - 1);
                lemma_offset_within(short0, n - 1);
                assert forall|i: int, r: int|
                    0 <= i < short.len() && 0 <= r < short[i].width() implies #[trigger] spelled_at(
                    short,
                    long,
                    i,
                    r,
                ) by {
                    if r < short0[i].width() {
                        lemma_spelled_at_carries(short0, long0, short, long, i, r);
                    }
                }
            } else {
                assert(short == short0.push(unit_op(c)));
                lemma_offset_agrees(short0, short, n);
                assert forall|i: int, r: int|
                    0 <= i < short.len() && 0 <= r < short[i].width() implies #[trigger] spelled_at(
                    short,
                    long,
                    i,
                    r,
                ) by {
                    if i < n {
                        lemma_spelled_at_carries(short0, long0, short, long, i, r);
                    }
                }
            }
        }
    }
}

/// The forward search passes over instructions that are no brackets.
proof fn lemma_closing_skips(long: Seq<Op>, from: int, count: int, pending: nat)
    requires
        0 <= from,
        0 <= count,
        from + count <= long.len(),
        forall|r: int| 0 <= r < count ==> (#[trigger] long[from + r]).nesting() == 0,
    ensures
        closing_from(long, from, pending) == closing_from(long, from + count, pending),
    decreases count,
{
    if count > 0 {
        assert(long[from + 0].nesting() == 0);
        assert forall|r: int| 0 <= r < count - 1 implies (#[trigger] long[from + 1 + r]).nesting()
            == 0 by {
            assert(long[from + (r + 1)].nesting() == 0);
        }
        lemma_closing_skips(long, from + 1, count - 1, pending);
    }
}

/// The forward search finds in the spelled-out sequence the beginning of
/// what it finds in the short one.
pub proof fn lemma_closing_spelled_out(short: Seq<Op>, long: Seq<Op>, from: int, pending: nat)
    requires
        spells_out(short, long),
        0 <= from <= short.len(),
    ensures
        closing_from(long, offset(short, from), pending) == offset(
            short,
            closing_from(short, from, pending),
        ),
    decreases short.len() - from,
{
    if from < short.len() {
        lemma_offset_within(short, from);
        let at = offset(short, from);
        let w = short[from].width() as int;
        assert(spelled_at(short, long, from, 0));
        if short[from] is IfByteZeroJumpTo {
            lemma_closing_spelled_out(short, long, from + 1, pending + 1);
        } else if short[from] is IfByteNotZeroJumpTo {
            if pending > 0 {
                lemma_closing_spelled_out(short, long, from + 1, (pending - 1) as nat);
            }
        } else {
            assert forall|r: int| 0 <= r < w implies (#[trigger] long[at + r]).nesting() == 0 by {
                assert(spelled_at(short, long, from, r));
            }
            lemma_closing_skips(long, at, w, pending);
            lemma_closing_spelled_out(short, long, from + 1, pending);
        }
    }
}

/// The backward search passes over instructions that are no brackets.
proof fn lemma_opening_skips(long: Seq<Op>, from: int, count: int, pending: nat)
    requires
        0 <= count,
        count - 1 <= from < long.len(),
        forall|r: int| 0 <= r < count ==> (#[trigger] long[from - r]).nesting() == 0,
    ensures
        opening_from(long, from, pending) == opening_from(long, from - count, pending),
    decreases count,
{
    if count > 0 {
        assert(long[from - 0].nesting() == 0);
        assert forall|r: int| 0 <= r < count - 1 implies (#[trigger] long[from - 1 - r]).nesting()
            == 0 by {
            assert(long[from - (r + 1)].nesting() == 0);
        }
        lemma_opening_skips(long, from - 1, count - 1, pending);
    }
}

/// What the backward search finds in the spelled-out sequence, given what it
/// finds in the short one.
pub open spec fn begins_at(short: Seq<Op>, found: int) -> int {
    if found < 0 {
        -1
    } else {
        offset(short, found)
    }
}

/// The backward search finds in the spelled-out sequence the beginning of
/// what it finds in the short one.
pub proof fn lemma_opening_spelled_out(short: Seq<Op>, long: Seq<Op>, from: int, pending: nat)
    requires
        spells_out(short, long),
        -1 <= from < short.len(),
    ensures
        opening_from(long, offset(short, from + 1) - 1, pending) == begins_at(
            short,
            opening_from(short, from, pending),
        ),
    decreases from + 1,
{
    if from >= 0 {
        lemma_offset_within(short, from);
        let at = offset(short, from);
        let w = short[from].width() as int;
        assert(spelled_at(short, long, from, 0));
        if short[from] is IfByteNotZeroJumpTo {
            lemma_opening_spelled_out(short, long, from - 1, pending + 1);
        } else if short[from] is IfByteZeroJumpTo {
            if pending > 0 {
                lemma_opening_spelled_out(short, long, from - 1, (pending - 1) as nat);
            }
        } else {
            assert forall|r: int| 0 <= r < w implies (#[trigger] long[at + w - 1 - r]).nesting()
                == 0 by {
                assert(spelled_at(short, long, from, w - 1 - r));
            }
            lemma_opening_skips(long, at + w - 1, w, pending);
            lemma_opening_spelled_out(short, long, from - 1, pending);
        }
    }
}

/// The instruction at `i` as it stands in the unrolled program: counted
/// once, its jump target moved to where the target instruction begins.
pub open spec fn unrolled_op(short: Seq<Op>, i: int) -> Op {
    match short[i] {
        Op::IfByteZeroJumpTo(Some(target)) => Op::IfByteZeroJumpTo(
            Some(offset(short, target as int) as usize),
        ),
        Op::IfByteNotZeroJumpTo(target) => Op::IfByteNotZeroJumpTo(
            offset(short, target as int) as usize,
        ),
        other => single(other),
    }
}

/// The `r`-th instruction of `long` from where instruction `i` of `short`
/// begins is that instruction, unrolled.
pub open spec fn unrolled_at(short: Seq<Op>, long: Seq<Op>, i: int, r: int) -> bool {
    long[offset(short, i) + r] == unrolled_op(short, i)
}

/// `long` is the program `short` with each instruction written out count
/// times and the jumps moved along.
pub open spec fn unrolled(short: Seq<Op>, long: Seq<Op>) -> bool {
    &&& targets_resolved(short)
    &&& long.len() == offset(short, short.len() as int)
    &&& long.len() <= usize::MAX
    &&& counts_positive(short)
    &&& forall|i: int, r: int|
        0 <= i < short.len() && 0 <= r < short[i].width() ==> #[trigger] unrolled_at(
            short,
            long,
            i,
            r,
        )
}

/// A `[` of the skeleton and its counterpart among single instructions get
/// targets that correspond.
proof fn lemma_open_unrolled(short: Seq<Op>, long: Seq<Op>, i: int)
    requires
        spells_out(short, long),
        paired(short),
        long.len() <= usize::MAX,
        0 <= i < short.len(),
        short[i] is IfByteZeroJumpTo,
    ensures
        linked(short, i) is IfByteZeroJumpTo,
        linked(short, i)->IfByteZeroJumpTo_0 is Some,
        linked(long, offset(short, i)) == Op::IfByteZeroJumpTo(
            Some(offset(short, linked(short, i)->IfByteZeroJumpTo_0->0 as int) as usize),
        ),
{
    let j = closing_from(short, i + 1, 0);
    assert(encloses(short, i, j));
    lemma_offset_within(short, i);
    lemma_offset_within(short, j);
    assert(spelled_at(short, long, i, 0));
    lemma_closing_spelled_out(short, long, i + 1, 0);
}

/// A `]` of the skeleton and its counterpart among single instructions get
/// targets that correspond.
proof fn lemma_close_unrolled(short: Seq<Op>, long: Seq<Op>, i: int)
    requires
        spells_out(short, long),
        paired(short),
        long.len() <= usize::MAX,
        0 <= i < short.len(),
        short[i] is IfByteNotZeroJumpTo,
    ensures
        linked(short, i) is IfByteNotZeroJumpTo,
        linked(long, offset(short, i)) == Op::IfByteNotZeroJumpTo(
            offset(short, linked(short, i)->IfByteNotZeroJumpTo_0 as int) as usize,
        ),
{
    let k = opening_from(short, i - 1, 0);
    assert(encloses(short, k, i));
    lemma_offset_within(short, i);
    lemma_offset_within(short, k);
    assert(spelled_at(short, long, i, 0));
    lemma_opening_spelled_out(short, long, i - 1, 0);
}

/// Filling in the targets moves no instruction's beginning.
proof fn lemma_linking_keeps_offsets(ops: Seq<Op>, k: int)
    requires
        0 <= k <= ops.len(),
    ensures
        offset(Seq::new(ops.len(), |i: int| linked(ops, i)), k) == offset(ops, k),
{
    let program = Seq::new(ops.len(), |i: int| linked(ops, i));
    assert forall|i: int| 0 <= i < k implies (#[trigger] program[i]).width() == (
    #[trigger] ops[i]).width() by {}
    lemma_offset_agrees(program, ops, k);
}

/// One instruction of the translation without coalescing is the unrolled
/// instruction of the translation with coalescing that it belongs to.
proof fn lemma_unrolled_at(short: Seq<Op>, long: Seq<Op>, i: int, r: int)
    requires
        spells_out(short, long),
        paired(short),
        long.len() <= usize::MAX,
        0 <= i < short.len(),
        0 <= r < short[i].width(),
    ensures
        unrolled_at(
            Seq::new(short.len(), |i: int| linked(short, i)),
            Seq::new(long.len(), |i: int| linked(long, i)),
            i,
            r,
        ),
{
    let program = Seq::new(short.len(), |i: int| linked(short, i));
    lemma_offset_within(short, i);
    lemma_linking_keeps_offsets(short, i);
    assert(spelled_at(short, long, i, r));
    lemma_offset_grows(short, 0, short.len() as int);
    if short[i] is IfByteZeroJumpTo {
        lemma_open_unrolled(short, long, i);
        let partner = closing_from(short, i + 1, 0);
        assert(encloses(short, i, partner));
        lemma_linking_keeps_offsets(short, partner + 1);
    } else if short[i] is IfByteNotZeroJumpTo {
        lemma_close_unrolled(short, long, i);
        let partner = opening_from(short, i - 1, 0);
        assert(encloses(short, partner, i));
        lemma_linking_keeps_offsets(short, partner + 1);
    }
}

/// The translation without coalescing is the translation with coalescing,
/// unrolled.
pub proof fn lemma_translation_unrolled(src: Seq<char>)
    requires
        src.len() <= usize::MAX,
        well_bracketed(src),
    ensures
        unrolled(translation(src, true), translation(src, false)),
{
    let short = skeleton(src, true);
    let long = skeleton(src, false);
    let program = translation(src, true);
    let plain = translation(src, false);
    lemma_skeleton_spelled_out(src);
    lemma_skeleton_bounds(src, true);
    lemma_skeleton_bounds(src, false);
    lemma_translation_paired(src, true);
    lemma_linking_keeps_offsets(short, short.len() as int);
    assert forall|i: int| 0 <= i < program.len() implies (#[trigger] program[i]).width()
        >= 1 by {
        assert(short[i].width() >= 1);
    }
    assert forall|i: int, r: int|
        0 <= i < program.len() && 0 <= r < program[i].width() implies #[trigger] unrolled_at(
        program,
        plain,
        i,
        r,
    ) by {
        lemma_unrolled_at(short, long, i, r);
    }
}

} // verus!
