//! The translator: from source text to a program with resolved jumps.

use vstd::prelude::*;
use vstd::utf8::encode_utf8;
use crate::error::ParseError;
use crate::nesting::{
    depth, depth_before, encloses, lemma_closing_found, lemma_depth_agrees, lemma_depth_whole,
    lemma_encloses_agrees, lemma_opening_found, same_brackets,
};
use crate::op::{Op, Program};
use crate::syntax::{
    bracket_depth, closes_in_order, closing_from, counts_positive, is_instruction, linked,
    mismatch_at, one_more, opening_from, repeats, skeleton, targets_resolved, translation,
    unit_op, well_bracketed,
};

verus! {

/// The translator's working state `parsed`, `stack` is sound for the
/// instructions `ops` read so far: plain instructions are in place, every
/// target that is filled in points past the bracket's partner, and the stack
/// lists, outermost first, exactly the `[` that are still open.
pub open spec fn linking(ops: Seq<Op>, parsed: Seq<Op>, stack: Seq<usize>) -> bool {
    &&& parsed.len() == ops.len()
    &&& depth(ops) == stack.len()
    &&& forall|i: int| 0 <= i < ops.len() ==> #[trigger] placed(ops, parsed, stack, i)
    &&& forall|m: int| 0 <= m < stack.len() ==> #[trigger] pending(ops, parsed, stack, m)
}

/// The instruction at `i` is in place as far as it can be.
pub open spec fn placed(ops: Seq<Op>, parsed: Seq<Op>, stack: Seq<usize>, i: int) -> bool {
    match ops[i] {
        Op::IfByteZeroJumpTo(_) => match parsed[i] {
            Op::IfByteZeroJumpTo(Some(target)) => encloses(ops, i, target - 1),
            Op::IfByteZeroJumpTo(None) => {
                &&& 0 <= depth_before(ops, i) < stack.len()
                &&& stack[depth_before(ops, i)] == i
            },
            _ => false,
        },
        Op::IfByteNotZeroJumpTo(_) => match parsed[i] {
            Op::IfByteNotZeroJumpTo(target) => encloses(ops, target - 1, i),
            _ => false,
        },
        other => parsed[i] == other,
    }
}

/// The stack entry at `m` is a `[` at depth `m` that nothing has closed.
pub open spec fn pending(ops: Seq<Op>, parsed: Seq<Op>, stack: Seq<usize>, m: int) -> bool {
    &&& stack[m] < ops.len()
    &&& ops[stack[m] as int] is IfByteZeroJumpTo
    &&& parsed[stack[m] as int] == Op::IfByteZeroJumpTo(None)
    &&& depth_before(ops, stack[m] as int) == m
    &&& forall|q: int| stack[m] < q <= ops.len() ==> #[trigger] depth_before(ops, q) > m
}

/// The positions are those of the `[` among the first `upto` characters
/// that are still open, outermost first.
pub open spec fn opens_tracked(src: Seq<char>, upto: int, positions: Seq<usize>) -> bool {
    &&& positions.len() == bracket_depth(src.take(upto))
    &&& forall|m: int|
        0 <= m < positions.len() ==> #[trigger] open_tracked(src, upto, positions, m)
}

/// The position at `m` is that of a `[` at depth `m` which nothing has
/// closed up to `upto`.
pub open spec fn open_tracked(src: Seq<char>, upto: int, positions: Seq<usize>, m: int) -> bool {
    &&& positions[m] < upto
    &&& src[positions[m] as int] == '['
    &&& bracket_depth(src.take(positions[m] as int)) == m
    &&& forall|q: int| positions[m] < q <= upto ==> bracket_depth(#[trigger] src.take(q)) > m
}

/// The positions stay right over a character that is no bracket, and a
/// bracket brings or takes the last of them.
proof fn lemma_opens_tracked(src: Seq<char>, upto: int, positions: Seq<usize>)
    requires
        0 <= upto < src.len(),
        upto <= usize::MAX,
        opens_tracked(src, upto, positions),
    ensures
        src[upto] == '[' ==> opens_tracked(src, upto + 1, positions.push(upto as usize)),
        src[upto] == ']' && positions.len() > 0 ==> opens_tracked(
            src,
            upto + 1,
            positions.drop_last(),
        ),
        src[upto] != '[' && src[upto] != ']' ==> opens_tracked(src, upto + 1, positions),
{
    assert(src.take(upto + 1).drop_last() =~= src.take(upto));
    let after = if src[upto] == '[' {
        positions.push(upto as usize)
    } else if src[upto] == ']' {
        positions.drop_last()
    } else {
        positions
    };
    if src[upto] != ']' || positions.len() > 0 {
        assert forall|m: int| 0 <= m < after.len() implies #[trigger] open_tracked(
            src,
            upto + 1,
            after,
            m,
        ) by {
            if m < positions.len() {
                assert(open_tracked(src, upto, positions, m));
            }
        }
    }
}

/// An instruction that was in place stays so when the sequence changes
/// behind it or only in a count.
proof fn lemma_carry(
    ops: Seq<Op>,
    parsed: Seq<Op>,
    stack: Seq<usize>,
    ops2: Seq<Op>,
    parsed2: Seq<Op>,
    stack2: Seq<usize>,
    i: int,
)
    requires
        linking(ops, parsed, stack),
        same_brackets(ops, ops2, ops.len() as int),
        parsed2.len() == ops2.len(),
        0 <= i < ops.len(),
        ops[i].nesting() != 0 ==> parsed2[i] == parsed[i],
        ops[i].nesting() != 0 ==> ops2[i] == ops[i],
        ops[i].nesting() == 0 ==> parsed2[i] == ops2[i],
        parsed[i] == Op::IfByteZeroJumpTo(None) ==> depth_before(ops, i) < stack2.len(),
        parsed[i] == Op::IfByteZeroJumpTo(None) ==> stack2[depth_before(ops, i)] == i,
    ensures
        placed(ops2, parsed2, stack2, i),
{
    let n = ops.len() as int;
    assert(placed(ops, parsed, stack, i));
    lemma_depth_agrees(ops, ops2, n, i);
    match ops[i] {
        Op::IfByteZeroJumpTo(_) => {
            match parsed[i] {
                Op::IfByteZeroJumpTo(Some(target)) => {
                    lemma_encloses_agrees(ops, ops2, n, i, target - 1);
                },
                _ => {},
            }
        },
        Op::IfByteNotZeroJumpTo(_) => {
            match parsed[i] {
                Op::IfByteNotZeroJumpTo(target) => {
                    lemma_encloses_agrees(ops, ops2, n, target - 1, i);
                },
                _ => {},
            }
        },
        _ => {},
    }
}

/// A stack entry stays pending when the sequence grows by an instruction
/// that leaves the depth above the entry's.
proof fn lemma_carry_pending(
    ops: Seq<Op>,
    parsed: Seq<Op>,
    stack: Seq<usize>,
    ops2: Seq<Op>,
    parsed2: Seq<Op>,
    stack2: Seq<usize>,
    m: int,
)
    requires
        linking(ops, parsed, stack),
        same_brackets(ops, ops2, ops.len() as int),
        ops.len() <= ops2.len() <= ops.len() + 1,
        parsed2.len() == ops2.len(),
        0 <= m < stack.len(),
        m < stack2.len(),
        stack2[m] == stack[m],
        parsed2[stack[m] as int] == parsed[stack[m] as int],
        ops2.len() > ops.len() ==> depth(ops2) > m,
    ensures
        pending(ops2, parsed2, stack2, m),
{
    let n = ops.len() as int;
    let s = stack[m] as int;
    assert(pending(ops, parsed, stack, m));
    lemma_depth_agrees(ops, ops2, n, s);
    assert(ops[s].nesting() == ops2[s].nesting());
    assert forall|q: int| s < q <= ops2.len() implies #[trigger] depth_before(ops2, q) > m by {
        if q <= n {
            lemma_depth_agrees(ops, ops2, n, q);
            assert(depth_before(ops, q) > m);
        } else {
            lemma_depth_whole(ops2);
        }
    }
}

/// A plain instruction is appended.
proof fn lemma_plain(ops: Seq<Op>, parsed: Seq<Op>, stack: Seq<usize>, op: Op)
    requires
        linking(ops, parsed, stack),
        op.nesting() == 0,
    ensures
        linking(ops.push(op), parsed.push(op), stack),
{
    let n = ops.len() as int;
    let ops2 = ops.push(op);
    let parsed2 = parsed.push(op);
    assert(ops2.drop_last() =~= ops);
    assert forall|i: int| 0 <= i < ops2.len() implies #[trigger] placed(
        ops2,
        parsed2,
        stack,
        i,
    ) by {
        if i < n {
            assert(placed(ops, parsed, stack, i));
            lemma_carry(ops, parsed, stack, ops2, parsed2, stack, i);
        }
    }
    assert forall|m: int| 0 <= m < stack.len() implies #[trigger] pending(
        ops2,
        parsed2,
        stack,
        m,
    ) by {
        assert(pending(ops, parsed, stack, m));
        lemma_carry_pending(ops, parsed, stack, ops2, parsed2, stack, m);
    }
}

/// The last instruction, a plain one, is replaced by another plain one.
proof fn lemma_bump(ops: Seq<Op>, parsed: Seq<Op>, stack: Seq<usize>, op: Op)
    requires
        linking(ops, parsed, stack),
        ops.len() > 0,
        ops.last().nesting() == 0,
        op.nesting() == 0,
    ensures
        linking(ops.drop_last().push(op), parsed.update(ops.len() - 1, op), stack),
{
    let n = ops.len() as int;
    let ops2 = ops.drop_last().push(op);
    let parsed2 = parsed.update(n - 1, op);
    assert(ops2.drop_last() =~= ops.drop_last());
    assert(placed(ops, parsed, stack, n - 1));
    assert forall|i: int| 0 <= i < ops2.len() implies #[trigger] placed(
        ops2,
        parsed2,
        stack,
        i,
    ) by {
        assert(placed(ops, parsed, stack, i));
        lemma_carry(ops, parsed, stack, ops2, parsed2, stack, i);
    }
    assert forall|m: int| 0 <= m < stack.len() implies #[trigger] pending(
        ops2,
        parsed2,
        stack,
        m,
    ) by {
        assert(pending(ops, parsed, stack, m));
        lemma_carry_pending(ops, parsed, stack, ops2, parsed2, stack, m);
    }
}

/// A `[` is appended and its index pushed.
proof fn lemma_open(ops: Seq<Op>, parsed: Seq<Op>, stack: Seq<usize>)
    requires
        linking(ops, parsed, stack),
        ops.len() <= usize::MAX,
    ensures
        linking(
            ops.push(Op::IfByteZeroJumpTo(None)),
            parsed.push(Op::IfByteZeroJumpTo(None)),
            stack.push(ops.len() as usize),
        ),
{
    let n = ops.len() as int;
    let op = Op::IfByteZeroJumpTo(None);
    let ops2 = ops.push(op);
    let parsed2 = parsed.push(op);
    let stack2 = stack.push(n as usize);
    assert(ops2.drop_last() =~= ops);
    lemma_depth_whole(ops);
    lemma_depth_whole(ops2);
    lemma_depth_agrees(ops, ops2, n, n);
    assert forall|i: int| 0 <= i < ops2.len() implies #[trigger] placed(
        ops2,
        parsed2,
        stack2,
        i,
    ) by {
        if i < n {
            assert(placed(ops, parsed, stack, i));
            lemma_carry(ops, parsed, stack, ops2, parsed2, stack2, i);
        }
    }
    assert forall|m: int| 0 <= m < stack2.len() implies #[trigger] pending(
        ops2,
        parsed2,
        stack2,
        m,
    ) by {
        if m < stack.len() {
            assert(pending(ops, parsed, stack, m));
            lemma_carry_pending(ops, parsed, stack, ops2, parsed2, stack2, m);
        } else {
            assert forall|q: int| n < q <= ops2.len() implies #[trigger] depth_before(ops2, q)
                > m by {}
        }
    }
}

/// A `]` is appended: the innermost open `[` gets its target and leaves the
/// stack.
proof fn lemma_close(ops: Seq<Op>, parsed: Seq<Op>, stack: Seq<usize>)
    requires
        linking(ops, parsed, stack),
        stack.len() > 0,
        ops.len() < usize::MAX,
    ensures
        stack.last() < ops.len(),
        linking(
            ops.push(Op::IfByteNotZeroJumpTo(0)),
            parsed.update(
                stack.last() as int,
                Op::IfByteZeroJumpTo(Some((ops.len() + 1) as usize)),
            ).push(Op::IfByteNotZeroJumpTo((stack.last() + 1) as usize)),
            stack.drop_last(),
        ),
{
    let n = ops.len() as int;
    let top = stack.len() - 1;
    let s = stack.last() as int;
    let ops2 = ops.push(Op::IfByteNotZeroJumpTo(0));
    let parsed2 = parsed.update(s, Op::IfByteZeroJumpTo(Some((n + 1) as usize))).push(
        Op::IfByteNotZeroJumpTo((s + 1) as usize),
    );
    let stack2 = stack.drop_last();
    assert(pending(ops, parsed, stack, top));
    assert(ops2.drop_last() =~= ops);
    lemma_depth_whole(ops);
    lemma_depth_whole(ops2);
    lemma_depth_agrees(ops, ops2, n, n);
    lemma_depth_agrees(ops, ops2, n, s);
    assert(encloses(ops2, s, n)) by {
        assert forall|q: int| s < q <= n implies #[trigger] depth_before(ops2, q) > depth_before(
            ops2,
            s,
        ) by {
            lemma_depth_agrees(ops, ops2, n, q);
            assert(depth_before(ops, q) > top);
        }
    }
    assert forall|i: int| 0 <= i < ops2.len() implies #[trigger] placed(
        ops2,
        parsed2,
        stack2,
        i,
    ) by {
        if i < n && i != s {
            assert(placed(ops, parsed, stack, i));
            lemma_carry(ops, parsed, stack, ops2, parsed2, stack2, i);
        }
    }
    assert forall|m: int| 0 <= m < stack2.len() implies #[trigger] pending(
        ops2,
        parsed2,
        stack2,
        m,
    ) by {
        assert(pending(ops, parsed, stack, m));
        lemma_carry_pending(ops, parsed, stack, ops2, parsed2, stack2, m);
    }
}

/// With nothing left open, the working state is the linked program.
proof fn lemma_all_linked(ops: Seq<Op>, parsed: Seq<Op>)
    requires
        linking(ops, parsed, Seq::empty()),
    ensures
        parsed == Seq::new(ops.len(), |i: int| linked(ops, i)),
        targets_resolved(parsed),
{
    let stack = Seq::<usize>::empty();
    assert forall|i: int| 0 <= i < ops.len() implies parsed[i] == linked(ops, i) && match parsed[i] {
        Op::IfByteZeroJumpTo(target) => target is Some && target->0 <= parsed.len(),
        Op::IfByteNotZeroJumpTo(target) => target <= parsed.len(),
        _ => true,
    } by {
        assert(placed(ops, parsed, stack, i));
        match parsed[i] {
            Op::IfByteZeroJumpTo(Some(target)) => {
                lemma_closing_found(ops, i, target - 1);
            },
            Op::IfByteNotZeroJumpTo(target) => {
                lemma_opening_found(ops, target - 1, i);
            },
            _ => {},
        }
    }
    assert(parsed =~= Seq::new(ops.len(), |i: int| linked(ops, i)));
}

/// The skeleton of a text has the text's bracket depth, is no longer than
/// the text, and counts no higher than the text is long.
pub proof fn lemma_skeleton_bounds(src: Seq<char>, coalesce: bool)
    requires
        src.len() <= usize::MAX,
    ensures
        depth(skeleton(src, coalesce)) == bracket_depth(src),
        skeleton(src, coalesce).len() <= src.len(),
        counts_positive(skeleton(src, coalesce)),
        forall|i: int|
            0 <= i < skeleton(src, coalesce).len() ==> (#[trigger] skeleton(
                src,
                coalesce,
            )[i]).width() <= src.len(),
    decreases src.len(),
{
    if src.len() > 0 {
        let before = skeleton(src.drop_last(), coalesce);
        let c = src.last();
        lemma_skeleton_bounds(src.drop_last(), coalesce);
        if is_instruction(c) && coalesce && before.len() > 0 && repeats(before.last(), c) {
            let after = before.drop_last().push(one_more(before.last()));
            assert(after.drop_last() =~= before.drop_last());
            assert(before.last().width() <= src.len() - 1);
            assert forall|i: int| 0 <= i < after.len() implies 1 <= (#[trigger] after[i]).width()
                <= src.len() by {
                if i < after.len() - 1 {
                    assert(after[i] == before[i]);
                    assert(before[i].width() >= 1);
                }
            }
        } else if is_instruction(c) {
            let after = before.push(unit_op(c));
            assert(after.drop_last() =~= before);
            assert forall|i: int| 0 <= i < after.len() implies 1 <= (#[trigger] after[i]).width()
                <= src.len() by {
                if i < after.len() - 1 {
                    assert(after[i] == before[i]);
                    assert(before[i].width() >= 1);
                }
            }
        }
    }
}

/// Every bracket of the sequence has its partner: each `[` encloses up to
/// the `]` that the forward search finds, each `]` from the `[` that the
/// backward search finds.
pub open spec fn paired(ops: Seq<Op>) -> bool {
    forall|i: int|
        0 <= i < ops.len() ==> match #[trigger] ops[i] {
            Op::IfByteZeroJumpTo(_) => encloses(ops, i, closing_from(ops, i + 1, 0)),
            Op::IfByteNotZeroJumpTo(_) => encloses(ops, opening_from(ops, i - 1, 0), i),
            _ => true,
        }
}

/// A working state that is sound for the skeleton of a text none of whose
/// `]` comes too early.
proof fn lemma_linking_exists(src: Seq<char>, coalesce: bool) -> (w: (Seq<Op>, Seq<usize>))
    requires
        src.len() <= usize::MAX,
        closes_in_order(src),
    ensures
        linking(skeleton(src, coalesce), w.0, w.1),
    decreases src.len(),
{
    if src.len() == 0 {
        (Seq::empty(), Seq::empty())
    } else {
        let rest = src.drop_last();
        let c = src.last();
        assert forall|k: int| 0 <= k <= rest.len() implies bracket_depth(#[trigger] rest.take(k))
            >= 0 by {
            assert(rest.take(k) =~= src.take(k));
        }
        let (parsed, stack) = lemma_linking_exists(rest, coalesce);
        let before = skeleton(rest, coalesce);
        let n = before.len() as int;
        lemma_skeleton_bounds(rest, coalesce);
        if !is_instruction(c) {
            (parsed, stack)
        } else if coalesce && n > 0 && repeats(before.last(), c) {
            lemma_bump(before, parsed, stack, one_more(before.last()));
            (parsed.update(n - 1, one_more(before.last())), stack)
        } else if c == '[' {
            lemma_open(before, parsed, stack);
            (parsed.push(Op::IfByteZeroJumpTo(None)), stack.push(n as usize))
        } else if c == ']' {
            assert(src.take(src.len() as int) =~= src);
            lemma_close(before, parsed, stack);
            (
                parsed.update(
                    stack.last() as int,
                    Op::IfByteZeroJumpTo(Some((n + 1) as usize)),
                ).push(Op::IfByteNotZeroJumpTo((stack.last() + 1) as usize)),
                stack.drop_last(),
            )
        } else {
            lemma_plain(before, parsed, stack, unit_op(c));
            (parsed.push(unit_op(c)), stack)
        }
    }
}

/// In the translation of a well-bracketed text every bracket has its
/// partner, and every jump has a target within the program or at its end.
pub proof fn lemma_translation_paired(src: Seq<char>, coalesce: bool)
    requires
        src.len() <= usize::MAX,
        well_bracketed(src),
    ensures
        paired(skeleton(src, coalesce)),
        targets_resolved(translation(src, coalesce)),
{
    let ops = skeleton(src, coalesce);
    let (parsed, stack) = lemma_linking_exists(src, coalesce);
    lemma_skeleton_bounds(src, coalesce);
    assert(stack =~= Seq::<usize>::empty());
    lemma_all_linked(ops, parsed);
    assert forall|i: int| 0 <= i < ops.len() implies match #[trigger] ops[i] {
        Op::IfByteZeroJumpTo(_) => encloses(ops, i, closing_from(ops, i + 1, 0)),
        Op::IfByteNotZeroJumpTo(_) => encloses(ops, opening_from(ops, i - 1, 0), i),
        _ => true,
    } by {
        assert(placed(ops, parsed, stack, i));
        match parsed[i] {
            Op::IfByteZeroJumpTo(Some(target)) => {
                lemma_closing_found(ops, i, target - 1);
            },
            Op::IfByteNotZeroJumpTo(target) => {
                lemma_opening_found(ops, target - 1, i);
            },
            _ => {},
        }
    }
}

/// A text has at most as many characters as its encoding has bytes.
proof fn lemma_chars_fit(chars: Seq<char>)
    ensures
        chars.len() <= encode_utf8(chars).len(),
    decreases chars.len(),
{
    if chars.len() > 0 {
        lemma_chars_fit(chars.drop_first());
    }
}

/// Translates a source text, coalescing repeated instructions or not.
fn translate(input: &str, coalesce: bool) -> (r: Result<Program, ParseError>)
    ensures
        r is Ok <==> well_bracketed(input@),
        r matches Ok(program) ==> program@ == translation(input@, coalesce),
        r matches Ok(program) ==> targets_resolved(program@),
        r matches Ok(program) ==> counts_positive(program@),
        r matches Err(e) ==> mismatch_at(input@, e->position as int),
{
    // No count and no index passes the number of characters, which is at
    // most the number of bytes.
    let limit: usize = input.as_bytes().len();
    proof {
        lemma_chars_fit(input@);
    }
    let mut parsed: Program = Vec::new();
    let mut bracket_stack: Vec<usize> = Vec::new();
    let mut open_positions: Vec<usize> = Vec::new();
    let mut position: usize = 0;
    proof {
        assert(input@.take(0) =~= Seq::<char>::empty());
    }
    for c in it: input.chars()
        invariant
            it.seq() == input@,
            input@.len() <= limit,
            position == it.index(),
            linking(
                skeleton(input@.take(it.index() as int), coalesce),
                parsed@,
                bracket_stack@,
            ),
            opens_tracked(input@, it.index() as int, open_positions@),
            forall|k: int|
                0 <= k <= it.index() ==> bracket_depth(#[trigger] input@.take(k)) >= 0,
    {
        let ghost at = it.index() as int;
        let ghost before = skeleton(input@.take(at), coalesce);
        let ghost old_parsed = parsed@;
        let ghost old_stack = bracket_stack@;
        proof {
            assert(input@.take(at + 1).drop_last() =~= input@.take(at));
            assert(input@.take(at + 1).last() == c);
            lemma_skeleton_bounds(input@.take(at), coalesce);
            lemma_skeleton_bounds(input@.take(at + 1), coalesce);
            lemma_opens_tracked(input@, at, open_positions@);
        }
        let n = parsed.len();
        if c == '>' || c == '<' || c == '+' || c == '-' {
            let mut merged = false;
            if coalesce && n > 0 {
                proof {
                    assert(placed(before, old_parsed, old_stack, n - 1));
                    assert(1 <= before[n - 1].width() <= at);
                }
                match parsed[n - 1] {
                    Op::IncreaseDPBy(count) => if c == '>' {
                        parsed.set(n - 1, Op::IncreaseDPBy(count + 1));
                        merged = true;
                    },
                    Op::DecreaseDPBy(count) => if c == '<' {
                        parsed.set(n - 1, Op::DecreaseDPBy(count + 1));
                        merged = true;
                    },
                    Op::IncreaseByteAtDPBy(count) => if c == '+' {
                        parsed.set(n - 1, Op::IncreaseByteAtDPBy(count + 1));
                        merged = true;
                    },
                    Op::DecreaseByteAtDPBy(count) => if c == '-' {
                        parsed.set(n - 1, Op::DecreaseByteAtDPBy(count + 1));
                        merged = true;
                    },
                    _ => {},
                }
            }
            if merged {
                proof {
                    lemma_bump(before, old_parsed, old_stack, one_more(before.last()));
                }
            } else {
                let op = if c == '>' {
                    Op::IncreaseDPBy(1)
                } else if c == '<' {
                    Op::DecreaseDPBy(1)
                } else if c == '+' {
                    Op::IncreaseByteAtDPBy(1)
                } else {
                    Op::DecreaseByteAtDPBy(1)
                };
                parsed.push(op);
                proof {
                    if n > 0 {
                        assert(placed(before, old_parsed, old_stack, n - 1));
                    }
                    lemma_plain(before, old_parsed, old_stack, op);
                }
            }
        } else if c == '.' {
            parsed.push(Op::OutputByteAtDP);
            proof {
                lemma_plain(before, old_parsed, old_stack, Op::OutputByteAtDP);
            }
        } else if c == ',' {
            parsed.push(Op::InputByteToDP);
            proof {
                lemma_plain(before, old_parsed, old_stack, Op::InputByteToDP);
            }
        } else if c == '[' {
            bracket_stack.push(n);
            open_positions.push(position);
            parsed.push(Op::IfByteZeroJumpTo(None));
            proof {
                lemma_open(before, old_parsed, old_stack);
            }
        } else if c == ']' {
            match bracket_stack.pop() {
                Some(matching_start_index) => {
                    proof {
                        lemma_close(before, old_parsed, old_stack);
                    }
                    parsed.set(matching_start_index, Op::IfByteZeroJumpTo(Some(n + 1)));
                    parsed.push(Op::IfByteNotZeroJumpTo(matching_start_index + 1));
                    open_positions.pop();
                },
                None => {
                    proof {
                        assert(bracket_depth(input@.take(at + 1)) < 0);
                    }
                    return Err(ParseError::MismatchedBracket { position });
                },
            }
        }
        position = position + 1;
    }
    let ghost old_positions = open_positions@;
    proof {
        assert(input@.take(input@.len() as int) =~= input@);
        lemma_skeleton_bounds(input@, coalesce);
    }
    match open_positions.pop() {
        Some(position) => {
            proof {
                assert(open_tracked(
                    input@,
                    input@.len() as int,
                    old_positions,
                    old_positions.len() - 1,
                ));
            }
            return Err(ParseError::MismatchedBracket { position });
        },
        None => {},
    }
    proof {
        assert(bracket_stack@ =~= Seq::<usize>::empty());
        lemma_all_linked(skeleton(input@, coalesce), parsed@);
        assert forall|i: int| 0 <= i < parsed@.len() implies (#[trigger] parsed@[i]).width()
            >= 1 by {
            assert(skeleton(input@, coalesce)[i].width() >= 1);
        }
    }
    Ok(parsed)
}

/// Translates a source text into a program, coalescing each run of `>`, `<`,
/// `+` or `-` into one counted instruction.
///
/// Characters that are no instructions are skipped. The text is rejected
/// exactly if its brackets do not match.
pub fn parse(input: &str) -> (r: Result<Program, ParseError>)
    ensures
        r is Ok <==> well_bracketed(input@),
        r matches Ok(program) ==> program@ == translation(input@, true),
        r matches Ok(program) ==> targets_resolved(program@),
        r matches Ok(program) ==> counts_positive(program@),
        r matches Err(e) ==> mismatch_at(input@, e->position as int),
{
    translate(input, true)
}

/// Translates a source text into a program with one instruction for each
/// instruction character.
pub fn parse_unoptimized(input: &str) -> (r: Result<Program, ParseError>)
    ensures
        r is Ok <==> well_bracketed(input@),
        r matches Ok(program) ==> program@ == translation(input@, false),
        r matches Ok(program) ==> targets_resolved(program@),
        r matches Ok(program) ==> counts_positive(program@),
        r matches Err(e) ==> mismatch_at(input@, e->position as int),
{
    translate(input, false)
}

} // verus!
