//! Bracket nesting in an instruction sequence: depth, matching pairs, and
//! why the two bracket searches find the partner of a matched bracket.

use vstd::prelude::*;
use crate::op::Op;
use crate::syntax::{closing_from, opening_from};

verus! {

/// Number of `[` minus number of `]` among the instructions.
pub open spec fn depth(ops: Seq<Op>) -> int
    decreases ops.len(),
{
    if ops.len() == 0 {
        0
    } else {
        depth(ops.drop_last()) + ops.last().nesting()
    }
}

/// Nesting depth in front of the instruction at `k`.
pub open spec fn depth_before(ops: Seq<Op>, k: int) -> int {
    depth(ops.take(k))
}

/// The `[` at `i` and the `]` at `j` belong together: the depth after `j` is
/// the depth in front of `i`, and it stays above that in between.
pub open spec fn encloses(ops: Seq<Op>, i: int, j: int) -> bool {
    &&& 0 <= i < j < ops.len()
    &&& ops[i] is IfByteZeroJumpTo
    &&& ops[j] is IfByteNotZeroJumpTo
    &&& depth_before(ops, j + 1) == depth_before(ops, i)
    &&& forall|m: int| i < m <= j ==> #[trigger] depth_before(ops, m) > depth_before(ops, i)
}

/// Two sequences with brackets in the same places up to `n`.
pub open spec fn same_brackets(a: Seq<Op>, b: Seq<Op>, n: int) -> bool {
    &&& 0 <= n <= a.len()
    &&& n <= b.len()
    &&& forall|i: int| 0 <= i < n ==> (#[trigger] a[i]).nesting() == (#[trigger] b[i]).nesting()
}

/// The depth behind an instruction is the depth in front of it and what the
/// instruction adds.
pub proof fn lemma_depth_step(ops: Seq<Op>, k: int)
    requires
        0 <= k < ops.len(),
    ensures
        depth_before(ops, k + 1) == depth_before(ops, k) + ops[k].nesting(),
{
    assert(ops.take(k + 1).drop_last() =~= ops.take(k));
}

/// The depth in front of the end is the depth of the whole, and the depth
/// in front of the beginning is zero.
pub proof fn lemma_depth_whole(ops: Seq<Op>)
    ensures
        depth_before(ops, ops.len() as int) == depth(ops),
        depth_before(ops, 0) == 0,
{
    assert(ops.take(ops.len() as int) =~= ops);
}

/// Sequences with brackets in the same places have the same depths.
pub proof fn lemma_depth_agrees(a: Seq<Op>, b: Seq<Op>, n: int, k: int)
    requires
        same_brackets(a, b, n),
        0 <= k <= n,
    ensures
        depth_before(a, k) == depth_before(b, k),
    decreases k,
{
    if k > 0 {
        lemma_depth_agrees(a, b, n, k - 1);
        lemma_depth_step(a, k - 1);
        lemma_depth_step(b, k - 1);
    }
}

/// A matched pair stays matched when the sequence changes only in counts,
/// in targets, or behind the pair.
pub proof fn lemma_encloses_agrees(a: Seq<Op>, b: Seq<Op>, n: int, i: int, j: int)
    requires
        same_brackets(a, b, n),
        encloses(a, i, j),
        j < n,
    ensures
        encloses(b, i, j),
{
    lemma_depth_agrees(a, b, n, i);
    lemma_depth_agrees(a, b, n, j + 1);
    assert forall|m: int| i < m <= j implies #[trigger] depth_before(b, m) > depth_before(
        b,
        i,
    ) by {
        lemma_depth_agrees(a, b, n, m);
    }
}

/// Within a matched pair the forward search goes on to the pair's `]`,
/// with as many brackets pending as the depth has risen.
proof fn lemma_closing_scan(ops: Seq<Op>, i: int, j: int, at: int)
    requires
        encloses(ops, i, j),
        i < at <= j,
    ensures
        depth_before(ops, at) - depth_before(ops, i) - 1 >= 0,
        closing_from(ops, at, (depth_before(ops, at) - depth_before(ops, i) - 1) as nat) == j,
    decreases j - at,
{
    lemma_depth_step(ops, at);
    if at < j {
        lemma_closing_scan(ops, i, j, at + 1);
    }
}

/// The forward search from a matched `[` stops at its `]`.
pub proof fn lemma_closing_found(ops: Seq<Op>, i: int, j: int)
    requires
        encloses(ops, i, j),
    ensures
        closing_from(ops, i + 1, 0) == j,
{
    lemma_depth_step(ops, i);
    lemma_closing_scan(ops, i, j, i + 1);
}

/// Within a matched pair the backward search goes on to the pair's `[`,
/// with as many brackets pending as the depth has risen.
proof fn lemma_opening_scan(ops: Seq<Op>, i: int, j: int, at: int)
    requires
        encloses(ops, i, j),
        i <= at < j,
    ensures
        depth_before(ops, at + 1) - depth_before(ops, i) - 1 >= 0,
        opening_from(ops, at, (depth_before(ops, at + 1) - depth_before(ops, i) - 1) as nat) == i,
    decreases at - i,
{
    lemma_depth_step(ops, at);
    if at > i {
        lemma_opening_scan(ops, i, j, at - 1);
    }
}

/// The backward search from a matched `]` stops at its `[`.
pub proof fn lemma_opening_found(ops: Seq<Op>, i: int, j: int)
    requires
        encloses(ops, i, j),
    ensures
        opening_from(ops, j - 1, 0) == i,
{
    lemma_depth_step(ops, j);
    lemma_opening_scan(ops, i, j, j - 1);
}

} // verus!
