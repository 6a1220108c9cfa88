//! Merging neighbouring instructions that act on the same cell.

use vstd::prelude::*;
use itertools::Itertools;
use crate::bfir::{AstNode, Combine, Instr, combined_position};

verus! {

/// Which pairs of neighbours merge.
#[derive(Debug, Clone, Copy, PartialEq, Eq, Structural)]
pub enum MergeRule {
    /// Two increments at one offset.
    Increments,
    /// Two pointer moves whose sum is a pointer move.
    PointerIncrements,
    /// An increment, then a set at the same offset.
    IncrementThenSet,
    /// A set, then an increment at the same offset.
    SetThenIncrement,
    /// Two sets at one offset.
    SetThenSet,
}

/// What `previous` and `current` merge into under a rule, if they do.
pub open spec fn merged(rule: MergeRule, previous: Instr, current: Instr) -> Option<Instr> {
    match (rule, previous, current) {
        (
            MergeRule::Increments,
            Instr::Increment { amount: a1, offset: o1, position: pos1 },
            Instr::Increment { amount: a2, offset: o2, position: pos2 },
        ) => if o1 == o2 {
            Some(
                Instr::Increment {
                    amount: a2.wrapping_add(a1),
                    offset: o2,
                    position: combined_position(pos1, pos2),
                },
            )
        } else {
            None
        },
        (
            MergeRule::PointerIncrements,
            Instr::PointerIncrement { amount: a1, position: pos1 },
            Instr::PointerIncrement { amount: a2, position: pos2 },
        ) => if isize::MIN <= a2 + a1 <= isize::MAX {
            Some(
                Instr::PointerIncrement {
                    amount: (a2 + a1) as isize,
                    position: combined_position(pos1, pos2),
                },
            )
        } else {
            None
        },
        (
            MergeRule::IncrementThenSet,
            Instr::Increment { offset: o1, position: pos1, .. },
            Instr::SetCell { amount: a2, offset: o2, position: pos2 },
        ) => if o1 == o2 {
            Some(Instr::SetCell { amount: a2, offset: o2, position: combined_position(pos2, pos1) })
        } else {
            None
        },
        (
            MergeRule::SetThenIncrement,
            Instr::SetCell { amount: a1, offset: o1, position: pos1 },
            Instr::Increment { amount: a2, offset: o2, position: pos2 },
        ) => if o1 == o2 {
            Some(
                Instr::SetCell {
                    amount: a1.wrapping_add(a2),
                    offset: o1,
                    position: combined_position(pos1, pos2),
                },
            )
        } else {
            None
        },
        (
            MergeRule::SetThenSet,
            Instr::SetCell { offset: o1, position: pos1, .. },
            Instr::SetCell { amount: a2, offset: o2, position: pos2 },
        ) => if o1 == o2 {
            Some(Instr::SetCell { amount: a2, offset: o1, position: combined_position(pos1, pos2) })
        } else {
            None
        },
        _ => None,
    }
}

/// Merges two neighbours, or hands both back.
pub fn merge_pair(rule: MergeRule, previous: AstNode, current: AstNode) -> (result: Result<
    AstNode,
    (AstNode, AstNode),
>)
    ensures
        match merged(rule, previous@, current@) {
            Some(joined) => result is Ok && result->Ok_0@ == joined,
            None => result is Err && result->Err_0.0@ == previous@ && result->Err_0.1@
                == current@,
        },
{
    match (rule, &previous, &current) {
        (
            MergeRule::Increments,
            AstNode::Increment { amount: a1, offset: o1, position: pos1 },
            AstNode::Increment { amount: a2, offset: o2, position: pos2 },
        ) => {
            if *o1 == *o2 {
                return Ok(
                    AstNode::Increment {
                        amount: a2.wrapping_add(*a1),
                        offset: *o2,
                        position: pos1.combine(*pos2),
                    },
                );
            }
        },
        (
            MergeRule::PointerIncrements,
            AstNode::PointerIncrement { amount: a1, position: pos1 },
            AstNode::PointerIncrement { amount: a2, position: pos2 },
        ) => {
            match a2.checked_add(*a1) {
                Some(sum) => {
                    return Ok(AstNode::PointerIncrement { amount: sum, position: pos1.combine(*pos2) });
                },
                None => {},
            }
        },
        (
            MergeRule::IncrementThenSet,
            AstNode::Increment { offset: o1, position: pos1, .. },
            AstNode::SetCell { amount: a2, offset: o2, position: pos2 },
        ) => {
            if *o1 == *o2 {
                return Ok(
                    AstNode::SetCell { amount: *a2, offset: *o2, position: pos2.combine(*pos1) },
                );
            }
        },
        (
            MergeRule::SetThenIncrement,
            AstNode::SetCell { amount: a1, offset: o1, position: pos1 },
            AstNode::Increment { amount: a2, offset: o2, position: pos2 },
        ) => {
            if *o1 == *o2 {
                return Ok(
                    AstNode::SetCell {
                        amount: a1.wrapping_add(*a2),
                        offset: *o1,
                        position: pos1.combine(*pos2),
                    },
                );
            }
        },
        (
            MergeRule::SetThenSet,
            AstNode::SetCell { offset: o1, position: pos1, .. },
            AstNode::SetCell { amount: a2, offset: o2, position: pos2 },
        ) => {
            if *o1 == *o2 {
                return Ok(
                    AstNode::SetCell { amount: *a2, offset: *o1, position: pos1.combine(*pos2) },
                );
            }
        },
        _ => {},
    }
    Err((previous, current))
}

/// Coalescing with `held` in hand and `rest` still to come: each next
/// instruction either merges into the one held, or the one held is put
/// out and the next is held in its place; the last one held is put out.
pub open spec fn coalesced_from(held: Instr, rest: Seq<Instr>, rule: MergeRule) -> Seq<Instr>
    decreases rest.len(),
{
    if rest.len() == 0 {
        seq![held]
    } else {
        match merged(rule, held, rest[0]) {
            Some(joined) => coalesced_from(joined, rest.drop_first(), rule),
            None => seq![held] + coalesced_from(rest[0], rest.drop_first(), rule),
        }
    }
}

/// A sequence with its neighbours merged from left to right under a rule.
pub open spec fn coalesced(instrs: Seq<Instr>, rule: MergeRule) -> Seq<Instr> {
    if instrs.len() == 0 {
        Seq::empty()
    } else {
        coalesced_from(instrs[0], instrs.drop_first(), rule)
    }
}

/// `Itertools::coalesce` over the instructions, with `merge_pair` under the
/// given rule as its closure, collected into a vector: the closure gets the
/// instruction held and the next one; on `Ok` the merged one is held, on
/// `Err` the first of the pair is put out and the second is held; what is
/// held at the end is put out.
#[verifier::external_body]
pub(crate) fn coalesce(instrs: Vec<AstNode>, rule: MergeRule) -> (out: Vec<AstNode>)
    ensures
        out.deep_view() == coalesced(instrs.deep_view(), rule),
{
    instrs.into_iter().coalesce(|previous, current| merge_pair(rule, previous, current)).collect()
}

} // verus!
