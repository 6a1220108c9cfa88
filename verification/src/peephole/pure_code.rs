//! Dropping what stands after the last instruction that can be observed.

use vstd::prelude::*;
use itertools::Itertools;
use crate::bfir::{AstNode, Combine, Instr, Position, combined_position, get_position, position_of};
use crate::diagnostics::{Warning, WarningView};

verus! {

/// Whether running an instruction can be observed: it reads, writes or
/// may loop.
pub open spec fn has_effect(instr: Instr) -> bool {
    instr is Read || instr is Write || instr is Loop
}

/// How many instructions there are up to and including the last one with
/// an effect.
pub open spec fn effect_end(instrs: Seq<Instr>) -> nat
    decreases instrs.len(),
{
    if instrs.len() == 0 {
        0
    } else if has_effect(instrs.last()) {
        instrs.len()
    } else {
        effect_end(instrs.drop_last())
    }
}

/// The positions that the instructions have, from the last one back.
pub open spec fn back_positions(instrs: Seq<Instr>) -> Seq<Option<Position>>
    decreases instrs.len(),
{
    if instrs.len() == 0 {
        Seq::empty()
    } else {
        let later = back_positions(instrs.drop_first());
        if position_of(instrs[0]) is Some {
            later.push(position_of(instrs[0]))
        } else {
            later
        }
    }
}

/// All positions merged into one, from the first on; nothing for none.
pub open spec fn spanned(positions: Seq<Option<Position>>) -> Option<Option<Position>>
    decreases positions.len(),
{
    if positions.len() == 0 {
        None
    } else if positions.len() == 1 {
        Some(positions[0])
    } else {
        match spanned(positions.drop_last()) {
            Some(merged) => Some(combined_position(merged, positions.last())),
            None => None,
        }
    }
}

/// `Itertools::fold1` over the positions, with `combine` as its closure:
/// nothing for no position, the one position for one, else the merge of
/// the first two, merged with the third, and so on to the last.
#[allow(deprecated)]
#[verifier::external_body]
pub(crate) fn fold1(positions: Vec<Option<Position>>) -> (merged: Option<Option<Position>>)
    ensures
        merged == spanned(positions@),
{
    positions.into_iter().fold1(|first, second| first.combine(second))
}

/// What is said of instructions that were dropped.
pub open spec fn no_effect_message() -> Seq<char> {
    "These instructions have no effect."@
}

/// The instructions up to the last one with an effect, and a warning if
/// any were dropped after it: its position merges the positions that the
/// dropped instructions have, from the last one back.
pub open spec fn pure_code_removed(instrs: Seq<Instr>) -> (Seq<Instr>, Option<WarningView>) {
    let end = effect_end(instrs);
    (
        instrs.take(end as int),
        if end < instrs.len() {
            Some(
                WarningView {
                    message: no_effect_message(),
                    position: match spanned(back_positions(instrs.skip(end as int))) {
                        Some(position) => position,
                        None => None,
                    },
                },
            )
        } else {
            None
        },
    )
}

/// The last instruction with an effect is within the sequence.
pub proof fn lemma_effect_end_bound(instrs: Seq<Instr>)
    ensures
        effect_end(instrs) <= instrs.len(),
    decreases instrs.len(),
{
    if instrs.len() > 0 && !has_effect(instrs.last()) {
        lemma_effect_end_bound(instrs.drop_last());
    }
}

/// Drops what stands after the last read, write or loop of a program,
/// with a warning if anything was dropped.
pub fn remove_pure_code(instrs: Vec<AstNode>) -> (result: (Vec<AstNode>, Option<Warning>))
    ensures
        result.0.deep_view() == pure_code_removed(instrs.deep_view()).0,
        match pure_code_removed(instrs.deep_view()).1 {
            Some(warning) => result.1 matches Some(w) && w@ == warning,
            None => result.1 is None,
        },
{
    let mut instrs = instrs;
    let ghost all = instrs.deep_view();
    let mut positions: Vec<Option<Position>> = Vec::new();
    let mut removed: bool = false;
    assert(all.take(all.len() as int) =~= all);
    assert(all.skip(all.len() as int) =~= Seq::empty());
    let mut done: bool = false;
    while !done && instrs.len() > 0
        invariant
            done ==> instrs.len() > 0 && has_effect(all[instrs.len() - 1]),
            instrs.len() <= all.len(),
            instrs.deep_view() == all.take(instrs.len() as int),
            effect_end(all) == effect_end(all.take(instrs.len() as int)),
            positions@ == back_positions(all.skip(instrs.len() as int)),
            removed == (instrs.len() < all.len()),
        decreases instrs.len() + if done { 0int } else { 1int },
    {
        let n = instrs.len();
        let last_position = get_position(&instrs[n - 1]);
        assert(instrs.deep_view()[n - 1] == instrs[n - 1]@);
        assert(all.take(n as int).last() == all[n - 1]);
        let observable = match &instrs[n - 1] {
            AstNode::Read { .. } | AstNode::Write { .. } | AstNode::Loop { .. } => true,
            _ => false,
        };
        if observable {
            done = true;
        } else {
            instrs.pop();
            proof {
                assert(instrs.deep_view() =~= all.take(n - 1));
                assert(all.take(n as int).drop_last() =~= all.take(n - 1));
                assert(all.skip(n - 1)[0] == all[n - 1]);
                assert(all.skip(n - 1).drop_first() =~= all.skip(n as int));
            }
            if last_position.is_some() {
                positions.push(last_position);
            }
            removed = true;
        }
    }
    proof {
        lemma_effect_end_bound(all);
        let n = instrs.len();
        if n > 0 {
            assert(all.take(n as int).last() == all[n - 1]);
            assert(has_effect(all[n - 1]));
        }
        assert(effect_end(all) == n);
    }
    let warning = if removed {
        let position = match fold1(positions) {
            Some(merged) => merged,
            None => None,
        };
        Some(Warning { message: "These instructions have no effect.".to_owned(), position })
    } else {
        None
    };
    (instrs, warning)
}

} // verus!
