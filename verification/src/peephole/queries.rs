//! Which instruction last changed, or will next change, the current cell.

use vstd::prelude::*;
use crate::bfir::{AstNode, Cell, Instr};
use crate::changes::entries_of;

verus! {

/// Whether an instruction sets the current cell to zero.
pub open spec fn is_zero_set(instr: Instr) -> bool {
    instr matches Instr::SetCell { amount: 0, offset: 0, .. }
}

/// Whether an instruction sets the current cell to zero.
pub fn sets_zero(instr: &AstNode) -> (is: bool)
    ensures
        is == is_zero_set(instr@),
{
    match instr {
        AstNode::SetCell { amount, offset, .. } => *amount == 0 && *offset == 0,
        _ => false,
    }
}

/// Whether a multiply-move has a change at `offset`.
pub open spec fn has_key(changes: Seq<(isize, Cell)>, offset: int) -> bool {
    exists|j: int| 0 <= j < changes.len() && (#[trigger] changes[j]).0 == offset
}

/// Whether an instruction changes the cell at `needed` from the pointer:
/// an increment or a set at that offset, or a multiply-move that is run on
/// that cell or has a change for it.
pub open spec fn changes_cell(instr: Instr, needed: int) -> bool {
    match instr {
        Instr::Increment { offset, .. } => offset == needed,
        Instr::SetCell { offset, .. } => offset == needed,
        Instr::MultiplyMove { changes, .. } => needed == 0 || has_key(changes, needed),
        _ => false,
    }
}

/// Whether the search for a change of a cell cannot go past an instruction.
pub open spec fn blocks_search(instr: Instr) -> bool {
    instr is Read || instr is Loop
}

/// By how much an instruction moves the pointer, if it is a pointer move.
pub open spec fn pointer_shift(instr: Instr) -> int {
    match instr {
        Instr::PointerIncrement { amount, .. } => amount as int,
        _ => 0,
    }
}

/// Walking back from `at`: the index of the nearest instruction that
/// changes the cell which lies at `needed` from the pointer after the
/// instruction at `at`; none once a read or a loop is met.
pub open spec fn change_before(instrs: Seq<Instr>, at: int, needed: int) -> Option<int>
    decreases at + 1,
{
    if at < 0 || at >= instrs.len() {
        None
    } else if changes_cell(instrs[at], needed) {
        Some(at)
    } else if blocks_search(instrs[at]) {
        None
    } else {
        change_before(instrs, at - 1, needed + pointer_shift(instrs[at]))
    }
}

/// Walking forward from `at`: the index of the nearest instruction that
/// changes the cell which lies at `needed` from the pointer before the
/// instruction at `at`; none once a read or a loop is met.
pub open spec fn change_after(instrs: Seq<Instr>, at: int, needed: int) -> Option<int>
    decreases instrs.len() - at,
{
    if at < 0 || at >= instrs.len() {
        None
    } else if changes_cell(instrs[at], needed) {
        Some(at)
    } else if blocks_search(instrs[at]) {
        None
    } else {
        change_after(instrs, at + 1, needed - pointer_shift(instrs[at]))
    }
}

/// The instruction before `index` that last changed the cell on which the
/// instruction at `index` starts.
pub open spec fn previous_change(instrs: Seq<Instr>, index: int) -> Option<int> {
    change_before(instrs, index - 1, 0)
}

/// The instruction after `index` that next changes the cell on which the
/// instruction at `index` ends.
pub open spec fn next_change(instrs: Seq<Instr>, index: int) -> Option<int> {
    change_after(instrs, index + 1, 0)
}

/// Whether a multiply-move has a change at `offset`.
pub fn contains_offset(changes: &Vec<(isize, Cell)>, offset: i128) -> (found: bool)
    ensures
        found == has_key(changes@, offset as int),
{
    let mut j: usize = 0;
    while j < changes.len()
        invariant
            j <= changes.len(),
            forall|k: int| 0 <= k < j ==> (#[trigger] changes@[k]).0 != offset,
        decreases changes.len() - j,
    {
        if changes[j].0 as i128 == offset {
            return true;
        }
        j += 1;
    }
    false
}

/// Whether the instruction changes the cell at `needed` from the pointer.
fn touches(instr: &AstNode, needed: i128) -> (found: bool)
    ensures
        found == changes_cell(instr@, needed as int),
{
    match instr {
        AstNode::Increment { offset, .. } => *offset as i128 == needed,
        AstNode::SetCell { offset, .. } => *offset as i128 == needed,
        AstNode::MultiplyMove { changes, .. } => needed == 0 || contains_offset(
            &entries_of(changes),
            needed,
        ),
        _ => false,
    }
}

/// A bound on how far `steps` pointer moves can take an offset.
pub open spec fn reach(steps: int) -> int {
    steps * 0x8000_0000_0000_0000
}

/// The index of the instruction that last changed the cell on which
/// the instruction at `index` starts; none if a read or a loop stands
/// between, or nothing changed the cell.
pub fn previous_cell_change(instrs: &Vec<AstNode>, index: usize) -> (found: Option<usize>)
    requires
        index < instrs.len(),
    ensures
        match found {
            Some(at) => at < index && previous_change(instrs.deep_view(), index as int) == Some(
                at as int,
            ),
            None => previous_change(instrs.deep_view(), index as int) is None,
        },
{
    let mut needed_offset: i128 = 0;
    let mut i: usize = index;
    while i > 0
        invariant
            i <= index < instrs.len(),
            -reach(index - i) <= needed_offset <= reach(index - i),
            change_before(instrs.deep_view(), i - 1, needed_offset as int) == previous_change(
                instrs.deep_view(),
                index as int,
            ),
        decreases i,
    {
        i -= 1;
        assert(instrs.deep_view()[i as int] == instrs[i as int]@);
        if touches(&instrs[i], needed_offset) {
            return Some(i);
        }
        match &instrs[i] {
            AstNode::PointerIncrement { amount, .. } => {
                needed_offset += *amount as i128;
            },
            AstNode::Read { .. } | AstNode::Loop { .. } => {
                return None;
            },
            _ => {},
        }
    }
    None
}

/// The index of the instruction that next changes the cell on which
/// the instruction at `index` ends; none if a read or a loop stands
/// between, or nothing changes the cell.
pub fn next_cell_change(instrs: &Vec<AstNode>, index: usize) -> (found: Option<usize>)
    requires
        index < instrs.len(),
    ensures
        match found {
            Some(at) => index < at < instrs.len() && next_change(instrs.deep_view(), index as int)
                == Some(at as int),
            None => next_change(instrs.deep_view(), index as int) is None,
        },
{
    let mut needed_offset: i128 = 0;
    let mut i: usize = index + 1;
    while i < instrs.len()
        invariant
            index < i <= instrs.len(),
            -reach(i - index - 1) <= needed_offset <= reach(i - index - 1),
            change_after(instrs.deep_view(), i as int, needed_offset as int) == next_change(
                instrs.deep_view(),
                index as int,
            ),
        decreases instrs.len() - i,
    {
        assert(instrs.deep_view()[i as int] == instrs[i as int]@);
        if touches(&instrs[i], needed_offset) {
            return Some(i);
        }
        match &instrs[i] {
            AstNode::PointerIncrement { amount, .. } => {
                needed_offset -= *amount as i128;
            },
            AstNode::Read { .. } | AstNode::Loop { .. } => {
                return None;
            },
            _ => {},
        }
        i += 1;
    }
    None
}

} // verus!
