//! Loops that clear a cell, and loops that add multiples of a cell to
//! other cells.

use vstd::prelude::*;
use crate::bfir::{AstNode, Cell, Instr, clone_node, lemma_view_loop};
use std::collections::HashMap;
use crate::changes::{
    entries, is_entries, lemma_entries_bumped, lemma_entries_len, lemma_entries_lookup,
    lemma_entries_removed, lemma_is_entries,
};

verus! {

/// The instruction that a loop is replaced by if it only counts its cell
/// down: a set to zero; every other instruction stays.
pub open spec fn zeroed(instr: Instr) -> Instr {
    match instr {
        Instr::Loop { body, position } => if body.len() == 1 && body[0] matches Instr::Increment {
            amount: -1,
            offset: 0,
            ..
        } {
            Instr::SetCell { amount: 0, offset: 0, position }
        } else {
            instr
        },
        _ => instr,
    }
}

/// A set to zero for a loop that only counts its cell down; else a copy.
pub fn zero_loop(instr: &AstNode) -> (out: AstNode)
    ensures
        out@ == zeroed(instr@),
{
    match instr {
        AstNode::Loop { body, position } => {
            proof {
                lemma_view_loop(*body, *position);
            }
            if body.len() == 1 {
                assert(body.deep_view()[0] == body[0]@);
                match &body[0] {
                    AstNode::Increment { amount, offset, .. } => {
                        if *amount == -1 && *offset == 0 {
                            return AstNode::SetCell { amount: 0, offset: 0, position: *position };
                        }
                    },
                    _ => {},
                }
            }
        },
        _ => {},
    }
    clone_node(instr)
}

/// A list of changes with `amount` added to the change at `key`; a key
/// not yet in the list is put in before the first greater key.
pub open spec fn bumped(changes: Seq<(isize, Cell)>, key: isize, amount: Cell) -> Seq<
    (isize, Cell),
>
    decreases changes.len(),
{
    if changes.len() == 0 {
        seq![(key, amount)]
    } else if changes[0].0 == key {
        seq![(key, changes[0].1.wrapping_add(amount))] + changes.drop_first()
    } else if changes[0].0 > key {
        seq![(key, amount)] + changes
    } else {
        seq![changes[0]] + bumped(changes.drop_first(), key, amount)
    }
}

/// What a stretch of increments and pointer moves does, seen from the
/// cell it starts on: the sum of the increments to each cell, by offset;
/// where the pointer ends; and whether every offset on the way was a
/// pointer value.
pub ghost struct Tally {
    pub changes: Seq<(isize, Cell)>,
    pub at: int,
    pub in_range: bool,
}

/// The tally of the first `n` instructions; instructions other than
/// increments and pointer moves are passed over.
pub open spec fn tallied(body: Seq<Instr>, n: nat) -> Tally
    decreases n,
{
    if n == 0 || n > body.len() {
        Tally { changes: Seq::empty(), at: 0, in_range: true }
    } else {
        let before = tallied(body, (n - 1) as nat);
        match body[n - 1] {
            Instr::Increment { amount, offset, .. } => {
                let key = before.at + offset;
                if isize::MIN <= key <= isize::MAX {
                    Tally { changes: bumped(before.changes, key as isize, amount), ..before }
                } else {
                    Tally { in_range: false, ..before }
                }
            },
            Instr::PointerIncrement { amount, .. } => {
                let at = before.at + amount;
                Tally {
                    at,
                    in_range: before.in_range && isize::MIN <= at <= isize::MAX,
                    ..before
                }
            },
            _ => before,
        }
    }
}

/// Once an offset has left the range, the tally stays out of range.
pub proof fn lemma_out_of_range_stays(body: Seq<Instr>, n: nat, m: nat)
    requires
        n <= m <= body.len(),
        !tallied(body, n).in_range,
    ensures
        !tallied(body, m).in_range,
    decreases m - n,
{
    if n < m {
        lemma_out_of_range_stays(body, n, (m - 1) as nat);
    }
}

/// The tally of a whole stretch: its changes and where the pointer ends,
/// or nothing if an offset on the way was no pointer value.
pub fn cell_changes(instrs: &Vec<AstNode>) -> (result: Option<(HashMap<isize, Cell>, isize)>)
    ensures
        ({
            let tally = tallied(instrs.deep_view(), instrs.len() as nat);
            match result {
                Some((changes, at)) => tally.in_range && is_entries(tally.changes, changes@)
                    && entries(changes@) == tally.changes && at == tally.at,
                None => !tally.in_range,
            }
        }),
{
    let mut changes: HashMap<isize, Cell> = HashMap::new();
    let mut cell_index: isize = 0;
    let mut i: usize = 0;
    while i < instrs.len()
        invariant
            i <= instrs.len(),
            tallied(instrs.deep_view(), i as nat).in_range,
            tallied(instrs.deep_view(), i as nat).at == cell_index,
            is_entries(tallied(instrs.deep_view(), i as nat).changes, changes@),
        decreases instrs.len() - i,
    {
        assert(instrs.deep_view()[i as int] == instrs[i as int]@);
        let ghost before = tallied(instrs.deep_view(), i as nat);
        match &instrs[i] {
            AstNode::Increment { amount, offset, .. } => {
                match cell_index.checked_add(*offset) {
                    Some(key) => {
                        let current_amount = match changes.get(&key) {
                            Some(current) => *current,
                            None => 0,
                        };
                        proof {
                            lemma_entries_bumped(before.changes, changes@, key, *amount);
                        }
                        changes.insert(key, current_amount.wrapping_add(*amount));
                    },
                    None => {
                        proof {
                            lemma_out_of_range_stays(
                                instrs.deep_view(),
                                (i + 1) as nat,
                                instrs.len() as nat,
                            );
                        }
                        return None;
                    },
                }
            },
            AstNode::PointerIncrement { amount, .. } => {
                match cell_index.checked_add(*amount) {
                    Some(at) => {
                        cell_index = at;
                    },
                    None => {
                        proof {
                            lemma_out_of_range_stays(
                                instrs.deep_view(),
                                (i + 1) as nat,
                                instrs.len() as nat,
                            );
                        }
                        return None;
                    },
                }
            },
            _ => {},
        }
        i += 1;
    }
    proof {
        lemma_is_entries(tallied(instrs.deep_view(), instrs.len() as nat).changes, changes@);
    }
    Some((changes, cell_index))
}

/// The change that a list holds for `key`.
pub open spec fn change_at(changes: Seq<(isize, Cell)>, key: isize) -> Option<Cell>
    decreases changes.len(),
{
    if changes.len() == 0 {
        None
    } else if changes[0].0 == key {
        Some(changes[0].1)
    } else {
        change_at(changes.drop_first(), key)
    }
}

/// A list of changes without those at `key`.
pub open spec fn without_key(changes: Seq<(isize, Cell)>, key: isize) -> Seq<(isize, Cell)>
    decreases changes.len(),
{
    if changes.len() == 0 {
        Seq::empty()
    } else {
        let front = without_key(changes.drop_last(), key);
        if changes.last().0 == key {
            front
        } else {
            front.push(changes.last())
        }
    }
}

/// Whether an instruction is an increment or a pointer move.
pub open spec fn is_step(instr: Instr) -> bool {
    instr is Increment || instr is PointerIncrement
}

/// Whether a loop with this body adds multiples of its cell to other
/// cells: the body holds increments and pointer moves only, every offset
/// it passes is a pointer value, it ends on the cell it started on, it
/// changes that cell by -1 in all, and it has a change for at least two
/// cells.
pub open spec fn is_multiply_body(body: Seq<Instr>) -> bool {
    let tally = tallied(body, body.len());
    &&& forall|i: int| 0 <= i < body.len() ==> is_step(#[trigger] body[i])
    &&& tally.in_range
    &&& tally.at == 0
    &&& change_at(tally.changes, 0) == Some(-1i8)
    &&& tally.changes.len() >= 2
}

/// Whether a loop with this body adds multiples of its cell to other
/// cells.
pub fn is_multiply_loop_body(body: &Vec<AstNode>) -> (is: bool)
    ensures
        is == is_multiply_body(body.deep_view()),
{
    let mut i: usize = 0;
    while i < body.len()
        invariant
            i <= body.len(),
            forall|j: int| 0 <= j < i ==> is_step(#[trigger] body.deep_view()[j]),
        decreases body.len() - i,
    {
        assert(body.deep_view()[i as int] == body[i as int]@);
        match &body[i] {
            AstNode::Increment { .. } => {},
            AstNode::PointerIncrement { .. } => {},
            _ => {
                return false;
            },
        }
        i += 1;
    }
    match cell_changes(body) {
        Some((changes, net_movement)) => {
            proof {
                let tally = tallied(body.deep_view(), body.len() as nat);
                lemma_entries_lookup(tally.changes, changes@, 0);
                lemma_entries_len(tally.changes, changes@);
            }
            if net_movement != 0 {
                return false;
            }
            match changes.get(&0) {
                Some(change) => {
                    if *change != -1 {
                        return false;
                    }
                },
                None => {
                    return false;
                },
            }
            changes.len() >= 2
        },
        None => false,
    }
}

/// The instruction that a loop is replaced by if its body is a multiply
/// body: a multiply-move with the body's changes to the other cells; every
/// other instruction stays.
pub open spec fn multiplied(instr: Instr) -> Instr {
    match instr {
        Instr::Loop { body, position } => if is_multiply_body(body) {
            Instr::MultiplyMove {
                changes: without_key(tallied(body, body.len()).changes, 0),
                position,
            }
        } else {
            instr
        },
        _ => instr,
    }
}

/// A multiply-move for a loop with a multiply body; else a copy.
pub fn multiply_loop(instr: &AstNode) -> (out: AstNode)
    ensures
        out@ == multiplied(instr@),
{
    match instr {
        AstNode::Loop { body, position } => {
            proof {
                lemma_view_loop(*body, *position);
            }
            if is_multiply_loop_body(body) {
                match cell_changes(body) {
                    Some((changes, _)) => {
                        let mut changes = changes;
                        proof {
                            let tally = tallied(body.deep_view(), body.len() as nat);
                            lemma_entries_removed(tally.changes, changes@, 0);
                            lemma_is_entries(without_key(tally.changes, 0), changes@.remove(0));
                        }
                        changes.remove(&0);
                        return AstNode::MultiplyMove { changes, position: *position };
                    },
                    None => {},
                }
            }
        },
        _ => {},
    }
    clone_node(instr)
}

} // verus!
