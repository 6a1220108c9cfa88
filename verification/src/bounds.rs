//! A static upper bound on the highest tape cell that a program can touch.

use vstd::prelude::*;
use crate::bfir::{AstNode, Cell, Instr, lemma_view_loop};
use crate::changes::entries_of;

verus! {

/// No tape has a cell beyond this index.
pub const MAX_CELL_INDEX: usize = 99999;

/// A 64-bit number, or a value above every number.
#[derive(PartialEq, Eq, Clone, Copy, Debug, Structural)]
pub enum SaturatingInt {
    Number(i64),
    Max,
}

/// The sum of two saturating integers: above every number if either is, or
/// if the sum of the two numbers is above the 64-bit range; the least
/// 64-bit number if the sum is below the range; else the sum.
pub open spec fn sat_sum(a: SaturatingInt, b: SaturatingInt) -> SaturatingInt {
    match (a, b) {
        (SaturatingInt::Number(x), SaturatingInt::Number(y)) => if x + y > i64::MAX {
            SaturatingInt::Max
        } else if x + y < i64::MIN {
            SaturatingInt::Number(i64::MIN)
        } else {
            SaturatingInt::Number((x + y) as i64)
        },
        _ => SaturatingInt::Max,
    }
}

/// Whether `a` is at most `b`.
pub open spec fn sat_le(a: SaturatingInt, b: SaturatingInt) -> bool {
    match (a, b) {
        (_, SaturatingInt::Max) => true,
        (SaturatingInt::Max, SaturatingInt::Number(_)) => false,
        (SaturatingInt::Number(x), SaturatingInt::Number(y)) => x <= y,
    }
}

/// The larger of two saturating integers.
pub open spec fn sat_max(a: SaturatingInt, b: SaturatingInt) -> SaturatingInt {
    if sat_le(a, b) {
        b
    } else {
        a
    }
}

impl SaturatingInt {
    /// The saturating sum.
    pub fn add(self, rhs: SaturatingInt) -> (sum: SaturatingInt)
        ensures
            sum == sat_sum(self, rhs),
    {
        match (self, rhs) {
            (SaturatingInt::Number(x), SaturatingInt::Number(y)) => match x.checked_add(y) {
                Some(sum) => SaturatingInt::Number(sum),
                None => if x > 0 {
                    SaturatingInt::Max
                } else {
                    SaturatingInt::Number(i64::MIN)
                },
            },
            _ => SaturatingInt::Max,
        }
    }

    /// Whether this is at most `other`.
    pub fn at_most(self, other: SaturatingInt) -> (le: bool)
        ensures
            le == sat_le(self, other),
    {
        match (self, other) {
            (_, SaturatingInt::Max) => true,
            (SaturatingInt::Max, SaturatingInt::Number(_)) => false,
            (SaturatingInt::Number(x), SaturatingInt::Number(y)) => x <= y,
        }
    }

    /// The larger of this and `other`.
    pub fn larger(self, other: SaturatingInt) -> (max: SaturatingInt)
        ensures
            max == sat_max(self, other),
    {
        if self.at_most(other) {
            other
        } else {
            self
        }
    }
}

/// The highest offset that a multiply-move writes to, or 0 if all are below.
pub open spec fn highest_key(changes: Seq<(isize, Cell)>) -> int
    decreases changes.len(),
{
    if changes.len() == 0 {
        0
    } else {
        let rest = highest_key(changes.drop_last());
        if changes.last().0 > rest {
            changes.last().0 as int
        } else {
            rest
        }
    }
}

/// For one instruction: the highest offset from the pointer that it can
/// reach, and by how much it moves the pointer. A loop that moves the
/// pointer up on each turn reaches above every number; one that does not
/// is counted as not moving it.
pub open spec fn movement_of(instr: Instr) -> (SaturatingInt, SaturatingInt)
    decreases instr,
{
    match instr {
        Instr::PointerIncrement { amount, .. } => if amount < 0 {
            (SaturatingInt::Number(0), SaturatingInt::Number(amount as i64))
        } else {
            (SaturatingInt::Number(amount as i64), SaturatingInt::Number(amount as i64))
        },
        Instr::Increment { offset, .. } => (
            SaturatingInt::Number(offset as i64),
            SaturatingInt::Number(0),
        ),
        Instr::SetCell { offset, .. } => (SaturatingInt::Number(offset as i64), SaturatingInt::Number(0)),
        Instr::MultiplyMove { changes, .. } => (
            SaturatingInt::Number(highest_key(changes) as i64),
            SaturatingInt::Number(0),
        ),
        Instr::Loop { body, .. } => {
            let (max_in_body, net_in_body) = overall_movement_of(body);
            match net_in_body {
                SaturatingInt::Number(net) => if net <= 0 {
                    (max_in_body, SaturatingInt::Number(0))
                } else {
                    (SaturatingInt::Max, SaturatingInt::Number(0))
                },
                SaturatingInt::Max => (SaturatingInt::Max, SaturatingInt::Max),
            }
        },
        Instr::Read { .. } | Instr::Write { .. } => (
            SaturatingInt::Number(0),
            SaturatingInt::Number(0),
        ),
    }
}

/// For a sequence run from its start: the highest offset from the starting
/// pointer that it can reach, and by how much it moves the pointer.
pub open spec fn overall_movement_of(instrs: Seq<Instr>) -> (SaturatingInt, SaturatingInt)
    decreases instrs,
{
    if instrs.len() == 0 {
        (SaturatingInt::Number(0), SaturatingInt::Number(0))
    } else {
        let (max_index, net) = overall_movement_of(instrs.drop_last());
        let (highest, moved) = movement_of(instrs.last());
        (sat_max(net, sat_max(sat_sum(net, highest), max_index)), sat_sum(net, moved))
    }
}

/// The highest cell index that a program run from cell 0 can touch, capped
/// at `MAX_CELL_INDEX`.
pub open spec fn highest_index(instrs: Seq<Instr>) -> int {
    match overall_movement_of(instrs).0 {
        SaturatingInt::Number(x) => if x > MAX_CELL_INDEX {
            MAX_CELL_INDEX as int
        } else {
            x as int
        },
        SaturatingInt::Max => MAX_CELL_INDEX as int,
    }
}

/// The highest offset reached is never below the start.
pub proof fn lemma_overall_max_nonnegative(instrs: Seq<Instr>)
    ensures
        sat_le(SaturatingInt::Number(0), overall_movement_of(instrs).0),
    decreases instrs.len(),
{
    if instrs.len() > 0 {
        lemma_overall_max_nonnegative(instrs.drop_last());
    }
}

/// The highest cell index that the program, run from cell 0, can touch,
/// capped at `MAX_CELL_INDEX`.
pub fn highest_cell_index(instrs: &Vec<AstNode>) -> (highest: usize)
    ensures
        highest == highest_index(instrs.deep_view()),
        highest <= MAX_CELL_INDEX,
{
    let (highest_index, _) = overall_movement(instrs);
    proof {
        lemma_overall_max_nonnegative(instrs.deep_view());
    }
    match highest_index {
        SaturatingInt::Number(x) => {
            if x > 99999 {
                MAX_CELL_INDEX
            } else {
                to_index(x)
            }
        },
        SaturatingInt::Max => MAX_CELL_INDEX,
    }
}

fn to_index(x: i64) -> (index: usize)
    requires
        0 <= x <= MAX_CELL_INDEX,
    ensures
        index == x,
{
    x as usize
}

fn widen(x: isize) -> (wide: i64)
    ensures
        wide == x,
{
    x as i64
}

/// The highest offset a sequence can reach and how far it moves the
/// pointer.
pub fn overall_movement(instrs: &Vec<AstNode>) -> (result: (SaturatingInt, SaturatingInt))
    ensures
        result == overall_movement_of(instrs.deep_view()),
    decreases instrs,
{
    let mut net_movement = SaturatingInt::Number(0);
    let mut max_index = SaturatingInt::Number(0);
    let mut i: usize = 0;
    assert(instrs.deep_view().take(0) =~= Seq::empty());
    while i < instrs.len()
        invariant
            i <= instrs.len(),
            (max_index, net_movement) == overall_movement_of(instrs.deep_view().take(i as int)),
        decreases instrs.len() - i,
    {
        let (instr_highest_offset, instr_net_movement) = movement(&instrs[i]);
        proof {
            let next = instrs.deep_view().take(i + 1);
            assert(next.drop_last() =~= instrs.deep_view().take(i as int));
            assert(next.last() == instrs[i as int]@);
        }
        max_index = net_movement.larger(net_movement.add(instr_highest_offset).larger(max_index));
        net_movement = net_movement.add(instr_net_movement);
        i += 1;
    }
    assert(instrs.deep_view().take(i as int) =~= instrs.deep_view());
    (max_index, net_movement)
}

/// The highest offset an instruction can reach and how far it moves the
/// pointer.
pub fn movement(instr: &AstNode) -> (result: (SaturatingInt, SaturatingInt))
    ensures
        result == movement_of(instr@),
    decreases instr,
{
    match instr {
        AstNode::PointerIncrement { amount, .. } => {
            if *amount < 0 {
                (SaturatingInt::Number(0), SaturatingInt::Number(widen(*amount)))
            } else {
                (SaturatingInt::Number(widen(*amount)), SaturatingInt::Number(widen(*amount)))
            }
        },
        AstNode::Increment { offset, .. } => (
            SaturatingInt::Number(widen(*offset)),
            SaturatingInt::Number(0),
        ),
        AstNode::SetCell { offset, .. } => (
            SaturatingInt::Number(widen(*offset)),
            SaturatingInt::Number(0),
        ),
        AstNode::MultiplyMove { changes, .. } => {
            let highest_affected = highest_offset(&entries_of(changes));
            (SaturatingInt::Number(widen(highest_affected)), SaturatingInt::Number(0))
        },
        AstNode::Loop { body, position } => {
            proof {
                lemma_view_loop(*body, *position);
            }
            let (max_in_body, net_in_body) = overall_movement(body);
            match net_in_body {
                SaturatingInt::Number(net_loop_movement) => {
                    if net_loop_movement <= 0 {
                        (max_in_body, SaturatingInt::Number(0))
                    } else {
                        (SaturatingInt::Max, SaturatingInt::Number(0))
                    }
                },
                SaturatingInt::Max => (SaturatingInt::Max, SaturatingInt::Max),
            }
        },
        AstNode::Read { .. } | AstNode::Write { .. } => (
            SaturatingInt::Number(0),
            SaturatingInt::Number(0),
        ),
    }
}

/// The highest offset among the changes of a multiply-move, or 0.
pub fn highest_offset(changes: &Vec<(isize, Cell)>) -> (highest: isize)
    ensures
        highest == highest_key(changes@),
{
    let mut highest_affected: isize = 0;
    let mut i: usize = 0;
    assert(changes@.take(0) =~= Seq::empty());
    while i < changes.len()
        invariant
            i <= changes.len(),
            highest_affected == highest_key(changes@.take(i as int)),
        decreases changes.len() - i,
    {
        assert(changes@.take(i + 1).drop_last() =~= changes@.take(i as int));
        if changes[i].0 > highest_affected {
            highest_affected = changes[i].0;
        }
        i += 1;
    }
    assert(changes@.take(i as int) =~= changes@);
    highest_affected
}

} // verus!
