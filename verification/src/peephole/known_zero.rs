//! Writing down where the current cell is known to be zero.

use vstd::prelude::*;
use crate::bfir::{
    AstNode, Instr, Position, clone_node, lemma_deep_view_push, lemma_view_loop, same_node,
};

verus! {

/// A set of the current cell to zero.
pub open spec fn zero_set_at(position: Option<Position>) -> Instr {
    Instr::SetCell { amount: 0, offset: 0, position }
}

/// The empty range at the end of a position.
pub open spec fn end_of(position: Option<Position>) -> Option<Position> {
    match position {
        Some(range) => Some(Position { start: range.end, end: range.end }),
        None => None,
    }
}

/// The empty range at the start of a position.
pub open spec fn start_of(position: Option<Position>) -> Option<Position> {
    match position {
        Some(range) => Some(Position { start: range.start, end: range.start }),
        None => None,
    }
}

/// The empty range at the end of a position.
pub fn end_position(position: Option<Position>) -> (end: Option<Position>)
    ensures
        end == end_of(position),
{
    match position {
        Some(range) => Some(Position { start: range.end, end: range.end }),
        None => None,
    }
}

/// The empty range at the start of a position.
pub fn start_position(position: Option<Position>) -> (start: Option<Position>)
    ensures
        start == start_of(position),
{
    match position {
        Some(range) => Some(Position { start: range.start, end: range.start }),
        None => None,
    }
}

/// The first `n` instructions, with a set to zero after each loop that is
/// not already followed by that very set. The set stands at the loop's end.
pub open spec fn annotated(instrs: Seq<Instr>, n: nat) -> Seq<Instr>
    decreases n,
{
    if n == 0 || n > instrs.len() {
        Seq::empty()
    } else {
        let front = annotated(instrs, (n - 1) as nat).push(instrs[n - 1]);
        match instrs[n - 1] {
            Instr::Loop { position, .. } => {
                let set = zero_set_at(end_of(position));
                if n < instrs.len() && instrs[n as int] == set {
                    front
                } else {
                    front.push(set)
                }
            },
            _ => front,
        }
    }
}

/// The instructions with a set to zero after each loop.
pub open spec fn zeros_noted(instrs: Seq<Instr>) -> Seq<Instr> {
    annotated(instrs, instrs.len())
}

/// The instructions with a set to zero behind each loop.
pub fn note_zeros(instrs: &Vec<AstNode>) -> (out: Vec<AstNode>)
    ensures
        out.deep_view() == zeros_noted(instrs.deep_view()),
{
    let mut result: Vec<AstNode> = Vec::new();
    let mut i: usize = 0;
    assert(result.deep_view() =~= Seq::empty());
    while i < instrs.len()
        invariant
            i <= instrs.len(),
            result.deep_view() == annotated(instrs.deep_view(), i as nat),
        decreases instrs.len() - i,
    {
        assert(instrs.deep_view()[i as int] == instrs[i as int]@);
        let ghost before = result;
        let node = clone_node(&instrs[i]);
        result.push(node);
        proof {
            lemma_deep_view_push(before, result, node);
        }
        match &instrs[i] {
            AstNode::Loop { body, position } => {
                proof {
                    lemma_view_loop(*body, *position);
                }
                let set_instr = AstNode::SetCell {
                    amount: 0,
                    offset: 0,
                    position: end_position(*position),
                };
                let mut follows = false;
                if i + 1 < instrs.len() {
                    assert(instrs.deep_view()[i + 1] == instrs[i + 1]@);
                    follows = same_node(&instrs[i + 1], &set_instr);
                }
                if !follows {
                    let ghost pushed = result;
                    result.push(set_instr);
                    proof {
                        lemma_deep_view_push(pushed, result, set_instr);
                    }
                }
            },
            _ => {},
        }
        i += 1;
    }
    result
}

} // verus!
