//! Passes that drop an instruction because of what stands around it.

use vstd::prelude::*;
use std::collections::HashSet;
use crate::bfir::{AstNode, Instr, clone_node, lemma_deep_view_push};
use crate::peephole::queries::{
    is_zero_set, next_cell_change, next_change, previous_cell_change, previous_change, sets_zero,
};

verus! {

/// The first `n` instructions without those that are marked.
pub open spec fn kept(instrs: Seq<Instr>, marks: Seq<bool>, n: nat) -> Seq<Instr>
    decreases n,
{
    if n == 0 || n > instrs.len() || n > marks.len() {
        Seq::empty()
    } else {
        let front = kept(instrs, marks, (n - 1) as nat);
        if marks[n - 1] {
            front
        } else {
            front.push(instrs[n - 1])
        }
    }
}

/// The instructions without those that are marked.
pub open spec fn unmarked(instrs: Seq<Instr>, marks: Seq<bool>) -> Seq<Instr> {
    kept(instrs, marks, instrs.len())
}

/// Copies of the instructions that are not marked.
pub fn drop_marked(instrs: &Vec<AstNode>, marks: &Vec<bool>) -> (out: Vec<AstNode>)
    requires
        marks.len() == instrs.len(),
    ensures
        out.deep_view() == unmarked(instrs.deep_view(), marks@),
{
    let mut out: Vec<AstNode> = Vec::new();
    let mut i: usize = 0;
    assert(out.deep_view() =~= Seq::empty());
    while i < instrs.len()
        invariant
            i <= instrs.len(),
            marks.len() == instrs.len(),
            out.deep_view() == kept(instrs.deep_view(), marks@, i as nat),
        decreases instrs.len() - i,
    {
        assert(instrs.deep_view()[i as int] == instrs[i as int]@);
        if !marks[i] {
            let ghost before = out;
            let node = clone_node(&instrs[i]);
            out.push(node);
            proof {
                lemma_deep_view_push(before, out, node);
            }
        }
        i += 1;
    }
    out
}

/// For each index, whether it is among some positions.
pub open spec fn marks_at(positions: Set<usize>, n: nat) -> Seq<bool> {
    Seq::new(n, |i: int| positions.contains(i as usize))
}

/// Copies of the instructions whose indices are not among `positions`.
pub fn drop_at(instrs: &Vec<AstNode>, positions: &HashSet<usize>) -> (out: Vec<AstNode>)
    ensures
        out.deep_view() == unmarked(instrs.deep_view(), marks_at(positions@, instrs.len() as nat)),
{
    let ghost marks = marks_at(positions@, instrs.len() as nat);
    let mut out: Vec<AstNode> = Vec::new();
    let mut i: usize = 0;
    assert(out.deep_view() =~= Seq::empty());
    while i < instrs.len()
        invariant
            i <= instrs.len(),
            marks == marks_at(positions@, instrs.len() as nat),
            out.deep_view() == kept(instrs.deep_view(), marks, i as nat),
        decreases instrs.len() - i,
    {
        assert(instrs.deep_view()[i as int] == instrs[i as int]@);
        if !positions.contains(&i) {
            let ghost before = out;
            let node = clone_node(&instrs[i]);
            out.push(node);
            proof {
                lemma_deep_view_push(before, out, node);
            }
        }
        i += 1;
    }
    out
}

/// Whether the instruction at `i` is a loop that is never entered: the
/// last change to its cell was a set to zero.
pub open spec fn is_dead_loop(instrs: Seq<Instr>, i: int) -> bool {
    &&& 0 <= i < instrs.len()
    &&& instrs[i] is Loop
    &&& match previous_change(instrs, i) {
        Some(j) => is_zero_set(instrs[j]),
        None => false,
    }
}

/// For each instruction, whether it is a loop that is never entered.
pub open spec fn dead_loop_marks(instrs: Seq<Instr>) -> Seq<bool> {
    Seq::new(instrs.len(), |i: int| is_dead_loop(instrs, i))
}

/// The instructions without the loops that are never entered.
pub open spec fn without_dead_loops(instrs: Seq<Instr>) -> Seq<Instr> {
    unmarked(instrs, dead_loop_marks(instrs))
}

/// The instructions without the loops that are never entered.
pub fn drop_dead_loops(instrs: &Vec<AstNode>) -> (out: Vec<AstNode>)
    ensures
        out.deep_view() == without_dead_loops(instrs.deep_view()),
{
    let mut marks: Vec<bool> = Vec::new();
    let mut i: usize = 0;
    while i < instrs.len()
        invariant
            i <= instrs.len(),
            marks@ == Seq::new(i as nat, |k: int| is_dead_loop(instrs.deep_view(), k)),
        decreases instrs.len() - i,
    {
        assert(instrs.deep_view()[i as int] == instrs[i as int]@);
        let mut dead = false;
        match &instrs[i] {
            AstNode::Loop { .. } => {
                match previous_cell_change(instrs, i) {
                    Some(j) => {
                        assert(instrs.deep_view()[j as int] == instrs[j as int]@);
                        dead = sets_zero(&instrs[j]);
                    },
                    None => {},
                }
            },
            _ => {},
        }
        marks.push(dead);
        i += 1;
        assert(marks@ =~= Seq::new(i as nat, |k: int| is_dead_loop(instrs.deep_view(), k)));
    }
    drop_marked(instrs, &marks)
}

/// Whether an instruction leaves its cell at zero: a loop or a
/// multiply-move.
pub open spec fn leaves_zero(instr: Instr) -> bool {
    instr is Loop || instr is MultiplyMove
}

/// Whether the set to zero at `k` comes after the instruction at `i`,
/// which left the same cell at zero, with no change to the cell between.
pub open spec fn zeroed_by(instrs: Seq<Instr>, i: int, k: int) -> bool {
    &&& 0 <= i < instrs.len()
    &&& 0 <= k < instrs.len()
    &&& leaves_zero(instrs[i])
    &&& next_change(instrs, i) == Some(k)
    &&& is_zero_set(instrs[k])
}

/// Whether the instruction at `k` is a set to zero of a cell that is zero.
pub open spec fn is_redundant_set(instrs: Seq<Instr>, k: int) -> bool {
    exists|i: int| zeroed_by(instrs, i, k)
}

/// For each instruction, whether it is a set to zero of a cell that is
/// zero.
pub open spec fn redundant_set_marks(instrs: Seq<Instr>) -> Seq<bool> {
    Seq::new(instrs.len(), |k: int| is_redundant_set(instrs, k))
}

/// The instructions without the sets to zero of cells that are zero.
pub open spec fn without_redundant_sets(instrs: Seq<Instr>) -> Seq<Instr> {
    unmarked(instrs, redundant_set_marks(instrs))
}

/// The instructions without the sets to zero of cells that are zero.
pub fn drop_redundant_sets(instrs: &Vec<AstNode>) -> (out: Vec<AstNode>)
    ensures
        out.deep_view() == without_redundant_sets(instrs.deep_view()),
{
    let mut redundant_instr_positions: HashSet<usize> = HashSet::new();
    let mut i: usize = 0;
    while i < instrs.len()
        invariant
            i <= instrs.len(),
            forall|k: usize|
                #[trigger] redundant_instr_positions@.contains(k) <==> exists|j: int|
                    0 <= j < i && zeroed_by(instrs.deep_view(), j, k as int),
        decreases instrs.len() - i,
    {
        assert(instrs.deep_view()[i as int] == instrs[i as int]@);
        let ghost before = redundant_instr_positions@;
        match &instrs[i] {
            AstNode::Loop { .. } | AstNode::MultiplyMove { .. } => {
                match next_cell_change(instrs, i) {
                    Some(next_index) => {
                        assert(instrs.deep_view()[next_index as int] == instrs[next_index as int]@);
                        if sets_zero(&instrs[next_index]) {
                            redundant_instr_positions.insert(next_index);
                        }
                    },
                    None => {},
                }
            },
            _ => {},
        }
        proof {
            let found = redundant_instr_positions@;
            assert forall|k: usize| #[trigger] found.contains(k) <==> exists|j: int|
                0 <= j < i + 1 && zeroed_by(instrs.deep_view(), j, k as int) by {
                if found.contains(k) {
                    if before.contains(k) {
                        let j = choose|j: int|
                            0 <= j < i && zeroed_by(instrs.deep_view(), j, k as int);
                        assert(0 <= j < i + 1 && zeroed_by(instrs.deep_view(), j, k as int));
                    } else {
                        assert(zeroed_by(instrs.deep_view(), i as int, k as int));
                    }
                } else {
                    assert(!before.contains(k));
                    if exists|j: int| 0 <= j < i + 1 && zeroed_by(instrs.deep_view(), j, k as int) {
                        let j = choose|j: int|
                            0 <= j < i + 1 && zeroed_by(instrs.deep_view(), j, k as int);
                        if j < i {
                            assert(0 <= j < i && zeroed_by(instrs.deep_view(), j, k as int));
                        }
                    }
                }
            }
        }
        i += 1;
    }
    proof {
        let found = redundant_instr_positions@;
        let marks = marks_at(found, instrs.len() as nat);
        assert forall|k: int| 0 <= k < marks.len() implies marks[k] == is_redundant_set(
            instrs.deep_view(),
            k,
        ) by {
            let at = k as usize;
            if found.contains(at) {
                let j = choose|j: int| 0 <= j < i && zeroed_by(instrs.deep_view(), j, at as int);
                assert(zeroed_by(instrs.deep_view(), j, k));
            } else {
                if is_redundant_set(instrs.deep_view(), k) {
                    let j = choose|j: int| zeroed_by(instrs.deep_view(), j, k);
                    assert(0 <= j < i && zeroed_by(instrs.deep_view(), j, at as int));
                }
            }
        }
        assert(marks =~= redundant_set_marks(instrs.deep_view()));
    }
    drop_at(instrs, &redundant_instr_positions)
}

/// Whether some instruction strictly between `j` and `i` writes a cell out.
pub open spec fn write_between(instrs: Seq<Instr>, j: int, i: int) -> bool {
    exists|w: int| j < w < i && 0 <= w < instrs.len() && #[trigger] instrs[w] is Write
}

/// Whether the read at `i` overwrites what the instruction at `j` left in
/// the cell before anything wrote it out: `j` is the last change to the
/// cell before the read, and an increment or a set.
pub open spec fn clobbered_by(instrs: Seq<Instr>, i: int, j: int) -> bool {
    &&& 0 <= i < instrs.len()
    &&& 0 <= j < instrs.len()
    &&& instrs[i] is Read
    &&& previous_change(instrs, i) == Some(j)
    &&& !(instrs[j] is MultiplyMove)
    &&& !write_between(instrs, j, i)
}

/// Whether the instruction at `j` changes a cell that is read over before
/// it is used.
pub open spec fn is_clobbered(instrs: Seq<Instr>, j: int) -> bool {
    exists|i: int| clobbered_by(instrs, i, j)
}

/// For each instruction, whether a read overwrites what it changes.
pub open spec fn clobbered_marks(instrs: Seq<Instr>) -> Seq<bool> {
    Seq::new(instrs.len(), |j: int| is_clobbered(instrs, j))
}

/// The instructions without the changes that a read overwrites.
pub open spec fn without_clobbered(instrs: Seq<Instr>) -> Seq<Instr> {
    unmarked(instrs, clobbered_marks(instrs))
}

/// The instructions without the changes that a read overwrites.
pub fn drop_clobbered(instrs: &Vec<AstNode>) -> (out: Vec<AstNode>)
    ensures
        out.deep_view() == without_clobbered(instrs.deep_view()),
{
    let mut redundant_instr_positions: HashSet<usize> = HashSet::new();
    let mut last_write_index: Option<usize> = None;
    let mut i: usize = 0;
    while i < instrs.len()
        invariant
            i <= instrs.len(),
            match last_write_index {
                Some(w) => w < i && instrs.deep_view()[w as int] is Write && forall|v: int|
                    w < v < i ==> !(#[trigger] instrs.deep_view()[v] is Write),
                None => forall|v: int| 0 <= v < i ==> !(#[trigger] instrs.deep_view()[v] is Write),
            },
            forall|k: usize|
                #[trigger] redundant_instr_positions@.contains(k) <==> exists|j: int|
                    0 <= j < i && clobbered_by(instrs.deep_view(), j, k as int),
        decreases instrs.len() - i,
    {
        assert(instrs.deep_view()[i as int] == instrs[i as int]@);
        let ghost before = redundant_instr_positions@;
        match &instrs[i] {
            AstNode::Read { .. } => {
                match previous_cell_change(instrs, i) {
                    Some(prev_modify_index) => {
                        assert(instrs.deep_view()[prev_modify_index as int]
                            == instrs[prev_modify_index as int]@);
                        let observed = match last_write_index {
                            Some(write_index) => write_index > prev_modify_index,
                            None => false,
                        };
                        let moves = match &instrs[prev_modify_index] {
                            AstNode::MultiplyMove { .. } => true,
                            _ => false,
                        };
                        proof {
                            let s = instrs.deep_view();
                            if observed {
                                assert(s[last_write_index->0 as int] is Write);
                                assert(write_between(s, prev_modify_index as int, i as int));
                            } else {
                                if write_between(s, prev_modify_index as int, i as int) {
                                    let w = choose|w: int|
                                        prev_modify_index < w < i && 0 <= w < s.len()
                                            && #[trigger] s[w] is Write;
                                    assert(s[w] is Write);
                                }
                            }
                        }
                        if !observed && !moves {
                            redundant_instr_positions.insert(prev_modify_index);
                        }
                    },
                    None => {},
                }
            },
            AstNode::Write { .. } => {
                last_write_index = Some(i);
            },
            _ => {},
        }
        proof {
            let found = redundant_instr_positions@;
            assert forall|k: usize| #[trigger] found.contains(k) <==> exists|j: int|
                0 <= j < i + 1 && clobbered_by(instrs.deep_view(), j, k as int) by {
                if found.contains(k) {
                    if before.contains(k) {
                        let j = choose|j: int|
                            0 <= j < i && clobbered_by(instrs.deep_view(), j, k as int);
                        assert(0 <= j < i + 1 && clobbered_by(instrs.deep_view(), j, k as int));
                    } else {
                        assert(clobbered_by(instrs.deep_view(), i as int, k as int));
                    }
                } else {
                    assert(!before.contains(k));
                    if exists|j: int|
                        0 <= j < i + 1 && clobbered_by(instrs.deep_view(), j, k as int) {
                        let j = choose|j: int|
                            0 <= j < i + 1 && clobbered_by(instrs.deep_view(), j, k as int);
                        if j < i {
                            assert(0 <= j < i && clobbered_by(instrs.deep_view(), j, k as int));
                        }
                    }
                }
            }
        }
        i += 1;
    }
    proof {
        let found = redundant_instr_positions@;
        let marks = marks_at(found, instrs.len() as nat);
        assert forall|k: int| 0 <= k < marks.len() implies marks[k] == is_clobbered(
            instrs.deep_view(),
            k,
        ) by {
            let at = k as usize;
            if found.contains(at) {
                let j = choose|j: int| 0 <= j < i && clobbered_by(instrs.deep_view(), j, at as int);
                assert(clobbered_by(instrs.deep_view(), j, k));
            } else {
                if is_clobbered(instrs.deep_view(), k) {
                    let j = choose|j: int| clobbered_by(instrs.deep_view(), j, k);
                    assert(0 <= j < i && clobbered_by(instrs.deep_view(), j, at as int));
                }
            }
        }
        assert(marks =~= clobbered_marks(instrs.deep_view()));
    }
    drop_at(instrs, &redundant_instr_positions)
}

} // verus!
