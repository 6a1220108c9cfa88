//! Ordering a stretch of increments, sets and pointer moves by the cell
//! that each acts on.

use vstd::prelude::*;
use crate::bfir::{AstNode, Instr, Position, clone_node, clone_nodes, lemma_deep_view_push};

verus! {

/// Whether an instruction may be moved within its stretch.
pub open spec fn is_sortable(instr: Instr) -> bool {
    instr is Increment || instr is SetCell || instr is PointerIncrement
}

/// The offset of the cell that an increment or a set acts on.
pub open spec fn offset_of(instr: Instr) -> int {
    match instr {
        Instr::Increment { offset, .. } => offset as int,
        Instr::SetCell { offset, .. } => offset as int,
        _ => 0,
    }
}

/// A stretch seen from the cell it starts on: its increments and sets with
/// their offsets counted from that cell, where the pointer ends, whether
/// all these offsets are pointer values, and the position of the last
/// pointer move.
pub ghost struct Anchored {
    pub retagged: Seq<Instr>,
    pub at: int,
    pub in_range: bool,
    pub last_move: Option<Option<Position>>,
}

/// The first `n` instructions of a stretch, seen from the cell it
/// starts on; instructions other than increments, sets and pointer moves
/// are passed over.
pub open spec fn anchored(run: Seq<Instr>, n: nat) -> Anchored
    decreases n,
{
    if n == 0 || n > run.len() {
        Anchored { retagged: Seq::empty(), at: 0, in_range: true, last_move: None }
    } else {
        let before = anchored(run, (n - 1) as nat);
        match run[n - 1] {
            Instr::Increment { amount, offset, position } => {
                let moved = offset + before.at;
                if isize::MIN <= moved <= isize::MAX {
                    Anchored {
                        retagged: before.retagged.push(
                            Instr::Increment { amount, offset: moved as isize, position },
                        ),
                        ..before
                    }
                } else {
                    Anchored { in_range: false, ..before }
                }
            },
            Instr::SetCell { amount, offset, position } => {
                let moved = offset + before.at;
                if isize::MIN <= moved <= isize::MAX {
                    Anchored {
                        retagged: before.retagged.push(
                            Instr::SetCell { amount, offset: moved as isize, position },
                        ),
                        ..before
                    }
                } else {
                    Anchored { in_range: false, ..before }
                }
            },
            Instr::PointerIncrement { amount, position } => {
                let at = before.at + amount;
                Anchored {
                    at,
                    in_range: before.in_range && isize::MIN <= at <= isize::MAX,
                    last_move: Some(position),
                    ..before
                }
            },
            _ => before,
        }
    }
}

/// Once an offset has left the range, the stretch stays out of range.
pub proof fn lemma_anchor_lost(run: Seq<Instr>, n: nat, m: nat)
    requires
        n <= m <= run.len(),
        !anchored(run, n).in_range,
    ensures
        !anchored(run, m).in_range,
    decreases m - n,
{
    if n < m {
        lemma_anchor_lost(run, n, (m - 1) as nat);
    }
}

/// A sorted sequence with one more instruction put in behind the last one
/// whose offset is not greater.
pub open spec fn inserted(sorted: Seq<Instr>, instr: Instr) -> Seq<Instr>
    decreases sorted.len(),
{
    if sorted.len() == 0 {
        seq![instr]
    } else if offset_of(sorted.last()) <= offset_of(instr) {
        sorted.push(instr)
    } else {
        inserted(sorted.drop_last(), instr).push(sorted.last())
    }
}

/// Increments and sets in ascending order of offset, those at one offset
/// in the order they had.
pub open spec fn by_offset(instrs: Seq<Instr>) -> Seq<Instr>
    decreases instrs.len(),
{
    if instrs.len() == 0 {
        Seq::empty()
    } else {
        inserted(by_offset(instrs.drop_last()), instrs.last())
    }
}

/// A stretch with its increments and sets by ascending cell, each with its
/// offset counted from the cell the stretch starts on, followed by one
/// pointer move for the whole stretch if the pointer moves at all. A
/// stretch on which an offset is no pointer value stays as it is.
pub open spec fn sorted_run(run: Seq<Instr>) -> Seq<Instr> {
    let whole = anchored(run, run.len());
    if !whole.in_range {
        run
    } else if whole.at != 0 {
        by_offset(whole.retagged).push(
            Instr::PointerIncrement {
                amount: whole.at as isize,
                position: match whole.last_move {
                    Some(position) => position,
                    None => None,
                },
            },
        )
    } else {
        by_offset(whole.retagged)
    }
}

fn offset_in(instr: &AstNode) -> (offset: isize)
    ensures
        offset == offset_of(instr@),
{
    match instr {
        AstNode::Increment { offset, .. } => *offset,
        AstNode::SetCell { offset, .. } => *offset,
        _ => 0,
    }
}

fn insert_sorted(sorted: &mut Vec<AstNode>, node: AstNode)
    ensures
        final(sorted).deep_view() == inserted(old(sorted).deep_view(), node@),
{
    let key = offset_in(&node);
    let mut p: usize = sorted.len();
    let ghost start = sorted.deep_view();
    assert(start.take(p as int) =~= start);
    assert(inserted(start, node@) + start.skip(p as int) =~= inserted(start, node@));
    while p > 0 && offset_in(&sorted[p - 1]) > key
        invariant
            p <= sorted.len(),
            sorted.deep_view() == start,
            key == offset_of(node@),
            inserted(start, node@) == inserted(start.take(p as int), node@) + start.skip(p as int),
        decreases p,
    {
        proof {
            let front = start.take(p as int);
            assert(front.last() == start[p - 1]);
            assert(start[p - 1] == sorted[p - 1]@);
            assert(front.drop_last() =~= start.take(p - 1));
            assert(inserted(start.take(p - 1), node@).push(front.last()) + start.skip(p as int)
                =~= inserted(start.take(p - 1), node@) + start.skip(p - 1));
        }
        p -= 1;
    }
    proof {
        let front = start.take(p as int);
        if p > 0 {
            assert(front.last() == start[p - 1]);
            assert(start[p - 1] == sorted[p - 1]@);
        }
        assert(inserted(front, node@) == front.push(node@));
    }
    let ghost before = *sorted;
    sorted.insert(p, node);
    assert(sorted.deep_view() =~= start.take(p as int).push(node@) + start.skip(p as int)) by {
        assert(sorted@ == before@.insert(p as int, node));
    }
}

/// Sorts one stretch of increments, sets and pointer moves.
pub fn sort_sequence_by_offset(instrs: &Vec<AstNode>) -> (out: Vec<AstNode>)
    ensures
        out.deep_view() == sorted_run(instrs.deep_view()),
{
    let mut results: Vec<AstNode> = Vec::new();
    let mut current_offset: isize = 0;
    let mut last_ptr_inc_pos: Option<Option<Position>> = None;
    let mut i: usize = 0;
    assert(results.deep_view() =~= Seq::empty());
    while i < instrs.len()
        invariant
            i <= instrs.len(),
            anchored(instrs.deep_view(), i as nat).in_range,
            anchored(instrs.deep_view(), i as nat).at == current_offset,
            anchored(instrs.deep_view(), i as nat).last_move == last_ptr_inc_pos,
            results.deep_view() == by_offset(anchored(instrs.deep_view(), i as nat).retagged),
        decreases instrs.len() - i,
    {
        assert(instrs.deep_view()[i as int] == instrs[i as int]@);
        let ghost before = anchored(instrs.deep_view(), i as nat);
        match &instrs[i] {
            AstNode::Increment { amount, offset, position } => {
                match offset.checked_add(current_offset) {
                    Some(new_offset) => {
                        let node = AstNode::Increment {
                            amount: *amount,
                            offset: new_offset,
                            position: *position,
                        };
                        assert(before.retagged.push(node@).drop_last() =~= before.retagged);
                        insert_sorted(&mut results, node);
                    },
                    None => {
                        proof {
                            lemma_anchor_lost(
                                instrs.deep_view(),
                                (i + 1) as nat,
                                instrs.len() as nat,
                            );
                        }
                        return clone_nodes(instrs);
                    },
                }
            },
            AstNode::SetCell { amount, offset, position } => {
                match offset.checked_add(current_offset) {
                    Some(new_offset) => {
                        let node = AstNode::SetCell {
                            amount: *amount,
                            offset: new_offset,
                            position: *position,
                        };
                        assert(before.retagged.push(node@).drop_last() =~= before.retagged);
                        insert_sorted(&mut results, node);
                    },
                    None => {
                        proof {
                            lemma_anchor_lost(
                                instrs.deep_view(),
                                (i + 1) as nat,
                                instrs.len() as nat,
                            );
                        }
                        return clone_nodes(instrs);
                    },
                }
            },
            AstNode::PointerIncrement { amount, position } => {
                match current_offset.checked_add(*amount) {
                    Some(moved) => {
                        current_offset = moved;
                        last_ptr_inc_pos = Some(*position);
                    },
                    None => {
                        proof {
                            lemma_anchor_lost(
                                instrs.deep_view(),
                                (i + 1) as nat,
                                instrs.len() as nat,
                            );
                        }
                        return clone_nodes(instrs);
                    },
                }
            },
            _ => {},
        }
        i += 1;
    }
    if current_offset != 0 {
        let node = AstNode::PointerIncrement {
            amount: current_offset,
            position: match last_ptr_inc_pos {
                Some(position) => position,
                None => None,
            },
        };
        let ghost before = results;
        results.push(node);
        proof {
            lemma_deep_view_push(before, results, node);
        }
    }
    results
}

/// After `n` instructions: what is settled, and the stretch that is still
/// being gathered.
pub open spec fn sorted_runs(instrs: Seq<Instr>, n: nat) -> (Seq<Instr>, Seq<Instr>)
    decreases n,
{
    if n == 0 || n > instrs.len() {
        (Seq::empty(), Seq::empty())
    } else {
        let (done, run) = sorted_runs(instrs, (n - 1) as nat);
        let instr = instrs[n - 1];
        if is_sortable(instr) {
            (done, run.push(instr))
        } else {
            (done + sorted_run(run) + seq![instr], Seq::empty())
        }
    }
}

/// The instructions with every longest stretch of increments, sets and
/// pointer moves sorted; what stands between the stretches stays.
pub open spec fn offsets_sorted(instrs: Seq<Instr>) -> Seq<Instr> {
    let (done, run) = sorted_runs(instrs, instrs.len());
    done + sorted_run(run)
}

/// Appends copies of `more` to `out`.
pub fn extend_with(out: &mut Vec<AstNode>, more: &Vec<AstNode>)
    ensures
        final(out).deep_view() == old(out).deep_view() + more.deep_view(),
{
    let mut i: usize = 0;
    assert(out.deep_view() =~= old(out).deep_view() + more.deep_view().take(0));
    while i < more.len()
        invariant
            i <= more.len(),
            out.deep_view() == old(out).deep_view() + more.deep_view().take(i as int),
        decreases more.len() - i,
    {
        let ghost before = *out;
        let node = clone_node(&more[i]);
        out.push(node);
        proof {
            lemma_deep_view_push(before, *out, node);
            assert(more.deep_view()[i as int] == more[i as int]@);
            assert(out.deep_view() =~= old(out).deep_view() + more.deep_view().take(i + 1));
        }
        i += 1;
    }
    assert(more.deep_view().take(i as int) =~= more.deep_view());
}

/// Sorts every stretch of increments, sets and pointer moves of one
/// sequence; the bodies of its loops are left alone.
pub fn sort_runs(instrs: &Vec<AstNode>) -> (out: Vec<AstNode>)
    ensures
        out.deep_view() == offsets_sorted(instrs.deep_view()),
{
    let mut sequence: Vec<AstNode> = Vec::new();
    let mut result: Vec<AstNode> = Vec::new();
    let mut i: usize = 0;
    assert(sequence.deep_view() =~= Seq::empty());
    assert(result.deep_view() =~= Seq::empty());
    while i < instrs.len()
        invariant
            i <= instrs.len(),
            (result.deep_view(), sequence.deep_view()) == sorted_runs(instrs.deep_view(), i as nat),
        decreases instrs.len() - i,
    {
        assert(instrs.deep_view()[i as int] == instrs[i as int]@);
        let node = clone_node(&instrs[i]);
        match &instrs[i] {
            AstNode::Increment { .. } | AstNode::SetCell { .. } | AstNode::PointerIncrement { .. } => {
                let ghost before = sequence;
                sequence.push(node);
                proof {
                    lemma_deep_view_push(before, sequence, node);
                }
            },
            _ => {
                let sorted = sort_sequence_by_offset(&sequence);
                extend_with(&mut result, &sorted);
                sequence = Vec::new();
                assert(sequence.deep_view() =~= Seq::empty());
                let ghost before = result;
                result.push(node);
                proof {
                    lemma_deep_view_push(before, result, node);
                    assert(before.deep_view().push(node@) =~= before.deep_view() + seq![node@]);
                }
            },
        }
        i += 1;
    }
    let sorted = sort_sequence_by_offset(&sequence);
    extend_with(&mut result, &sorted);
    result
}

} // verus!
