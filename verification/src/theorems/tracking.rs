//! What the search for the last or next change of a cell finds, in terms
//! of what the program does: loops that are never entered and sets to
//! zero of cells that are zero can go.

use vstd::prelude::*;
use crate::bfir::{Cell, Instr};
use crate::peephole::dataflow::{
    dead_loop_marks, is_dead_loop, is_redundant_set, kept, redundant_set_marks, unmarked,
    without_dead_loops, without_redundant_sets, zeroed_by,
};
use crate::peephole::queries::{
    blocks_search, change_after, change_before, changes_cell, has_key, pointer_shift, previous_change,
};
use crate::semantics::{
    Machine, after_moves, effect, equivalent, eval, lemma_eval_concat, lemma_eval_empty,
    lemma_eval_loop, lemma_eval_simple, lemma_eval_step,
};
use crate::theorems::equivalence::{
    lemma_equivalent_concat, lemma_equivalent_refl, lemma_equivalent_trans, lemma_eval_loop_zero,
    lemma_with_same_cell,
};

verus! {

/// A multiply-move leaves alone every cell for which it has no change,
/// and moves nothing else.
pub proof fn lemma_after_moves_other(
    changes: Seq<(isize, Cell)>,
    n: nat,
    m: Machine,
    value: Cell,
    at: int,
)
    requires
        n <= changes.len(),
        !has_key(changes, at - m.ptr),
    ensures
        after_moves(changes, n, m, value).cell(at) == m.cell(at),
        after_moves(changes, n, m, value).ptr == m.ptr,
        after_moves(changes, n, m, value).input == m.input,
        after_moves(changes, n, m, value).output == m.output,
    decreases n,
{
    if n > 0 {
        lemma_after_moves_other(changes, (n - 1) as nat, m, value, at);
        assert(changes[n - 1].0 != at - m.ptr);
    }
}

/// A multiply-move keeps pointer, input and output.
pub proof fn lemma_after_moves_frame(changes: Seq<(isize, Cell)>, n: nat, m: Machine, value: Cell)
    requires
        n <= changes.len(),
    ensures
        after_moves(changes, n, m, value).ptr == m.ptr,
        after_moves(changes, n, m, value).input == m.input,
        after_moves(changes, n, m, value).output == m.output,
    decreases n,
{
    if n > 0 {
        lemma_after_moves_frame(changes, (n - 1) as nat, m, value);
    }
}

/// An instruction that the search passes over leaves the cell searched
/// for as it is, reads no input, and moves the pointer by its shift.
pub proof fn lemma_passed_over(instr: Instr, m: Machine, needed: int)
    requires
        !changes_cell(instr, needed),
        !blocks_search(instr),
    ensures
        effect(instr, m).cell(m.ptr + needed) == m.cell(m.ptr + needed),
        effect(instr, m).ptr == m.ptr + pointer_shift(instr),
        effect(instr, m).input == m.input,
{
    match instr {
        Instr::MultiplyMove { changes, .. } => {
            if m.current() != 0 {
                lemma_after_moves_other(changes, changes.len(), m, m.current(), m.ptr + needed);
            }
        },
        _ => {},
    }
}

/// The offset, from the pointer after the instruction at `j`, of the cell
/// that lies at `needed` from the pointer after the instruction at `at`.
pub open spec fn needed_back(instrs: Seq<Instr>, at: int, needed: int, j: int) -> int
    decreases at - j,
{
    if at <= j {
        needed
    } else {
        needed_back(instrs, at - 1, needed + pointer_shift(instrs[at]), j)
    }
}

/// The offset, from the pointer before the instruction at `k`, of the
/// cell that lies at `needed` from the pointer before the instruction at
/// `at`.
pub open spec fn needed_forth(instrs: Seq<Instr>, at: int, needed: int, k: int) -> int
    decreases k - at,
{
    if at >= k {
        needed
    } else {
        needed_forth(instrs, at + 1, needed - pointer_shift(instrs[at]), k)
    }
}

/// Where the search back from `at` finds the change at `j`: what stands
/// between the two always ends, reads no input, and leaves the cell
/// searched for as the instruction at `j` left it.
pub proof fn lemma_tracks_back(instrs: Seq<Instr>, at: int, needed: int, j: int, m: Machine)
    requires
        change_before(instrs, at, needed) == Some(j),
    ensures
        0 <= j <= at < instrs.len(),
        changes_cell(instrs[j], needed_back(instrs, at, needed, j)),
        eval(instrs.subrange(j + 1, at + 1), m) is Some,
        ({
            let end = eval(instrs.subrange(j + 1, at + 1), m)->0;
            &&& end.cell(end.ptr + needed) == m.cell(m.ptr + needed_back(instrs, at, needed, j))
            &&& end.input == m.input
        }),
    decreases at + 1,
{
    if changes_cell(instrs[at], needed) {
        assert(instrs.subrange(j + 1, at + 1) =~= Seq::<Instr>::empty());
        lemma_eval_empty(m);
    } else {
        let before = needed + pointer_shift(instrs[at]);
        lemma_tracks_back(instrs, at - 1, before, j, m);
        let front = instrs.subrange(j + 1, at);
        let mid = eval(front, m)->0;
        assert(instrs.subrange(j + 1, at + 1) =~= front + seq![instrs[at]]);
        lemma_eval_concat(front, seq![instrs[at]], m);
        lemma_eval_simple(instrs[at], mid);
        lemma_passed_over(instrs[at], mid, before);
    }
}

/// Where the search forward from `at` finds the change at `k`: what
/// stands between the two always ends, reads no input, and leaves the
/// cell searched for as it was.
pub proof fn lemma_tracks_forth(instrs: Seq<Instr>, at: int, needed: int, k: int, m: Machine)
    requires
        change_after(instrs, at, needed) == Some(k),
    ensures
        0 <= at <= k < instrs.len(),
        changes_cell(instrs[k], needed_forth(instrs, at, needed, k)),
        eval(instrs.subrange(at, k), m) is Some,
        ({
            let end = eval(instrs.subrange(at, k), m)->0;
            &&& end.cell(end.ptr + needed_forth(instrs, at, needed, k)) == m.cell(m.ptr + needed)
            &&& end.input == m.input
        }),
    decreases instrs.len() - at,
{
    if changes_cell(instrs[at], needed) {
        assert(instrs.subrange(at, k) =~= Seq::<Instr>::empty());
        lemma_eval_empty(m);
    } else {
        let next = effect(instrs[at], m);
        lemma_passed_over(instrs[at], m, needed);
        lemma_tracks_forth(instrs, at + 1, needed - pointer_shift(instrs[at]), k, next);
        let rest = instrs.subrange(at, k);
        assert(rest.drop_first() =~= instrs.subrange(at + 1, k));
        lemma_eval_step(rest, m);
    }
}

/// A sequence without some instructions, each of which changes nothing
/// where it stands, is equivalent to the whole sequence.
pub proof fn lemma_unmarked_in_place(instrs: Seq<Instr>, marks: Seq<bool>)
    requires
        marks.len() == instrs.len(),
        forall|k: int|
            0 <= k < instrs.len() && #[trigger] marks[k] ==> equivalent(
                instrs.take(k + 1),
                instrs.take(k),
            ),
    ensures
        equivalent(unmarked(instrs, marks), instrs),
{
    lemma_kept_in_place(instrs, marks, instrs.len());
    assert(instrs.take(instrs.len() as int) =~= instrs);
}

proof fn lemma_kept_in_place(instrs: Seq<Instr>, marks: Seq<bool>, n: nat)
    requires
        n <= instrs.len(),
        marks.len() == instrs.len(),
        forall|k: int|
            0 <= k < instrs.len() && #[trigger] marks[k] ==> equivalent(
                instrs.take(k + 1),
                instrs.take(k),
            ),
    ensures
        equivalent(kept(instrs, marks, n), instrs.take(n as int)),
    decreases n,
{
    if n == 0 {
        assert(instrs.take(0) =~= kept(instrs, marks, 0));
    } else {
        let front = kept(instrs, marks, (n - 1) as nat);
        let last = instrs[n - 1];
        lemma_kept_in_place(instrs, marks, (n - 1) as nat);
        if marks[n - 1] {
            assert(equivalent(instrs.take(n - 1 + 1), instrs.take(n - 1)));
            crate::theorems::equivalence::lemma_equivalent_sym(
                instrs.take(n as int),
                instrs.take(n - 1),
            );
            lemma_equivalent_trans(front, instrs.take(n - 1), instrs.take(n as int));
        } else {
            lemma_equivalent_refl(seq![last]);
            lemma_equivalent_concat(front, instrs.take(n - 1), seq![last], seq![last]);
            assert(front.push(last) =~= front + seq![last]);
            assert(instrs.take(n as int) =~= instrs.take(n - 1) + seq![last]);
        }
    }
}

/// A loop whose cell was last set to zero changes nothing.
#[verifier::rlimit(20)]
pub proof fn lemma_dead_loop(instrs: Seq<Instr>, n: int)
    requires
        is_dead_loop(instrs, n),
    ensures
        equivalent(instrs.take(n + 1), instrs.take(n)),
{
    let j = previous_change(instrs, n)->0;
    let with = instrs.take(n + 1);
    let without = instrs.take(n);
    assert forall|m: Machine| #[trigger] eval(with, m) == eval(without, m) by {
        lemma_tracks_back(instrs, n - 1, 0, j, m);
        let head = instrs.take(j);
        let mid = instrs.subrange(j + 1, n);
        assert(without =~= head + seq![instrs[j]] + mid);
        assert(with =~= without + seq![instrs[n]]);
        lemma_eval_concat(without, seq![instrs[n]], m);
        lemma_eval_concat(head + seq![instrs[j]], mid, m);
        lemma_eval_concat(head, seq![instrs[j]], m);
        match eval(head, m) {
            Some(start) => {
                lemma_eval_simple(instrs[j], start);
                let set = effect(instrs[j], start);
                lemma_tracks_back(instrs, n - 1, 0, j, set);
                let end = eval(mid, set)->0;
                assert(end.current() == 0);
                lemma_eval_loop(instrs[n], end);
            },
            None => {},
        }
    }
}

/// Dropping the loops that are never entered keeps what is done.
pub proof fn lemma_dead_loops_equivalent(instrs: Seq<Instr>)
    ensures
        equivalent(without_dead_loops(instrs), instrs),
{
    let marks = dead_loop_marks(instrs);
    assert forall|k: int| 0 <= k < instrs.len() && #[trigger] marks[k] implies equivalent(
        instrs.take(k + 1),
        instrs.take(k),
    ) by {
        lemma_dead_loop(instrs, k);
    }
    lemma_unmarked_in_place(instrs, marks);
}

/// A set to zero of a cell that a loop or a multiply-move left at zero
/// changes nothing.
#[verifier::rlimit(20)]
pub proof fn lemma_redundant_set(instrs: Seq<Instr>, k: int)
    requires
        0 <= k < instrs.len(),
        is_redundant_set(instrs, k),
    ensures
        equivalent(instrs.take(k + 1), instrs.take(k)),
{
    let i = choose|i: int| zeroed_by(instrs, i, k);
    let with = instrs.take(k + 1);
    let without = instrs.take(k);
    assert forall|m: Machine| #[trigger] eval(with, m) == eval(without, m) by {
        lemma_tracks_forth(instrs, i + 1, 0, k, m);
        let head = instrs.take(i);
        let mid = instrs.subrange(i + 1, k);
        assert(without =~= head + seq![instrs[i]] + mid);
        assert(with =~= without + seq![instrs[k]]);
        lemma_eval_concat(without, seq![instrs[k]], m);
        lemma_eval_concat(head + seq![instrs[i]], mid, m);
        lemma_eval_concat(head, seq![instrs[i]], m);
        match eval(head, m) {
            Some(start) => {
                match eval(seq![instrs[i]], start) {
                    Some(zero) => {
                        if instrs[i] is Loop {
                            lemma_eval_loop_zero(instrs[i], start);
                        } else {
                            lemma_eval_simple(instrs[i], start);
                            if start.current() != 0 {
                                let changes = instrs[i]->MultiplyMove_changes;
                                lemma_after_moves_frame(
                                    changes,
                                    changes.len(),
                                    start,
                                    start.current(),
                                );
                            }
                        }
                        assert(zero.current() == 0);
                        lemma_tracks_forth(instrs, i + 1, 0, k, zero);
                        let end = eval(mid, zero)->0;
                        assert(end.current() == 0);
                        lemma_eval_simple(instrs[k], end);
                        lemma_with_same_cell(end, end.ptr);
                    },
                    None => {},
                }
            },
            None => {},
        }
    }
}

/// Dropping the sets to zero of cells that are zero keeps what is done.
pub proof fn lemma_redundant_sets_equivalent(instrs: Seq<Instr>)
    ensures
        equivalent(without_redundant_sets(instrs), instrs),
{
    let marks = redundant_set_marks(instrs);
    assert forall|k: int| 0 <= k < instrs.len() && #[trigger] marks[k] implies equivalent(
        instrs.take(k + 1),
        instrs.take(k),
    ) by {
        lemma_redundant_set(instrs, k);
    }
    lemma_unmarked_in_place(instrs, marks);
}

} // verus!
