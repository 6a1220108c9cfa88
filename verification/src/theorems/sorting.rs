//! Sorting a stretch by offset keeps what it does.

use vstd::prelude::*;
use crate::bfir::Instr;
use crate::peephole::sorting::{
    anchored, by_offset, inserted, is_sortable, offset_of, offsets_sorted, sorted_run, sorted_runs,
};
use crate::semantics::{
    Machine, effect, equivalent, eval, lemma_eval_concat, lemma_eval_empty, lemma_eval_simple,
    lemma_same_is_equal,
};
use crate::theorems::equivalence::{
    lemma_equivalent_concat, lemma_equivalent_refl, lemma_equivalent_trans, lemma_eval_pair,
};

verus! {

/// Whether an instruction changes one cell and nothing else.
pub open spec fn is_cell_op(instr: Instr) -> bool {
    instr is Increment || instr is SetCell
}

/// Whether all instructions are increments and sets.
pub open spec fn all_cell_ops(instrs: Seq<Instr>) -> bool {
    forall|i: int| 0 <= i < instrs.len() ==> is_cell_op(#[trigger] instrs[i])
}

/// Whether all instructions are increments, sets and pointer moves.
pub open spec fn all_sortable(instrs: Seq<Instr>) -> bool {
    forall|i: int| 0 <= i < instrs.len() ==> is_sortable(#[trigger] instrs[i])
}

/// Two changes to different cells can be made in either order.
pub proof fn lemma_cell_ops_commute(a: Instr, b: Instr)
    requires
        is_cell_op(a),
        is_cell_op(b),
        offset_of(a) != offset_of(b),
    ensures
        equivalent(seq![a, b], seq![b, a]),
{
    let ab = seq![a, b];
    let ba = seq![b, a];
    assert forall|m: Machine| #[trigger] eval(ab, m) == eval(ba, m) by {
        lemma_eval_pair(a, b, m);
        lemma_eval_pair(b, a, m);
        lemma_same_is_equal(effect(b, effect(a, m)), effect(a, effect(b, m)));
    }
}

/// Putting a change in at its place in a sorted stretch does what
/// putting it at the end does.
#[verifier::rlimit(20)]
proof fn lemma_inserted_equivalent(sorted: Seq<Instr>, instr: Instr)
    requires
        all_cell_ops(sorted),
        is_cell_op(instr),
    ensures
        equivalent(inserted(sorted, instr), sorted.push(instr)),
        all_cell_ops(inserted(sorted, instr)),
        inserted(sorted, instr).len() == sorted.len() + 1,
    decreases sorted.len(),
{
    if sorted.len() == 0 {
        assert(inserted(sorted, instr) =~= sorted.push(instr));
    } else if offset_of(sorted.last()) <= offset_of(instr) {
    } else {
        let front = sorted.drop_last();
        let last = sorted.last();
        assert forall|i: int| 0 <= i < front.len() implies is_cell_op(#[trigger] front[i]) by {
            assert(front[i] == sorted[i]);
        }
        lemma_inserted_equivalent(front, instr);
        let placed = inserted(front, instr);
        lemma_equivalent_refl(seq![last]);
        lemma_equivalent_concat(placed, front.push(instr), seq![last], seq![last]);
        assert(placed.push(last) =~= placed + seq![last]);
        lemma_cell_ops_commute(instr, last);
        lemma_equivalent_refl(front);
        lemma_equivalent_concat(front, front, seq![instr, last], seq![last, instr]);
        assert(front.push(instr) + seq![last] =~= front + seq![instr, last]);
        assert(sorted.push(instr) =~= front + seq![last, instr]);
        lemma_equivalent_trans(
            placed.push(last),
            front + seq![instr, last],
            sorted.push(instr),
        );
        assert forall|i: int| 0 <= i < placed.push(last).len() implies is_cell_op(
            #[trigger] placed.push(last)[i],
        ) by {
            if i < placed.len() {
                assert(placed.push(last)[i] == placed[i]);
            }
        }
    }
}

/// Sorting changes by offset keeps what they do.
pub proof fn lemma_by_offset_equivalent(instrs: Seq<Instr>)
    requires
        all_cell_ops(instrs),
    ensures
        equivalent(by_offset(instrs), instrs),
        all_cell_ops(by_offset(instrs)),
    decreases instrs.len(),
{
    if instrs.len() == 0 {
    } else {
        let front = instrs.drop_last();
        let last = instrs.last();
        assert forall|i: int| 0 <= i < front.len() implies is_cell_op(#[trigger] front[i]) by {
            assert(front[i] == instrs[i]);
        }
        lemma_by_offset_equivalent(front);
        lemma_inserted_equivalent(by_offset(front), last);
        lemma_equivalent_refl(seq![last]);
        lemma_equivalent_concat(by_offset(front), front, seq![last], seq![last]);
        assert(by_offset(front).push(last) =~= by_offset(front) + seq![last]);
        assert(instrs =~= front + seq![last]);
        lemma_equivalent_trans(by_offset(instrs), by_offset(front).push(last), instrs);
    }
}

/// A machine with its pointer moved.
pub open spec fn shifted(m: Machine, by: int) -> Machine {
    Machine { ptr: m.ptr + by, ..m }
}

/// Changes to cells always end and leave the pointer where it was.
proof fn lemma_cell_ops_end(instrs: Seq<Instr>, m: Machine)
    requires
        all_cell_ops(instrs),
    ensures
        eval(instrs, m) is Some,
        eval(instrs, m)->0.ptr == m.ptr,
    decreases instrs.len(),
{
    if instrs.len() == 0 {
        lemma_eval_empty(m);
    } else {
        let front = instrs.drop_last();
        assert forall|i: int| 0 <= i < front.len() implies is_cell_op(#[trigger] front[i]) by {
            assert(front[i] == instrs[i]);
        }
        lemma_cell_ops_end(front, m);
        assert(instrs =~= front + seq![instrs.last()]);
        lemma_eval_concat(front, seq![instrs.last()], m);
        lemma_eval_simple(instrs.last(), eval(front, m)->0);
    }
}

/// A stretch does what its changes do with their offsets counted from
/// its start, followed by one move of the pointer.
#[verifier::rlimit(20)]
proof fn lemma_anchored(run: Seq<Instr>, n: nat, m: Machine)
    requires
        n <= run.len(),
        all_sortable(run),
        anchored(run, n).in_range,
    ensures
        all_cell_ops(anchored(run, n).retagged),
        eval(anchored(run, n).retagged, m) is Some,
        eval(run.take(n as int), m) == Some(
            shifted(eval(anchored(run, n).retagged, m)->0, anchored(run, n).at),
        ),
        anchored(run, n).at != 0 ==> anchored(run, n).last_move is Some,
        isize::MIN <= anchored(run, n).at <= isize::MAX,
    decreases n,
{
    if n == 0 {
        assert(run.take(0) =~= Seq::<Instr>::empty());
        lemma_eval_empty(m);
    } else {
        let before = anchored(run, (n - 1) as nat);
        let after = anchored(run, n);
        let instr = run[n - 1];
        assert(is_sortable(instr));
        assert(before.in_range);
        lemma_anchored(run, (n - 1) as nat, m);
        lemma_cell_ops_end(before.retagged, m);
        let cells = eval(before.retagged, m)->0;
        let reached = shifted(cells, before.at);
        assert(run.take(n as int) =~= run.take(n - 1) + seq![instr]);
        lemma_eval_concat(run.take(n - 1), seq![instr], m);
        lemma_eval_simple(instr, reached);
        if instr is PointerIncrement {
            lemma_same_is_equal(effect(instr, reached), shifted(cells, after.at));
        } else {
            let moved = after.retagged.last();
            assert(after.retagged.drop_last() =~= before.retagged);
            assert(after.retagged =~= before.retagged + seq![moved]);
            lemma_eval_concat(before.retagged, seq![moved], m);
            lemma_eval_simple(moved, cells);
            lemma_same_is_equal(effect(instr, reached), shifted(effect(moved, cells), after.at));
            assert forall|i: int| 0 <= i < after.retagged.len() implies is_cell_op(
                #[trigger] after.retagged[i],
            ) by {
                if i < before.retagged.len() {
                    assert(after.retagged[i] == before.retagged[i]);
                }
            }
        }
    }
}

/// A sorted stretch of increments, sets and pointer moves does what the
/// stretch does.
pub proof fn lemma_sorted_run_equivalent(run: Seq<Instr>)
    requires
        all_sortable(run),
    ensures
        equivalent(sorted_run(run), run),
{
    let whole = anchored(run, run.len());
    if whole.in_range {
        let sorted = by_offset(whole.retagged);
        let out = sorted_run(run);
        assert forall|m: Machine| #[trigger] eval(out, m) == eval(run, m) by {
            lemma_anchored(run, run.len(), m);
            assert(run.take(run.len() as int) =~= run);
            lemma_by_offset_equivalent(whole.retagged);
            assert(eval(sorted, m) == eval(whole.retagged, m));
            lemma_cell_ops_end(whole.retagged, m);
            let cells = eval(whole.retagged, m)->0;
            if whole.at != 0 {
                let back = out.last();
                assert(out =~= sorted + seq![back]);
                lemma_eval_concat(sorted, seq![back], m);
                lemma_eval_simple(back, cells);
                lemma_same_is_equal(effect(back, cells), shifted(cells, whole.at));
            } else {
                lemma_same_is_equal(cells, shifted(cells, whole.at));
            }
        }
    }
}

proof fn lemma_sorted_runs_equivalent(instrs: Seq<Instr>, n: nat)
    requires
        n <= instrs.len(),
    ensures
        all_sortable(sorted_runs(instrs, n).1),
        equivalent(sorted_runs(instrs, n).0 + sorted_runs(instrs, n).1, instrs.take(n as int)),
    decreases n,
{
    if n == 0 {
        assert(sorted_runs(instrs, 0).0 + sorted_runs(instrs, 0).1 =~= instrs.take(0));
    } else {
        let (done, run) = sorted_runs(instrs, (n - 1) as nat);
        let instr = instrs[n - 1];
        lemma_sorted_runs_equivalent(instrs, (n - 1) as nat);
        lemma_equivalent_refl(seq![instr]);
        assert(instrs.take(n as int) =~= instrs.take(n - 1) + seq![instr]);
        if is_sortable(instr) {
            lemma_equivalent_concat(done + run, instrs.take(n - 1), seq![instr], seq![instr]);
            assert(done + run.push(instr) =~= (done + run) + seq![instr]);
            assert forall|i: int| 0 <= i < run.push(instr).len() implies is_sortable(
                #[trigger] run.push(instr)[i],
            ) by {
                if i < run.len() {
                    assert(run.push(instr)[i] == run[i]);
                }
            }
        } else {
            lemma_sorted_run_equivalent(run);
            lemma_equivalent_refl(done);
            lemma_equivalent_concat(done, done, sorted_run(run), run);
            lemma_equivalent_trans(done + sorted_run(run), done + run, instrs.take(n - 1));
            lemma_equivalent_concat(
                done + sorted_run(run),
                instrs.take(n - 1),
                seq![instr],
                seq![instr],
            );
            assert((done + sorted_run(run) + seq![instr]) + Seq::<Instr>::empty() =~= done
                + sorted_run(run) + seq![instr]);
        }
    }
}

/// Sorting every stretch of a sequence keeps what the sequence does.
pub proof fn lemma_offsets_sorted_equivalent(instrs: Seq<Instr>)
    ensures
        equivalent(offsets_sorted(instrs), instrs),
{
    let (done, run) = sorted_runs(instrs, instrs.len());
    lemma_sorted_runs_equivalent(instrs, instrs.len());
    lemma_sorted_run_equivalent(run);
    lemma_equivalent_refl(done);
    lemma_equivalent_concat(done, done, sorted_run(run), run);
    assert(instrs.take(instrs.len() as int) =~= instrs);
    lemma_equivalent_trans(offsets_sorted(instrs), done + run, instrs);
}

} // verus!
