//! A change that a read overwrites before anything uses it can go.

use vstd::prelude::*;
use crate::bfir::{Cell, Instr};
use crate::peephole::dataflow::{
    clobbered_by, clobbered_marks, is_clobbered, kept, without_clobbered, write_between,
};
use crate::peephole::queries::{
    blocks_search, change_before, changes_cell, has_key, pointer_shift, previous_change,
};
use crate::semantics::{
    Machine, after_moves, effect, equivalent, eval, lemma_eval_concat, lemma_eval_empty,
    lemma_eval_simple, lemma_same_is_equal,
};
use crate::theorems::equivalence::{lemma_equivalent_concat, lemma_equivalent_refl};
use crate::theorems::tracking::{lemma_after_moves_frame, lemma_tracks_back, needed_back};

verus! {

/// Whether two machines agree on everything but the cell at `at`.
pub open spec fn agree_except(a: Machine, b: Machine, at: int) -> bool {
    &&& a.ptr == b.ptr
    &&& a.input == b.input
    &&& a.output == b.output
    &&& forall|i: int| i != at ==> #[trigger] a.cell(i) == b.cell(i)
}

proof fn lemma_after_moves_agree(
    changes: Seq<(isize, Cell)>,
    n: nat,
    a: Machine,
    b: Machine,
    value: Cell,
    at: int,
)
    requires
        n <= changes.len(),
        agree_except(a, b, at),
        !has_key(changes, at - a.ptr),
    ensures
        agree_except(after_moves(changes, n, a, value), after_moves(changes, n, b, value), at),
    decreases n,
{
    if n > 0 {
        lemma_after_moves_agree(changes, (n - 1) as nat, a, b, value, at);
        assert(changes[n - 1].0 != at - a.ptr);
        let before_a = after_moves(changes, (n - 1) as nat, a, value);
        let before_b = after_moves(changes, (n - 1) as nat, b, value);
        let after_a = after_moves(changes, n, a, value);
        let after_b = after_moves(changes, n, b, value);
        assert forall|i: int| i != at implies #[trigger] after_a.cell(i) == after_b.cell(i) by {
            assert(before_a.cell(i) == before_b.cell(i));
        }
    }
}

/// An instruction that the search passes over, and that writes nothing
/// out, keeps two machines in agreement but for the cell searched for.
#[verifier::rlimit(20)]
proof fn lemma_passed_over_both(instr: Instr, a: Machine, b: Machine, needed: int)
    requires
        agree_except(a, b, a.ptr + needed),
        !changes_cell(instr, needed),
        !blocks_search(instr),
        !(instr is Write),
    ensures
        agree_except(effect(instr, a), effect(instr, b), a.ptr + needed),
        effect(instr, a).ptr == a.ptr + pointer_shift(instr),
{
    let end_a = effect(instr, a);
    let end_b = effect(instr, b);
    match instr {
        Instr::MultiplyMove { changes, .. } => {
            assert(a.cell(a.ptr) == b.cell(a.ptr));
            if a.current() != 0 {
                lemma_after_moves_agree(
                    changes,
                    changes.len(),
                    a,
                    b,
                    a.current(),
                    a.ptr + needed,
                );
                lemma_after_moves_frame(changes, changes.len(), a, a.current());
                lemma_after_moves_frame(changes, changes.len(), b, a.current());
                let moved_a = after_moves(changes, changes.len(), a, a.current());
                let moved_b = after_moves(changes, changes.len(), b, a.current());
                assert forall|i: int| i != a.ptr + needed implies #[trigger] end_a.cell(i)
                    == end_b.cell(i) by {
                    assert(moved_a.cell(i) == moved_b.cell(i));
                }
            }
        },
        Instr::Increment { offset, .. } => {
            assert(a.cell(a.ptr + offset) == b.cell(a.ptr + offset));
            assert forall|i: int| i != a.ptr + needed implies #[trigger] end_a.cell(i)
                == end_b.cell(i) by {
                assert(a.cell(i) == b.cell(i));
            }
        },
        _ => {
            assert forall|i: int| i != a.ptr + needed implies #[trigger] end_a.cell(i)
                == end_b.cell(i) by {
                assert(a.cell(i) == b.cell(i));
            }
        },
    }
}

/// Nothing between a change and the place from which the search found it
/// stops the search.
pub proof fn lemma_walk_clear(instrs: Seq<Instr>, at: int, needed: int, j: int, w: int)
    requires
        change_before(instrs, at, needed) == Some(j),
        j < w <= at,
    ensures
        !blocks_search(instrs[w]),
        0 <= j < w < instrs.len(),
    decreases at + 1,
{
    lemma_tracks_back(instrs, at, needed, j, arbitrary());
    if w < at {
        assert(!changes_cell(instrs[at], needed));
        lemma_walk_clear(instrs, at - 1, needed + pointer_shift(instrs[at]), j, w);
    } else {
        if changes_cell(instrs[at], needed) {
            assert(j == at);
        }
    }
}

/// From two machines that agree but for the cell searched for, what
/// stands between the change and the search's start ends on two machines
/// that agree but for that cell.
proof fn lemma_agree_between(
    instrs: Seq<Instr>,
    at: int,
    needed: int,
    j: int,
    a: Machine,
    b: Machine,
)
    requires
        change_before(instrs, at, needed) == Some(j),
        agree_except(a, b, a.ptr + needed_back(instrs, at, needed, j)),
        forall|w: int| j < w <= at ==> !(#[trigger] instrs[w] is Write),
    ensures
        eval(instrs.subrange(j + 1, at + 1), a) is Some,
        eval(instrs.subrange(j + 1, at + 1), b) is Some,
        ({
            let end_a = eval(instrs.subrange(j + 1, at + 1), a)->0;
            let end_b = eval(instrs.subrange(j + 1, at + 1), b)->0;
            agree_except(end_a, end_b, end_a.ptr + needed)
        }),
    decreases at + 1,
{
    lemma_tracks_back(instrs, at, needed, j, a);
    if changes_cell(instrs[at], needed) {
        assert(instrs.subrange(j + 1, at + 1) =~= Seq::<Instr>::empty());
        lemma_eval_empty(a);
        lemma_eval_empty(b);
    } else {
        let before = needed + pointer_shift(instrs[at]);
        lemma_agree_between(instrs, at - 1, before, j, a, b);
        let front = instrs.subrange(j + 1, at);
        let mid_a = eval(front, a)->0;
        let mid_b = eval(front, b)->0;
        assert(instrs.subrange(j + 1, at + 1) =~= front + seq![instrs[at]]);
        lemma_eval_concat(front, seq![instrs[at]], a);
        lemma_eval_concat(front, seq![instrs[at]], b);
        lemma_eval_simple(instrs[at], mid_a);
        lemma_eval_simple(instrs[at], mid_b);
        assert(!(instrs[at] is Write));
        lemma_passed_over_both(instrs[at], mid_a, mid_b, before);
    }
}

/// With or without the change that it overwrites, a read and what stands
/// before it do the same.
#[verifier::rlimit(20)]
proof fn lemma_clobbered(instrs: Seq<Instr>, i: int, j: int)
    requires
        clobbered_by(instrs, i, j),
    ensures
        j < i,
        equivalent(instrs.subrange(j, i + 1), instrs.subrange(j + 1, i + 1)),
{
    lemma_tracks_back(instrs, i - 1, 0, j, arbitrary());
    let with = instrs.subrange(j, i + 1);
    let without = instrs.subrange(j + 1, i + 1);
    let mid = instrs.subrange(j + 1, i);
    let read = instrs[i];
    assert(without =~= mid + seq![read]);
    assert(with =~= seq![instrs[j]] + without);
    assert forall|m: Machine| #[trigger] eval(with, m) == eval(without, m) by {
        lemma_eval_concat(seq![instrs[j]], without, m);
        lemma_eval_simple(instrs[j], m);
        let changed = effect(instrs[j], m);
        lemma_eval_concat(mid, seq![read], m);
        lemma_eval_concat(mid, seq![read], changed);
        assert forall|w: int| j < w <= i - 1 implies !(#[trigger] instrs[w] is Write) by {
            if instrs[w] is Write {
                assert(write_between(instrs, j, i));
            }
        }
        lemma_agree_between(instrs, i - 1, 0, j, m, changed);
        let end_a = eval(mid, m)->0;
        let end_b = eval(mid, changed)->0;
        lemma_eval_simple(read, end_a);
        lemma_eval_simple(read, end_b);
        let read_a = effect(read, end_a);
        let read_b = effect(read, end_b);
        assert forall|k: int| #[trigger] read_a.cell(k) == read_b.cell(k) by {
            if k != end_a.ptr {
                assert(end_a.cell(k) == end_b.cell(k));
            }
        }
        lemma_same_is_equal(read_a, read_b);
    }
}

/// Whether `n` lies behind a change that a read overwrites, and not
/// behind the read.
pub open spec fn in_segment(instrs: Seq<Instr>, n: int) -> bool {
    exists|i: int, j: int| #[trigger] clobbered_by(instrs, i, j) && j < n <= i
}

proof fn lemma_kept_range(instrs: Seq<Instr>, marks: Seq<bool>, lo: nat, hi: nat)
    requires
        lo <= hi <= instrs.len(),
        marks.len() == instrs.len(),
        forall|w: int| lo <= w < hi ==> !(#[trigger] marks[w]),
    ensures
        kept(instrs, marks, hi) == kept(instrs, marks, lo) + instrs.subrange(lo as int, hi as int),
    decreases hi - lo,
{
    if lo == hi {
        assert(kept(instrs, marks, lo) + instrs.subrange(lo as int, hi as int) =~= kept(
            instrs,
            marks,
            lo,
        ));
    } else {
        lemma_kept_range(instrs, marks, lo, (hi - 1) as nat);
        assert(!marks[hi - 1]);
        assert(kept(instrs, marks, hi) =~= kept(instrs, marks, lo) + instrs.subrange(
            lo as int,
            hi as int,
        ));
    }
}

/// No read stands strictly between a change and the read that overwrites
/// it, nor does another such pair reach across this one.
proof fn lemma_segments_apart(instrs: Seq<Instr>, i: int, j: int, i2: int, j2: int)
    requires
        clobbered_by(instrs, i, j),
        clobbered_by(instrs, i2, j2),
        j2 < i,
        j < i2,
    ensures
        i == i2 && j == j2,
{
    lemma_tracks_back(instrs, i - 1, 0, j, arbitrary());
    lemma_tracks_back(instrs, i2 - 1, 0, j2, arbitrary());
    if i2 < i {
        if j < i2 {
            lemma_walk_clear(instrs, i - 1, 0, j, i2);
        }
    } else if i < i2 {
        if j2 < i {
            lemma_walk_clear(instrs, i2 - 1, 0, j2, i);
        }
    }
}

/// Up to a place that lies in no segment, dropping the overwritten
/// changes keeps what is done.
#[verifier::rlimit(20)]
proof fn lemma_kept_clobbered(instrs: Seq<Instr>, n: nat)
    requires
        n <= instrs.len(),
        !in_segment(instrs, n as int),
    ensures
        equivalent(kept(instrs, clobbered_marks(instrs), n), instrs.take(n as int)),
    decreases n,
{
    let marks = clobbered_marks(instrs);
    if n == 0 {
        assert(instrs.take(0) =~= kept(instrs, marks, 0));
    } else {
        let last = instrs[n - 1];
        let found = previous_change(instrs, n - 1);
        if last is Read && found is Some && clobbered_by(instrs, n - 1, found->0) {
            let i = n - 1;
            let j = found->0;
            lemma_tracks_back(instrs, i - 1, 0, j, arbitrary());
            if in_segment(instrs, j) {
                let (i2, j2) = choose|i2: int, j2: int| #[trigger]
                    clobbered_by(instrs, i2, j2) && j2 < j <= i2;
                if j == i2 {
                    lemma_tracks_back(instrs, i2 - 1, 0, j2, arbitrary());
                } else {
                    lemma_segments_apart(instrs, i, j, i2, j2);
                }
            }
            lemma_kept_clobbered(instrs, j as nat);
            assert(is_clobbered(instrs, j));
            assert forall|w: int| j + 1 <= w < n implies !(#[trigger] marks[w]) by {
                if is_clobbered(instrs, w) {
                    let i3 = choose|i3: int| clobbered_by(instrs, i3, w);
                    lemma_tracks_back(instrs, i3 - 1, 0, w, arbitrary());
                    lemma_segments_apart(instrs, i, j, i3, w);
                }
            }
            lemma_kept_range(instrs, marks, (j + 1) as nat, n);
            assert(kept(instrs, marks, (j + 1) as nat) == kept(instrs, marks, j as nat));
            lemma_clobbered(instrs, i, j);
            lemma_equivalent_concat(
                kept(instrs, marks, j as nat),
                instrs.take(j),
                instrs.subrange(j + 1, i + 1),
                instrs.subrange(j, i + 1),
            );
            assert(instrs.take(n as int) =~= instrs.take(j) + instrs.subrange(j, i + 1));
        } else {
            let k: int = n - 1;
            if marks[k] {
                assert(is_clobbered(instrs, k));
                let i2 = choose|i2: int| clobbered_by(instrs, i2, k);
                lemma_tracks_back(instrs, i2 - 1, 0, k, arbitrary());
                assert(clobbered_by(instrs, i2, k) && k < n <= i2);
            }
            if in_segment(instrs, n - 1) {
                let (i2, j2) = choose|i2: int, j2: int| #[trigger]
                    clobbered_by(instrs, i2, j2) && j2 < n - 1 <= i2;
                if i2 >= n {
                    assert(clobbered_by(instrs, i2, j2) && j2 < n <= i2);
                }
            }
            lemma_kept_clobbered(instrs, (n - 1) as nat);
            let front = kept(instrs, marks, (n - 1) as nat);
            lemma_equivalent_refl(seq![last]);
            lemma_equivalent_concat(front, instrs.take(n - 1), seq![last], seq![last]);
            assert(front.push(last) =~= front + seq![last]);
            assert(instrs.take(n as int) =~= instrs.take(n - 1) + seq![last]);
        }
    }
}

/// Dropping the changes that a read overwrites keeps what is done. A
/// read at the end of the input reads zero.
pub proof fn lemma_clobbered_equivalent(instrs: Seq<Instr>)
    ensures
        equivalent(without_clobbered(instrs), instrs),
{
    if in_segment(instrs, instrs.len() as int) {
        let (i, j) = choose|i: int, j: int| #[trigger]
            clobbered_by(instrs, i, j) && j < instrs.len() <= i;
    }
    lemma_kept_clobbered(instrs, instrs.len());
    assert(instrs.take(instrs.len() as int) =~= instrs);
}

} // verus!
