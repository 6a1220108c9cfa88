//! The optimizer keeps what a program does.

use vstd::prelude::*;
use crate::bfir::{Cell, Instr};
use crate::diagnostics::WarningView;
use crate::execution::{initial_state, ran};
use crate::peephole::coalesce::{MergeRule, coalesced};
use crate::peephole::pure_code::{effect_end, has_effect, pure_code_removed};
use crate::peephole::queries::is_zero_set;
use crate::peephole::selection::Selection;
use crate::peephole::{
    MAX_OPT_ITERATIONS, Pass, applied, descended, is_zero_increment, is_zero_move,
    known_zero_annotated, leading_zero_set, optimized, optimized_from, optimized_once,
    redundant_sets_removed, rewritten, with_warning,
};
use crate::semantics::{
    Machine, effect, equivalent, eval, lemma_eval_concat, lemma_eval_empty, lemma_eval_step,
};
use crate::theorems::clobber::lemma_clobbered_equivalent;
use crate::theorems::equivalence::{
    does_nothing, lemma_equivalent_concat, lemma_equivalent_loop, lemma_equivalent_refl,
    lemma_equivalent_trans, lemma_unmarked_equivalent, lemma_with_same_cell,
};
use crate::theorems::interpretation::{fits, is_fresh, lemma_execute_agrees};
use crate::theorems::merging::lemma_coalesced_equivalent;
use crate::theorems::multiplying::lemma_multiply_equivalent;
use crate::theorems::sorting::lemma_offsets_sorted_equivalent;
use crate::theorems::tracking::{
    lemma_after_moves_frame, lemma_dead_loops_equivalent, lemma_redundant_sets_equivalent,
};
use crate::theorems::zeroing::{
    lemma_leading_set, lemma_zeroing_equivalent, lemma_zeros_noted_equivalent,
};

verus! {

proof fn lemma_zero_increment(instr: Instr)
    requires
        is_zero_increment(instr),
    ensures
        does_nothing(instr),
{
    assert forall|m: Machine| #[trigger] effect(instr, m) == m by {
        lemma_with_same_cell(m, m.ptr + instr->Increment_offset);
    }
}

proof fn lemma_zero_move(instr: Instr)
    requires
        is_zero_move(instr),
    ensures
        does_nothing(instr),
{
}

/// What a pass makes of one sequence does what the sequence does.
pub proof fn lemma_rewritten_equivalent(pass: Pass, instrs: Seq<Instr>)
    ensures
        equivalent(rewritten(pass, instrs), instrs),
{
    match pass {
        Pass::CombineIncrements => {
            let merged = coalesced(instrs, MergeRule::Increments);
            let marks = Seq::new(merged.len(), |i: int| is_zero_increment(merged[i]));
            lemma_coalesced_equivalent(instrs, MergeRule::Increments);
            assert forall|i: int| 0 <= i < merged.len() && marks[i] implies does_nothing(
                #[trigger] merged[i],
            ) by {
                lemma_zero_increment(merged[i]);
            }
            lemma_unmarked_equivalent(merged, marks);
            lemma_equivalent_trans(rewritten(pass, instrs), merged, instrs);
        },
        Pass::CombinePointerIncrements => {
            let merged = coalesced(instrs, MergeRule::PointerIncrements);
            let marks = Seq::new(merged.len(), |i: int| is_zero_move(merged[i]));
            lemma_coalesced_equivalent(instrs, MergeRule::PointerIncrements);
            assert forall|i: int| 0 <= i < merged.len() && marks[i] implies does_nothing(
                #[trigger] merged[i],
            ) by {
                lemma_zero_move(merged[i]);
            }
            lemma_unmarked_equivalent(merged, marks);
            lemma_equivalent_trans(rewritten(pass, instrs), merged, instrs);
        },
        Pass::KnownZero => {
            lemma_zeros_noted_equivalent(instrs);
        },
        Pass::Multiply => {
            lemma_multiply_equivalent(instrs);
        },
        Pass::ZeroingLoops => {
            lemma_zeroing_equivalent(instrs);
        },
        Pass::CombineSets => {
            let first = coalesced(instrs, MergeRule::IncrementThenSet);
            let second = coalesced(first, MergeRule::SetThenIncrement);
            lemma_coalesced_equivalent(instrs, MergeRule::IncrementThenSet);
            lemma_coalesced_equivalent(first, MergeRule::SetThenIncrement);
            lemma_coalesced_equivalent(second, MergeRule::SetThenSet);
            lemma_equivalent_trans(second, first, instrs);
            lemma_equivalent_trans(rewritten(pass, instrs), second, instrs);
        },
        Pass::DeadLoops => {
            lemma_dead_loops_equivalent(instrs);
        },
        Pass::RedundantSets => {
            lemma_redundant_sets_equivalent(instrs);
        },
        Pass::ReadClobber => {
            lemma_clobbered_equivalent(instrs);
        },
        Pass::OffsetSort => {
            lemma_offsets_sorted_equivalent(instrs);
        },
    }
}

/// A pass, run on a sequence and on the bodies of its loops, gives a
/// sequence that ends on the same machine from every machine, or runs
/// forever where the sequence does.
pub proof fn lemma_applied_equivalent(pass: Pass, instrs: Seq<Instr>)
    ensures
        equivalent(applied(pass, instrs), instrs),
    decreases instrs, 1nat,
{
    lemma_descended_equivalent(pass, instrs);
    lemma_rewritten_equivalent(pass, descended(pass, instrs));
    lemma_equivalent_trans(applied(pass, instrs), descended(pass, instrs), instrs);
}

/// A pass run on the bodies of the loops keeps what the sequence does.
pub proof fn lemma_descended_equivalent(pass: Pass, instrs: Seq<Instr>)
    ensures
        equivalent(descended(pass, instrs), instrs),
    decreases instrs, 0nat,
{
    if instrs.len() > 0 {
        let front = instrs.drop_last();
        let last = instrs.last();
        lemma_descended_equivalent(pass, front);
        let replaced = descended(pass, instrs).last();
        match last {
            Instr::Loop { body, position } => {
                lemma_applied_equivalent(pass, body);
                lemma_equivalent_loop(applied(pass, body), position, body, position);
            },
            _ => {
                lemma_equivalent_refl(seq![last]);
            },
        }
        lemma_equivalent_concat(descended(pass, front), front, seq![replaced], seq![last]);
        assert(descended(pass, instrs) =~= descended(pass, front) + seq![replaced]);
        assert(instrs =~= front + seq![last]);
    }
}

/// What can be seen of a run: whether it ends, and if it does, what it
/// has written and what input it has left.
pub open spec fn observed(end: Option<Machine>) -> Option<(Seq<Cell>, Seq<Cell>)> {
    match end {
        Some(m) => Some((m.output, m.input)),
        None => None,
    }
}

/// Noting the known zeros of a program keeps what it does from a machine
/// whose current cell is zero.
pub proof fn lemma_known_zero_same(instrs: Seq<Instr>, m: Machine)
    requires
        m.current() == 0,
    ensures
        eval(known_zero_annotated(instrs), m) == eval(instrs, m),
{
    let inner = applied(Pass::KnownZero, instrs);
    lemma_applied_equivalent(Pass::KnownZero, instrs);
    assert(eval(inner, m) == eval(instrs, m));
    lemma_leading_set(leading_zero_set(instrs), inner, m);
}

/// Dropping the redundant sets of a program keeps what it does from a
/// machine whose current cell is zero.
pub proof fn lemma_redundant_sets_same(instrs: Seq<Instr>, m: Machine)
    requires
        m.current() == 0,
    ensures
        eval(redundant_sets_removed(instrs), m) == eval(instrs, m),
{
    let reduced = applied(Pass::RedundantSets, instrs);
    lemma_applied_equivalent(Pass::RedundantSets, instrs);
    assert(eval(reduced, m) == eval(instrs, m));
    if reduced.len() > 0 && is_zero_set(reduced[0]) {
        lemma_eval_step(reduced, m);
        lemma_with_same_cell(m, m.ptr);
    }
}

/// Instructions without effect always end, and write and read nothing.
proof fn lemma_pure_tail(instrs: Seq<Instr>, m: Machine)
    requires
        forall|i: int| 0 <= i < instrs.len() ==> !has_effect(#[trigger] instrs[i]),
    ensures
        eval(instrs, m) is Some,
        eval(instrs, m)->0.output == m.output,
        eval(instrs, m)->0.input == m.input,
    decreases instrs.len(),
{
    if instrs.len() == 0 {
        lemma_eval_empty(m);
    } else {
        let rest = instrs.drop_first();
        assert forall|i: int| 0 <= i < rest.len() implies !has_effect(#[trigger] rest[i]) by {
            assert(rest[i] == instrs[i + 1]);
        }
        assert(!has_effect(instrs[0]));
        lemma_eval_step(instrs, m);
        match instrs[0] {
            Instr::MultiplyMove { changes, .. } => {
                lemma_after_moves_frame(changes, changes.len(), m, m.current());
            },
            _ => {},
        }
        lemma_pure_tail(rest, effect(instrs[0], m));
    }
}

proof fn lemma_effect_end(instrs: Seq<Instr>)
    ensures
        effect_end(instrs) <= instrs.len(),
        forall|i: int| effect_end(instrs) <= i < instrs.len() ==> !has_effect(#[trigger] instrs[i]),
    decreases instrs.len(),
{
    if instrs.len() > 0 && !has_effect(instrs.last()) {
        lemma_effect_end(instrs.drop_last());
        assert forall|i: int| effect_end(instrs) <= i < instrs.len() implies !has_effect(
            #[trigger] instrs[i],
        ) by {
            if i < instrs.len() - 1 {
                assert(instrs.drop_last()[i] == instrs[i]);
            }
        }
    }
}

/// Dropping what stands after the last instruction with an effect keeps
/// what can be seen of a program.
pub proof fn lemma_pure_code_same(instrs: Seq<Instr>, m: Machine)
    ensures
        observed(eval(pure_code_removed(instrs).0, m)) == observed(eval(instrs, m)),
{
    let end = effect_end(instrs) as int;
    lemma_effect_end(instrs);
    let head = instrs.take(end);
    let tail = instrs.skip(end);
    assert(instrs =~= head + tail);
    lemma_eval_concat(head, tail, m);
    match eval(head, m) {
        Some(after) => {
            assert forall|i: int| 0 <= i < tail.len() implies !has_effect(#[trigger] tail[i]) by {
                assert(tail[i] == instrs[end + i]);
            }
            lemma_pure_tail(tail, after);
        },
        None => {},
    }
}

/// One round of passes keeps what can be seen of a program that starts
/// on a machine whose current cell is zero.
#[verifier::rlimit(20)]
pub proof fn lemma_optimized_once_same(instrs: Seq<Instr>, passes: Selection, m: Machine)
    requires
        m.current() == 0,
    ensures
        observed(eval(optimized_once(instrs, passes).0, m)) == observed(eval(instrs, m)),
{
    let a = if passes.combine_inc {
        applied(Pass::CombineIncrements, instrs)
    } else {
        instrs
    };
    let b = if passes.combine_ptr {
        applied(Pass::CombinePointerIncrements, a)
    } else {
        a
    };
    let c = if passes.known_zero {
        known_zero_annotated(b)
    } else {
        b
    };
    let d = if passes.multiply {
        applied(Pass::Multiply, c)
    } else {
        c
    };
    let e = if passes.zeroing_loop {
        applied(Pass::ZeroingLoops, d)
    } else {
        d
    };
    let f = if passes.combine_set {
        applied(Pass::CombineSets, e)
    } else {
        e
    };
    let g = if passes.dead_loop {
        applied(Pass::DeadLoops, f)
    } else {
        f
    };
    let h = if passes.redundant_set {
        redundant_sets_removed(g)
    } else {
        g
    };
    let i = if passes.read_clobber {
        applied(Pass::ReadClobber, h)
    } else {
        h
    };
    let j = if passes.pure_removal {
        pure_code_removed(i).0
    } else {
        i
    };
    let k = if passes.offset_sort {
        applied(Pass::OffsetSort, j)
    } else {
        j
    };
    lemma_applied_equivalent(Pass::CombineIncrements, instrs);
    assert(eval(a, m) == eval(instrs, m));
    lemma_applied_equivalent(Pass::CombinePointerIncrements, a);
    assert(eval(b, m) == eval(a, m));
    lemma_known_zero_same(b, m);
    assert(eval(c, m) == eval(b, m));
    lemma_applied_equivalent(Pass::Multiply, c);
    assert(eval(d, m) == eval(c, m));
    lemma_applied_equivalent(Pass::ZeroingLoops, d);
    assert(eval(e, m) == eval(d, m));
    lemma_applied_equivalent(Pass::CombineSets, e);
    assert(eval(f, m) == eval(e, m));
    lemma_applied_equivalent(Pass::DeadLoops, f);
    assert(eval(g, m) == eval(f, m));
    lemma_redundant_sets_same(g, m);
    assert(eval(h, m) == eval(g, m));
    lemma_applied_equivalent(Pass::ReadClobber, h);
    assert(eval(i, m) == eval(h, m));
    lemma_pure_code_same(i, m);
    assert(observed(eval(j, m)) == observed(eval(i, m)));
    lemma_applied_equivalent(Pass::OffsetSort, j);
    assert(eval(k, m) == eval(j, m));
    assert(optimized_once(instrs, passes).0 == k);
}

proof fn lemma_optimized_from_same(
    previous: Seq<Instr>,
    result: Seq<Instr>,
    warnings: Seq<WarningView>,
    passes: Selection,
    rounds: nat,
    m: Machine,
)
    requires
        m.current() == 0,
    ensures
        observed(eval(optimized_from(previous, result, warnings, passes, rounds).0, m))
            == observed(eval(result, m)),
    decreases rounds,
{
    if rounds > 0 && previous != result {
        let (next, warning) = optimized_once(result, passes);
        lemma_optimized_once_same(result, passes, m);
        lemma_optimized_from_same(
            result,
            next,
            with_warning(warnings, warning),
            passes,
            (rounds - 1) as nat,
            m,
        );
    }
}

/// The optimizer keeps what can be seen of a program: run from a machine
/// whose current cell is zero, as every cell of a fresh tape is, with
/// whatever input, the optimized program ends if and only if the program
/// does, and then it has written the same and has left the same input.
pub proof fn lemma_optimize_preserves(instrs: Seq<Instr>, passes: Selection, m: Machine)
    requires
        m.current() == 0,
    ensures
        observed(eval(optimized(instrs, passes).0, m)) == observed(eval(instrs, m)),
{
    let (first, warning) = optimized_once(instrs, passes);
    lemma_optimized_once_same(instrs, passes, m);
    lemma_optimized_from_same(
        instrs,
        first,
        with_warning(Seq::empty(), warning),
        passes,
        MAX_OPT_ITERATIONS as nat,
        m,
    );
}

/// Where the bounded interpreter runs the optimized program, which a
/// vector can hold, to its end on its fresh tape, the program itself, run
/// on a fresh tape with whatever input, ends too: it has written what
/// the interpreter has written, and it has read nothing.
pub proof fn lemma_precomputed_output(
    instrs: Seq<Instr>,
    passes: Selection,
    steps: u64,
    m: Machine,
)
    requires
        fits(optimized(instrs, passes).0),
        is_fresh(m),
        ran(
            optimized(instrs, passes).0,
            0,
            initial_state(optimized(instrs, passes).0),
            steps,
            None,
        ).0 is Completed,
    ensures
        eval(instrs, m) is Some,
        eval(instrs, m)->0.output == ran(
            optimized(instrs, passes).0,
            0,
            initial_state(optimized(instrs, passes).0),
            steps,
            None,
        ).1.outputs,
        eval(instrs, m)->0.input == m.input,
{
    let program = optimized(instrs, passes).0;
    lemma_execute_agrees(program, steps, m);
    lemma_optimize_preserves(instrs, passes, m);
}

} // verus!
