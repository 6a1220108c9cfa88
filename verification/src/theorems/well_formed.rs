//! The optimizer gives multiply-moves of the right shape only.

use vstd::prelude::*;
use crate::bfir::Instr;
use crate::peephole::coalesce::{MergeRule, coalesced, coalesced_from, merged};
use crate::peephole::dataflow::kept;
use crate::peephole::known_zero::annotated;
use crate::peephole::multiply::{multiplied, zeroed};
use crate::peephole::pure_code::{effect_end, pure_code_removed};
use crate::peephole::queries::has_key;
use crate::peephole::selection::Selection;
use crate::peephole::sorting::{anchored, by_offset, inserted, is_sortable, sorted_run, sorted_runs};
use crate::peephole::{
    MAX_OPT_ITERATIONS, Pass, applied, descended, known_zero_annotated, optimized, optimized_from,
    optimized_once, redundant_sets_removed, rewritten, with_warning,
};
use crate::diagnostics::WarningView;
use crate::bfir::parsed;
use crate::changes::ascending;
use crate::theorems::shape::{is_parsed, lemma_multiplied_shape, lemma_parsed_shape};

verus! {

/// Whether every multiply-move in an instruction has changes with rising
/// offsets and none for its own cell.
pub open spec fn is_well_formed(instr: Instr) -> bool
    decreases instr,
{
    match instr {
        Instr::MultiplyMove { changes, .. } => ascending(changes) && !has_key(changes, 0),
        Instr::Loop { body, .. } => forall|i: int|
            0 <= i < body.len() ==> is_well_formed(#[trigger] body[i]),
        _ => true,
    }
}

/// Whether all instructions are well formed.
pub open spec fn all_well_formed(instrs: Seq<Instr>) -> bool {
    forall|i: int| 0 <= i < instrs.len() ==> is_well_formed(#[trigger] instrs[i])
}

/// What the parser gives is well formed.
pub proof fn lemma_parsed_is_well_formed(instr: Instr)
    requires
        is_parsed(instr),
    ensures
        is_well_formed(instr),
    decreases instr,
{
    match instr {
        Instr::Loop { body, .. } => {
            assert forall|i: int| 0 <= i < body.len() implies is_well_formed(
                #[trigger] body[i],
            ) by {
                lemma_parsed_is_well_formed(body[i]);
            }
        },
        _ => {},
    }
}

proof fn lemma_push(instrs: Seq<Instr>, instr: Instr)
    requires
        all_well_formed(instrs),
        is_well_formed(instr),
    ensures
        all_well_formed(instrs.push(instr)),
{
    assert forall|i: int| 0 <= i < instrs.push(instr).len() implies is_well_formed(
        #[trigger] instrs.push(instr)[i],
    ) by {
        if i < instrs.len() {
            assert(instrs.push(instr)[i] == instrs[i]);
        }
    }
}

proof fn lemma_concat(a: Seq<Instr>, b: Seq<Instr>)
    requires
        all_well_formed(a),
        all_well_formed(b),
    ensures
        all_well_formed(a + b),
{
    assert forall|i: int| 0 <= i < (a + b).len() implies is_well_formed(#[trigger] (a + b)[i]) by {
        if i < a.len() {
            assert((a + b)[i] == a[i]);
        } else {
            assert((a + b)[i] == b[i - a.len()]);
        }
    }
}

proof fn lemma_part(instrs: Seq<Instr>, from: int, to: int)
    requires
        all_well_formed(instrs),
        0 <= from <= to <= instrs.len(),
    ensures
        all_well_formed(instrs.subrange(from, to)),
{
    assert forall|i: int| 0 <= i < to - from implies is_well_formed(
        #[trigger] instrs.subrange(from, to)[i],
    ) by {
        assert(instrs.subrange(from, to)[i] == instrs[from + i]);
    }
}

proof fn lemma_coalesced_from(held: Instr, rest: Seq<Instr>, rule: MergeRule)
    requires
        is_well_formed(held),
        all_well_formed(rest),
    ensures
        all_well_formed(coalesced_from(held, rest, rule)),
    decreases rest.len(),
{
    if rest.len() > 0 {
        lemma_part(rest, 1, rest.len() as int);
        assert(rest.drop_first() =~= rest.subrange(1, rest.len() as int));
        match merged(rule, held, rest[0]) {
            Some(joined) => {
                lemma_coalesced_from(joined, rest.drop_first(), rule);
            },
            None => {
                lemma_coalesced_from(rest[0], rest.drop_first(), rule);
                lemma_concat(seq![held], coalesced_from(rest[0], rest.drop_first(), rule));
            },
        }
    }
}

proof fn lemma_coalesced(instrs: Seq<Instr>, rule: MergeRule)
    requires
        all_well_formed(instrs),
    ensures
        all_well_formed(coalesced(instrs, rule)),
{
    if instrs.len() > 0 {
        lemma_part(instrs, 1, instrs.len() as int);
        assert(instrs.drop_first() =~= instrs.subrange(1, instrs.len() as int));
        lemma_coalesced_from(instrs[0], instrs.drop_first(), rule);
    }
}

proof fn lemma_kept(instrs: Seq<Instr>, marks: Seq<bool>, n: nat)
    requires
        all_well_formed(instrs),
    ensures
        all_well_formed(kept(instrs, marks, n)),
    decreases n,
{
    if !(n == 0 || n > instrs.len() || n > marks.len()) {
        lemma_kept(instrs, marks, (n - 1) as nat);
        if !marks[n - 1] {
            lemma_push(kept(instrs, marks, (n - 1) as nat), instrs[n - 1]);
        }
    }
}

proof fn lemma_annotated(instrs: Seq<Instr>, n: nat)
    requires
        all_well_formed(instrs),
    ensures
        all_well_formed(annotated(instrs, n)),
    decreases n,
{
    if !(n == 0 || n > instrs.len()) {
        lemma_annotated(instrs, (n - 1) as nat);
        let front = annotated(instrs, (n - 1) as nat).push(instrs[n - 1]);
        lemma_push(annotated(instrs, (n - 1) as nat), instrs[n - 1]);
        if annotated(instrs, n) != front {
            lemma_push(front, annotated(instrs, n).last());
            assert(annotated(instrs, n) =~= front.push(annotated(instrs, n).last()));
        }
    }
}

proof fn lemma_inserted(sorted: Seq<Instr>, instr: Instr)
    requires
        all_well_formed(sorted),
        is_well_formed(instr),
    ensures
        all_well_formed(inserted(sorted, instr)),
    decreases sorted.len(),
{
    if sorted.len() == 0 {
    } else if crate::peephole::sorting::offset_of(sorted.last()) <= crate::peephole::sorting::offset_of(
        instr,
    ) {
        lemma_push(sorted, instr);
    } else {
        lemma_part(sorted, 0, sorted.len() - 1);
        assert(sorted.drop_last() =~= sorted.subrange(0, sorted.len() - 1));
        lemma_inserted(sorted.drop_last(), instr);
        lemma_push(inserted(sorted.drop_last(), instr), sorted.last());
    }
}

proof fn lemma_by_offset(instrs: Seq<Instr>)
    requires
        all_well_formed(instrs),
    ensures
        all_well_formed(by_offset(instrs)),
    decreases instrs.len(),
{
    if instrs.len() > 0 {
        lemma_part(instrs, 0, instrs.len() - 1);
        assert(instrs.drop_last() =~= instrs.subrange(0, instrs.len() - 1));
        lemma_by_offset(instrs.drop_last());
        lemma_inserted(by_offset(instrs.drop_last()), instrs.last());
    }
}

proof fn lemma_anchored(run: Seq<Instr>, n: nat)
    ensures
        all_well_formed(anchored(run, n).retagged),
    decreases n,
{
    if !(n == 0 || n > run.len()) {
        lemma_anchored(run, (n - 1) as nat);
        let before = anchored(run, (n - 1) as nat);
        let after = anchored(run, n);
        if after.retagged != before.retagged {
            lemma_push(before.retagged, after.retagged.last());
            assert(after.retagged =~= before.retagged.push(after.retagged.last()));
        }
    }
}

proof fn lemma_sorted_run(run: Seq<Instr>)
    requires
        all_well_formed(run),
    ensures
        all_well_formed(sorted_run(run)),
{
    let whole = anchored(run, run.len());
    lemma_anchored(run, run.len());
    lemma_by_offset(whole.retagged);
    if whole.in_range && whole.at != 0 {
        lemma_push(by_offset(whole.retagged), sorted_run(run).last());
    }
}

proof fn lemma_sorted_runs(instrs: Seq<Instr>, n: nat)
    requires
        all_well_formed(instrs),
    ensures
        all_well_formed(sorted_runs(instrs, n).0),
        all_well_formed(sorted_runs(instrs, n).1),
    decreases n,
{
    if !(n == 0 || n > instrs.len()) {
        lemma_sorted_runs(instrs, (n - 1) as nat);
        let (done, run) = sorted_runs(instrs, (n - 1) as nat);
        let instr = instrs[n - 1];
        if is_sortable(instr) {
            lemma_push(run, instr);
        } else {
            lemma_sorted_run(run);
            lemma_concat(done, sorted_run(run));
            lemma_concat(done + sorted_run(run), seq![instr]);
        }
    }
}

/// A pass gives a well-formed sequence for a well-formed sequence.
pub proof fn lemma_rewritten_well_formed(pass: Pass, instrs: Seq<Instr>)
    requires
        all_well_formed(instrs),
    ensures
        all_well_formed(rewritten(pass, instrs)),
{
    match pass {
        Pass::CombineIncrements => {
            let merged = coalesced(instrs, MergeRule::Increments);
            lemma_coalesced(instrs, MergeRule::Increments);
            lemma_kept(
                merged,
                Seq::new(merged.len(), |i: int| crate::peephole::is_zero_increment(merged[i])),
                merged.len(),
            );
        },
        Pass::CombinePointerIncrements => {
            let merged = coalesced(instrs, MergeRule::PointerIncrements);
            lemma_coalesced(instrs, MergeRule::PointerIncrements);
            lemma_kept(
                merged,
                Seq::new(merged.len(), |i: int| crate::peephole::is_zero_move(merged[i])),
                merged.len(),
            );
        },
        Pass::KnownZero => {
            lemma_annotated(instrs, instrs.len());
        },
        Pass::Multiply => {
            let out = instrs.map_values(|instr: Instr| multiplied(instr));
            assert forall|i: int| 0 <= i < out.len() implies is_well_formed(#[trigger] out[i]) by {
                assert(is_well_formed(instrs[i]));
                if multiplied(instrs[i]) != instrs[i] {
                    lemma_multiplied_shape(instrs[i]);
                }
            }
        },
        Pass::ZeroingLoops => {
            let out = instrs.map_values(|instr: Instr| zeroed(instr));
            assert forall|i: int| 0 <= i < out.len() implies is_well_formed(#[trigger] out[i]) by {
                assert(is_well_formed(instrs[i]));
            }
        },
        Pass::CombineSets => {
            let first = coalesced(instrs, MergeRule::IncrementThenSet);
            let second = coalesced(first, MergeRule::SetThenIncrement);
            lemma_coalesced(instrs, MergeRule::IncrementThenSet);
            lemma_coalesced(first, MergeRule::SetThenIncrement);
            lemma_coalesced(second, MergeRule::SetThenSet);
        },
        Pass::DeadLoops => {
            lemma_kept(instrs, crate::peephole::dataflow::dead_loop_marks(instrs), instrs.len());
        },
        Pass::RedundantSets => {
            lemma_kept(
                instrs,
                crate::peephole::dataflow::redundant_set_marks(instrs),
                instrs.len(),
            );
        },
        Pass::ReadClobber => {
            lemma_kept(instrs, crate::peephole::dataflow::clobbered_marks(instrs), instrs.len());
        },
        Pass::OffsetSort => {
            lemma_sorted_runs(instrs, instrs.len());
            let (done, run) = sorted_runs(instrs, instrs.len());
            lemma_sorted_run(run);
            lemma_concat(done, sorted_run(run));
        },
    }
}

/// A pass, run on a sequence and on the bodies of its loops, gives a
/// well-formed sequence for a well-formed sequence.
pub proof fn lemma_applied_well_formed(pass: Pass, instrs: Seq<Instr>)
    requires
        all_well_formed(instrs),
    ensures
        all_well_formed(applied(pass, instrs)),
    decreases instrs, 1nat,
{
    lemma_descended_well_formed(pass, instrs);
    lemma_rewritten_well_formed(pass, descended(pass, instrs));
}

proof fn lemma_descended_well_formed(pass: Pass, instrs: Seq<Instr>)
    requires
        all_well_formed(instrs),
    ensures
        all_well_formed(descended(pass, instrs)),
    decreases instrs, 0nat,
{
    if instrs.len() > 0 {
        lemma_part(instrs, 0, instrs.len() - 1);
        assert(instrs.drop_last() =~= instrs.subrange(0, instrs.len() - 1));
        lemma_descended_well_formed(pass, instrs.drop_last());
        assert(is_well_formed(instrs[instrs.len() - 1]));
        match instrs.last() {
            Instr::Loop { body, .. } => {
                lemma_applied_well_formed(pass, body);
            },
            _ => {},
        }
        lemma_push(descended(pass, instrs.drop_last()), descended(pass, instrs).last());
    }
}

/// One round of passes gives a well-formed program for a well-formed
/// program.
#[verifier::rlimit(20)]
pub proof fn lemma_optimized_once_well_formed(instrs: Seq<Instr>, passes: Selection)
    requires
        all_well_formed(instrs),
    ensures
        all_well_formed(optimized_once(instrs, passes).0),
{
    let a = if passes.combine_inc {
        applied(Pass::CombineIncrements, instrs)
    } else {
        instrs
    };
    let b = if passes.combine_ptr {
        applied(Pass::CombinePointerIncrements, a)
    } else {
        a
    };
    let c = if passes.known_zero {
        known_zero_annotated(b)
    } else {
        b
    };
    let d = if passes.multiply {
        applied(Pass::Multiply, c)
    } else {
        c
    };
    let e = if passes.zeroing_loop {
        applied(Pass::ZeroingLoops, d)
    } else {
        d
    };
    let f = if passes.combine_set {
        applied(Pass::CombineSets, e)
    } else {
        e
    };
    let g = if passes.dead_loop {
        applied(Pass::DeadLoops, f)
    } else {
        f
    };
    let h = if passes.redundant_set {
        redundant_sets_removed(g)
    } else {
        g
    };
    let i = if passes.read_clobber {
        applied(Pass::ReadClobber, h)
    } else {
        h
    };
    let j = if passes.pure_removal {
        pure_code_removed(i).0
    } else {
        i
    };
    let k = if passes.offset_sort {
        applied(Pass::OffsetSort, j)
    } else {
        j
    };
    lemma_applied_well_formed(Pass::CombineIncrements, instrs);
    lemma_applied_well_formed(Pass::CombinePointerIncrements, a);
    lemma_applied_well_formed(Pass::KnownZero, b);
    lemma_concat(seq![crate::peephole::leading_zero_set(b)], applied(Pass::KnownZero, b));
    lemma_applied_well_formed(Pass::Multiply, c);
    lemma_applied_well_formed(Pass::ZeroingLoops, d);
    lemma_applied_well_formed(Pass::CombineSets, e);
    lemma_applied_well_formed(Pass::DeadLoops, f);
    lemma_applied_well_formed(Pass::RedundantSets, g);
    let reduced = applied(Pass::RedundantSets, g);
    if reduced.len() > 0 {
        lemma_part(reduced, 1, reduced.len() as int);
        assert(reduced.drop_first() =~= reduced.subrange(1, reduced.len() as int));
    }
    lemma_applied_well_formed(Pass::ReadClobber, h);
    crate::peephole::pure_code::lemma_effect_end_bound(i);
    lemma_part(i, 0, effect_end(i) as int);
    assert(i.take(effect_end(i) as int) =~= i.subrange(0, effect_end(i) as int));
    lemma_applied_well_formed(Pass::OffsetSort, j);
    assert(optimized_once(instrs, passes).0 == k);
}

proof fn lemma_optimized_from_well_formed(
    previous: Seq<Instr>,
    result: Seq<Instr>,
    warnings: Seq<WarningView>,
    passes: Selection,
    rounds: nat,
)
    requires
        all_well_formed(result),
    ensures
        all_well_formed(optimized_from(previous, result, warnings, passes, rounds).0),
    decreases rounds,
{
    if rounds > 0 && previous != result {
        let (next, warning) = optimized_once(result, passes);
        lemma_optimized_once_well_formed(result, passes);
        lemma_optimized_from_well_formed(
            result,
            next,
            with_warning(warnings, warning),
            passes,
            (rounds - 1) as nat,
        );
    }
}

/// The optimizer gives a well-formed program for a well-formed program.
pub proof fn lemma_optimized_well_formed(instrs: Seq<Instr>, passes: Selection)
    requires
        all_well_formed(instrs),
    ensures
        all_well_formed(optimized(instrs, passes).0),
{
    let (first, warning) = optimized_once(instrs, passes);
    lemma_optimized_once_well_formed(instrs, passes);
    lemma_optimized_from_well_formed(
        instrs,
        first,
        with_warning(Seq::empty(), warning),
        passes,
        MAX_OPT_ITERATIONS as nat,
    );
}

/// What the optimizer makes of what the parser gives is well formed: no
/// multiply-move in it has a change for its own cell.
pub proof fn lemma_parsed_then_optimized(source: Seq<u8>, passes: Selection)
    requires
        source.len() <= usize::MAX,
        parsed(source) is Ok,
    ensures
        all_well_formed(parsed(source)->Ok_0),
        all_well_formed(optimized(parsed(source)->Ok_0, passes).0),
{
    let program = parsed(source)->Ok_0;
    lemma_parsed_shape(source);
    assert forall|i: int| 0 <= i < program.len() implies is_well_formed(#[trigger] program[i]) by {
        lemma_parsed_is_well_formed(program[i]);
    }
    lemma_optimized_well_formed(program, passes);
}

} // verus!
