//! The peephole optimizer: passes that rewrite a program into a shorter
//! one that does the same, run in a fixed order until nothing changes.

use vstd::prelude::*;
use crate::bfir::{
    AstNode, Instr, clone_node, clone_nodes, get_position, lemma_deep_view_push, lemma_view_loop,
    position_of, same_node, same_nodes,
};
use crate::diagnostics::{Warning, WarningView};
use crate::peephole::coalesce::{MergeRule, coalesce, coalesced};
use crate::peephole::dataflow::{
    drop_clobbered, drop_dead_loops, drop_marked, drop_redundant_sets, unmarked,
    without_clobbered, without_dead_loops, without_redundant_sets,
};
use crate::peephole::known_zero::{note_zeros, start_of, start_position, zero_set_at, zeros_noted};
use crate::peephole::multiply::{multiplied, multiply_loop, zero_loop, zeroed};
use crate::peephole::pure_code::{pure_code_removed, remove_pure_code};
use crate::peephole::queries::{is_zero_set, sets_zero};
use crate::peephole::selection::{Selection, select_passes, selected};
use crate::peephole::sorting::{offsets_sorted, sort_runs};

pub mod coalesce;
pub mod dataflow;
pub mod known_zero;
pub mod multiply;
pub mod pure_code;
pub mod queries;
pub mod selection;
pub mod sorting;

verus! {

/// After this many further rounds without a fixed point the optimizer
/// gives up.
pub const MAX_OPT_ITERATIONS: u64 = 40;

/// The passes that work on a sequence and on the bodies of its loops.
#[derive(Debug, Clone, Copy, PartialEq, Eq, Structural)]
pub enum Pass {
    CombineIncrements,
    CombinePointerIncrements,
    KnownZero,
    Multiply,
    ZeroingLoops,
    CombineSets,
    DeadLoops,
    RedundantSets,
    ReadClobber,
    OffsetSort,
}

/// Whether an instruction is an increment by zero.
pub open spec fn is_zero_increment(instr: Instr) -> bool {
    instr matches Instr::Increment { amount: 0, .. }
}

/// Whether an instruction is a pointer move by zero.
pub open spec fn is_zero_move(instr: Instr) -> bool {
    instr matches Instr::PointerIncrement { amount: 0, .. }
}

/// What a pass makes of one sequence, the bodies of its loops left alone.
pub open spec fn rewritten(pass: Pass, instrs: Seq<Instr>) -> Seq<Instr> {
    match pass {
        Pass::CombineIncrements => {
            let merged = coalesced(instrs, MergeRule::Increments);
            unmarked(merged, Seq::new(merged.len(), |i: int| is_zero_increment(merged[i])))
        },
        Pass::CombinePointerIncrements => {
            let merged = coalesced(instrs, MergeRule::PointerIncrements);
            unmarked(merged, Seq::new(merged.len(), |i: int| is_zero_move(merged[i])))
        },
        Pass::KnownZero => zeros_noted(instrs),
        Pass::Multiply => instrs.map_values(|instr: Instr| multiplied(instr)),
        Pass::ZeroingLoops => instrs.map_values(|instr: Instr| zeroed(instr)),
        Pass::CombineSets => coalesced(
            coalesced(coalesced(instrs, MergeRule::IncrementThenSet), MergeRule::SetThenIncrement),
            MergeRule::SetThenSet,
        ),
        Pass::DeadLoops => without_dead_loops(instrs),
        Pass::RedundantSets => without_redundant_sets(instrs),
        Pass::ReadClobber => without_clobbered(instrs),
        Pass::OffsetSort => offsets_sorted(instrs),
    }
}

/// What a pass makes of a sequence: it first works on the body of every
/// loop, then on the sequence itself.
pub open spec fn applied(pass: Pass, instrs: Seq<Instr>) -> Seq<Instr>
    decreases instrs, 1nat,
{
    rewritten(pass, descended(pass, instrs))
}

/// A sequence with the pass applied to the body of each of its loops.
pub open spec fn descended(pass: Pass, instrs: Seq<Instr>) -> Seq<Instr>
    decreases instrs, 0nat,
{
    if instrs.len() == 0 {
        Seq::empty()
    } else {
        descended(pass, instrs.drop_last()).push(
            match instrs.last() {
                Instr::Loop { body, position } => Instr::Loop {
                    body: applied(pass, body),
                    position,
                },
                other => other,
            },
        )
    }
}

fn drop_zero_increments(instrs: &Vec<AstNode>) -> (out: Vec<AstNode>)
    ensures
        out.deep_view() == unmarked(
            instrs.deep_view(),
            Seq::new(instrs.len() as nat, |i: int| is_zero_increment(instrs.deep_view()[i])),
        ),
{
    let mut marks: Vec<bool> = Vec::new();
    let mut i: usize = 0;
    while i < instrs.len()
        invariant
            i <= instrs.len(),
            marks@ == Seq::new(i as nat, |k: int| is_zero_increment(instrs.deep_view()[k])),
        decreases instrs.len() - i,
    {
        assert(instrs.deep_view()[i as int] == instrs[i as int]@);
        let zero = match &instrs[i] {
            AstNode::Increment { amount, .. } => *amount == 0,
            _ => false,
        };
        marks.push(zero);
        i += 1;
        assert(marks@ =~= Seq::new(i as nat, |k: int| is_zero_increment(instrs.deep_view()[k])));
    }
    drop_marked(instrs, &marks)
}

fn drop_zero_moves(instrs: &Vec<AstNode>) -> (out: Vec<AstNode>)
    ensures
        out.deep_view() == unmarked(
            instrs.deep_view(),
            Seq::new(instrs.len() as nat, |i: int| is_zero_move(instrs.deep_view()[i])),
        ),
{
    let mut marks: Vec<bool> = Vec::new();
    let mut i: usize = 0;
    while i < instrs.len()
        invariant
            i <= instrs.len(),
            marks@ == Seq::new(i as nat, |k: int| is_zero_move(instrs.deep_view()[k])),
        decreases instrs.len() - i,
    {
        assert(instrs.deep_view()[i as int] == instrs[i as int]@);
        let zero = match &instrs[i] {
            AstNode::PointerIncrement { amount, .. } => *amount == 0,
            _ => false,
        };
        marks.push(zero);
        i += 1;
        assert(marks@ =~= Seq::new(i as nat, |k: int| is_zero_move(instrs.deep_view()[k])));
    }
    drop_marked(instrs, &marks)
}

fn zero_each(instrs: &Vec<AstNode>) -> (out: Vec<AstNode>)
    ensures
        out.deep_view() == instrs.deep_view().map_values(|instr: Instr| zeroed(instr)),
{
    let mut out: Vec<AstNode> = Vec::new();
    let mut i: usize = 0;
    while i < instrs.len()
        invariant
            i <= instrs.len(),
            out.len() == i,
            forall|k: int| 0 <= k < i ==> (#[trigger] out[k])@ == zeroed(instrs[k]@),
        decreases instrs.len() - i,
    {
        out.push(zero_loop(&instrs[i]));
        i += 1;
    }
    assert(out.deep_view() =~= instrs.deep_view().map_values(|instr: Instr| zeroed(instr)));
    out
}

fn multiply_each(instrs: &Vec<AstNode>) -> (out: Vec<AstNode>)
    ensures
        out.deep_view() == instrs.deep_view().map_values(|instr: Instr| multiplied(instr)),
{
    let mut out: Vec<AstNode> = Vec::new();
    let mut i: usize = 0;
    while i < instrs.len()
        invariant
            i <= instrs.len(),
            out.len() == i,
            forall|k: int| 0 <= k < i ==> (#[trigger] out[k])@ == multiplied(instrs[k]@),
        decreases instrs.len() - i,
    {
        out.push(multiply_loop(&instrs[i]));
        i += 1;
    }
    assert(out.deep_view() =~= instrs.deep_view().map_values(|instr: Instr| multiplied(instr)));
    out
}

/// Runs a pass on one sequence, the bodies of its loops left alone.
pub fn rewrite(pass: Pass, instrs: Vec<AstNode>) -> (out: Vec<AstNode>)
    ensures
        out.deep_view() == rewritten(pass, instrs.deep_view()),
{
    match pass {
        Pass::CombineIncrements => {
            let merged = coalesce(instrs, MergeRule::Increments);
            drop_zero_increments(&merged)
        },
        Pass::CombinePointerIncrements => {
            let merged = coalesce(instrs, MergeRule::PointerIncrements);
            drop_zero_moves(&merged)
        },
        Pass::KnownZero => note_zeros(&instrs),
        Pass::Multiply => multiply_each(&instrs),
        Pass::ZeroingLoops => zero_each(&instrs),
        Pass::CombineSets => coalesce(
            coalesce(coalesce(instrs, MergeRule::IncrementThenSet), MergeRule::SetThenIncrement),
            MergeRule::SetThenSet,
        ),
        Pass::DeadLoops => drop_dead_loops(&instrs),
        Pass::RedundantSets => drop_redundant_sets(&instrs),
        Pass::ReadClobber => drop_clobbered(&instrs),
        Pass::OffsetSort => sort_runs(&instrs),
    }
}

/// Runs a pass on a sequence and, before that, on the bodies of its loops.
pub fn run_pass(pass: Pass, instrs: &Vec<AstNode>) -> (out: Vec<AstNode>)
    ensures
        out.deep_view() == applied(pass, instrs.deep_view()),
    decreases instrs, 1nat,
{
    rewrite(pass, map_loops(pass, instrs))
}

/// Runs a pass on the body of each loop of a sequence.
pub fn map_loops(pass: Pass, instrs: &Vec<AstNode>) -> (out: Vec<AstNode>)
    ensures
        out.deep_view() == descended(pass, instrs.deep_view()),
    decreases instrs, 0nat,
{
    let mut out: Vec<AstNode> = Vec::new();
    let mut i: usize = 0;
    assert(out.deep_view() =~= Seq::empty());
    assert(instrs.deep_view().take(0) =~= Seq::empty());
    while i < instrs.len()
        invariant
            i <= instrs.len(),
            out.deep_view() == descended(pass, instrs.deep_view().take(i as int)),
        decreases instrs.len() - i,
    {
        proof {
            let next = instrs.deep_view().take(i + 1);
            assert(next.drop_last() =~= instrs.deep_view().take(i as int));
            assert(next.last() == instrs[i as int]@);
        }
        let node = match &instrs[i] {
            AstNode::Loop { body, position } => {
                proof {
                    lemma_view_loop(*body, *position);
                }
                let inner = run_pass(pass, body);
                proof {
                    lemma_view_loop(inner, *position);
                }
                AstNode::Loop { body: inner, position: *position }
            },
            other => clone_node(other),
        };
        let ghost before = out;
        out.push(node);
        proof {
            lemma_deep_view_push(before, out, node);
        }
        i += 1;
    }
    assert(instrs.deep_view().take(i as int) =~= instrs.deep_view());
    out
}

/// Merges neighbouring increments of one cell into one, and drops
/// increments by zero.
pub fn combine_increments(instrs: Vec<AstNode>) -> (out: Vec<AstNode>)
    ensures
        out.deep_view() == applied(Pass::CombineIncrements, instrs.deep_view()),
{
    run_pass(Pass::CombineIncrements, &instrs)
}

/// Merges neighbouring pointer moves into one, and drops moves by zero.
pub fn combine_ptr_increments(instrs: Vec<AstNode>) -> (out: Vec<AstNode>)
    ensures
        out.deep_view() == applied(Pass::CombinePointerIncrements, instrs.deep_view()),
{
    run_pass(Pass::CombinePointerIncrements, &instrs)
}

/// Drops the increments and sets that a read overwrites before anything
/// uses them.
pub fn remove_read_clobber(instrs: Vec<AstNode>) -> (out: Vec<AstNode>)
    ensures
        out.deep_view() == applied(Pass::ReadClobber, instrs.deep_view()),
{
    run_pass(Pass::ReadClobber, &instrs)
}

/// Replaces each loop that only counts its cell down by a set to zero.
pub fn zeroing_loops(instrs: Vec<AstNode>) -> (out: Vec<AstNode>)
    ensures
        out.deep_view() == applied(Pass::ZeroingLoops, instrs.deep_view()),
{
    run_pass(Pass::ZeroingLoops, &instrs)
}

/// Drops the loops that start on a cell that was just set to zero.
pub fn remove_dead_loops(instrs: Vec<AstNode>) -> (out: Vec<AstNode>)
    ensures
        out.deep_view() == applied(Pass::DeadLoops, instrs.deep_view()),
{
    run_pass(Pass::DeadLoops, &instrs)
}

/// Sorts every stretch of increments, sets and pointer moves by the
/// cell that each acts on.
pub fn sort_by_offset(instrs: Vec<AstNode>) -> (out: Vec<AstNode>)
    ensures
        out.deep_view() == applied(Pass::OffsetSort, instrs.deep_view()),
{
    run_pass(Pass::OffsetSort, &instrs)
}

/// Merges an increment into the set behind it, an increment into the
/// set before it, and a set into the set behind it, where they act on
/// one cell.
pub fn combine_set_and_increments(instrs: Vec<AstNode>) -> (out: Vec<AstNode>)
    ensures
        out.deep_view() == applied(Pass::CombineSets, instrs.deep_view()),
{
    run_pass(Pass::CombineSets, &instrs)
}

/// Replaces each loop that adds multiples of its cell to other cells by
/// a multiply-move.
pub fn extract_multiply(instrs: Vec<AstNode>) -> (out: Vec<AstNode>)
    ensures
        out.deep_view() == applied(Pass::Multiply, instrs.deep_view()),
{
    run_pass(Pass::Multiply, &instrs)
}

/// Drops the sets to zero behind a loop or a multiply-move that left
/// the cell at zero.
pub fn remove_redundant_sets_inner(instrs: Vec<AstNode>) -> (out: Vec<AstNode>)
    ensures
        out.deep_view() == applied(Pass::RedundantSets, instrs.deep_view()),
{
    run_pass(Pass::RedundantSets, &instrs)
}

/// A program without the sets to zero of cells that are zero: those behind
/// a loop or a multiply-move, in the program and in the bodies of its
/// loops, and one at the very start, where the tape is still zero.
pub open spec fn redundant_sets_removed(instrs: Seq<Instr>) -> Seq<Instr> {
    let reduced = applied(Pass::RedundantSets, instrs);
    if reduced.len() > 0 && is_zero_set(reduced[0]) {
        reduced.drop_first()
    } else {
        reduced
    }
}

/// Drops the sets to zero of cells that are zero, the one at the start
/// of the program included.
pub fn remove_redundant_sets(instrs: Vec<AstNode>) -> (out: Vec<AstNode>)
    ensures
        out.deep_view() == redundant_sets_removed(instrs.deep_view()),
{
    let mut reduced = run_pass(Pass::RedundantSets, &instrs);
    if reduced.len() > 0 {
        assert(reduced.deep_view()[0] == reduced[0]@);
        if sets_zero(&reduced[0]) {
            let ghost before = reduced;
            reduced.remove(0);
            assert(reduced.deep_view() =~= before.deep_view().drop_first());
        }
    }
    reduced
}

/// Puts a set to zero behind each loop.
pub fn annotate_known_zero_inner(instrs: Vec<AstNode>) -> (out: Vec<AstNode>)
    ensures
        out.deep_view() == applied(Pass::KnownZero, instrs.deep_view()),
{
    run_pass(Pass::KnownZero, &instrs)
}

/// The set to zero that stands for the zeroed tape at the start of a
/// program: at the start of the first instruction's position.
pub open spec fn leading_zero_set(instrs: Seq<Instr>) -> Instr {
    zero_set_at(
        if instrs.len() == 0 {
            None
        } else {
            start_of(position_of(instrs[0]))
        },
    )
}

/// A program with a set to zero at its start, unless it starts with that
/// very set, and after each loop, in the program and in the bodies of its
/// loops.
pub open spec fn known_zero_annotated(instrs: Seq<Instr>) -> Seq<Instr> {
    let inner = applied(Pass::KnownZero, instrs);
    if instrs.len() > 0 && instrs[0] == leading_zero_set(instrs) {
        inner
    } else {
        seq![leading_zero_set(instrs)] + inner
    }
}

/// Puts a set to zero at the start of the program and behind each loop.
pub fn annotate_known_zero(instrs: Vec<AstNode>) -> (out: Vec<AstNode>)
    ensures
        out.deep_view() == known_zero_annotated(instrs.deep_view()),
{
    let position = if instrs.len() == 0 {
        None
    } else {
        assert(instrs.deep_view()[0] == instrs[0]@);
        start_position(get_position(&instrs[0]))
    };
    let set_instr = AstNode::SetCell { amount: 0, offset: 0, position };
    let leads = instrs.len() > 0 && same_node(&instrs[0], &set_instr);
    let mut inner = run_pass(Pass::KnownZero, &instrs);
    if leads {
        inner
    } else {
        let ghost before = inner;
        inner.insert(0, set_instr);
        assert(inner.deep_view() =~= seq![set_instr@] + before.deep_view());
        inner
    }
}

/// A warning added to a list, if there is one.
pub open spec fn with_warning(warnings: Seq<WarningView>, warning: Option<WarningView>) -> Seq<
    WarningView,
> {
    match warning {
        Some(w) => warnings.push(w),
        None => warnings,
    }
}

/// One round of the selected passes, in their fixed order, and the
/// warning of the round, if any.
pub open spec fn optimized_once(instrs: Seq<Instr>, passes: Selection) -> (
    Seq<Instr>,
    Option<WarningView>,
) {
    let a = if passes.combine_inc {
        applied(Pass::CombineIncrements, instrs)
    } else {
        instrs
    };
    let b = if passes.combine_ptr {
        applied(Pass::CombinePointerIncrements, a)
    } else {
        a
    };
    let c = if passes.known_zero {
        known_zero_annotated(b)
    } else {
        b
    };
    let d = if passes.multiply {
        applied(Pass::Multiply, c)
    } else {
        c
    };
    let e = if passes.zeroing_loop {
        applied(Pass::ZeroingLoops, d)
    } else {
        d
    };
    let f = if passes.combine_set {
        applied(Pass::CombineSets, e)
    } else {
        e
    };
    let g = if passes.dead_loop {
        applied(Pass::DeadLoops, f)
    } else {
        f
    };
    let h = if passes.redundant_set {
        redundant_sets_removed(g)
    } else {
        g
    };
    let i = if passes.read_clobber {
        applied(Pass::ReadClobber, h)
    } else {
        h
    };
    let (j, warning) = if passes.pure_removal {
        pure_code_removed(i)
    } else {
        (i, None)
    };
    let k = if passes.offset_sort {
        applied(Pass::OffsetSort, j)
    } else {
        j
    };
    (k, warning)
}

/// One round of the selected passes.
#[verifier::rlimit(20)]
pub fn optimize_selected(instrs: Vec<AstNode>, passes: &Selection) -> (result: (
    Vec<AstNode>,
    Option<Warning>,
))
    ensures
        result.0.deep_view() == optimized_once(instrs.deep_view(), *passes).0,
        match optimized_once(instrs.deep_view(), *passes).1 {
            Some(warning) => result.1 matches Some(w) && w@ == warning,
            None => result.1 is None,
        },
{
    let mut instrs = instrs;
    if passes.combine_inc {
        instrs = combine_increments(instrs);
    }
    if passes.combine_ptr {
        instrs = combine_ptr_increments(instrs);
    }
    if passes.known_zero {
        instrs = annotate_known_zero(instrs);
    }
    if passes.multiply {
        instrs = extract_multiply(instrs);
    }
    if passes.zeroing_loop {
        instrs = zeroing_loops(instrs);
    }
    if passes.combine_set {
        instrs = combine_set_and_increments(instrs);
    }
    if passes.dead_loop {
        instrs = remove_dead_loops(instrs);
    }
    if passes.redundant_set {
        instrs = remove_redundant_sets(instrs);
    }
    if passes.read_clobber {
        instrs = remove_read_clobber(instrs);
    }
    let mut warning: Option<Warning> = None;
    if passes.pure_removal {
        let (removed, pure_warning) = remove_pure_code(instrs);
        instrs = removed;
        warning = pure_warning;
    }
    if passes.offset_sort {
        instrs = sort_by_offset(instrs);
    }
    (instrs, warning)
}

/// One round of the passes that the specification names; all of them if
/// there is none.
pub fn optimize_once(instrs: Vec<AstNode>, pass_specification: &Option<String>) -> (result: (
    Vec<AstNode>,
    Option<Warning>,
))
    ensures
        result.0.deep_view() == optimized_once(
            instrs.deep_view(),
            selected(*pass_specification),
        ).0,
        match optimized_once(instrs.deep_view(), selected(*pass_specification)).1 {
            Some(warning) => result.1 matches Some(w) && w@ == warning,
            None => result.1 is None,
        },
{
    let passes = select_passes(pass_specification);
    optimize_selected(instrs, &passes)
}

/// Rounds of the passes from a program `previous` and what the last
/// round made of it: done when the round changed nothing; given up when
/// no rounds are left; else one more round. With the program come the
/// warnings of all rounds and whether a fixed point was reached.
pub open spec fn optimized_from(
    previous: Seq<Instr>,
    result: Seq<Instr>,
    warnings: Seq<WarningView>,
    passes: Selection,
    rounds: nat,
) -> (Seq<Instr>, Seq<WarningView>, bool)
    decreases rounds,
{
    if rounds == 0 {
        (result, warnings, false)
    } else if previous == result {
        (result, warnings, true)
    } else {
        let (next, warning) = optimized_once(result, passes);
        optimized_from(result, next, with_warning(warnings, warning), passes, (rounds - 1) as nat)
    }
}

/// A program optimized: one round, then up to `MAX_OPT_ITERATIONS` more
/// until a round changes nothing.
pub open spec fn optimized(instrs: Seq<Instr>, passes: Selection) -> (
    Seq<Instr>,
    Seq<WarningView>,
    bool,
) {
    let (first, warning) = optimized_once(instrs, passes);
    optimized_from(
        instrs,
        first,
        with_warning(Seq::empty(), warning),
        passes,
        MAX_OPT_ITERATIONS as nat,
    )
}

/// Optimizes a program with the passes that the specification names, all
/// of them if there is none. Returns the program, the warnings, and
/// whether a fixed point was reached.
#[verifier::rlimit(20)]
pub fn optimize(instrs: Vec<AstNode>, pass_specification: &Option<String>) -> (result: (
    Vec<AstNode>,
    Vec<Warning>,
    bool,
))
    ensures
        ({
            let (program, warnings, converged) = optimized(
                instrs.deep_view(),
                selected(*pass_specification),
            );
            &&& result.0.deep_view() == program
            &&& result.1.deep_view() == warnings
            &&& result.2 == converged
        }),
{
    let passes = select_passes(pass_specification);
    let mut warnings: Vec<Warning> = Vec::new();
    let mut prev = clone_nodes(&instrs);
    let (first, warning) = optimize_selected(instrs, &passes);
    let mut result = first;
    assert(warnings.deep_view() =~= Seq::empty());
    match warning {
        Some(w) => {
            let ghost before = warnings;
            warnings.push(w);
            assert(warnings.deep_view() =~= before.deep_view().push(w@));
        },
        None => {},
    }
    let ghost goal = optimized(prev.deep_view(), passes);
    let mut round: u64 = 0;
    while round < MAX_OPT_ITERATIONS
        invariant
            round <= MAX_OPT_ITERATIONS,
            goal == optimized(instrs.deep_view(), selected(*pass_specification)),
            passes == selected(*pass_specification),
            optimized_from(
                prev.deep_view(),
                result.deep_view(),
                warnings.deep_view(),
                passes,
                (MAX_OPT_ITERATIONS - round) as nat,
            ) == goal,
        decreases MAX_OPT_ITERATIONS - round,
    {
        if same_nodes(&prev, &result) {
            return (result, warnings, true);
        }
        prev = clone_nodes(&result);
        let (new_result, new_warning) = optimize_selected(result, &passes);
        match new_warning {
            Some(w) => {
                let ghost before = warnings;
                warnings.push(w);
                assert(warnings.deep_view() =~= before.deep_view().push(w@));
            },
            None => {},
        }
        result = new_result;
        round += 1;
    }
    (result, warnings, false)
}

} // verus!
