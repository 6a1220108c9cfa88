//! Optimizing what is already optimized, and noting zeros where they are
//! already noted.

use vstd::prelude::*;
use crate::bfir::{Instr, position_of};
use crate::diagnostics::WarningView;
use crate::peephole::known_zero::{annotated, end_of, zero_set_at};
use crate::peephole::selection::Selection;
use crate::peephole::{
    MAX_OPT_ITERATIONS, Pass, applied, descended, known_zero_annotated, leading_zero_set, optimized, optimized_from, optimized_once,
};

verus! {

proof fn lemma_rounds_end_on_fixed_point(
    previous: Seq<Instr>,
    result: Seq<Instr>,
    warnings: Seq<WarningView>,
    passes: Selection,
    rounds: nat,
)
    requires
        result == optimized_once(previous, passes).0,
        optimized_from(previous, result, warnings, passes, rounds).2,
    ensures
        ({
            let end = optimized_from(previous, result, warnings, passes, rounds).0;
            optimized_once(end, passes).0 == end
        }),
    decreases rounds,
{
    if rounds > 0 && previous != result {
        let (next, warning) = optimized_once(result, passes);
        lemma_rounds_end_on_fixed_point(
            result,
            next,
            crate::peephole::with_warning(warnings, warning),
            passes,
            (rounds - 1) as nat,
        );
    }
}

/// Where the optimizer has reached a fixed point, optimizing its result
/// again gives the same program, at once and without a warning.
pub proof fn lemma_optimize_fixed_point(instrs: Seq<Instr>, passes: Selection)
    requires
        optimized(instrs, passes).2,
    ensures
        optimized(optimized(instrs, passes).0, passes).0 == optimized(instrs, passes).0,
        optimized(optimized(instrs, passes).0, passes).2,
{
    let (first, warning) = optimized_once(instrs, passes);
    lemma_rounds_end_on_fixed_point(
        instrs,
        first,
        crate::peephole::with_warning(Seq::empty(), warning),
        passes,
        MAX_OPT_ITERATIONS as nat,
    );
}

/// Whether every loop of a sequence, and of the bodies of its loops, is
/// followed by the set to zero that stands at the loop's end.
pub open spec fn zeros_are_noted(instrs: Seq<Instr>) -> bool
    decreases instrs,
{
    forall|i: int|
        0 <= i < instrs.len() ==> match #[trigger] instrs[i] {
            Instr::Loop { body, position } => {
                &&& zeros_are_noted(body)
                &&& i + 1 < instrs.len()
                &&& instrs[i + 1] == zero_set_at(end_of(position))
            },
            _ => true,
        }
}

/// Where zeros are noted in the bodies, descending into them changes
/// nothing.
proof fn lemma_descended_noted(instrs: Seq<Instr>)
    requires
        forall|i: int|
            0 <= i < instrs.len() ==> match #[trigger] instrs[i] {
                Instr::Loop { body, .. } => zeros_are_noted(body),
                _ => true,
            },
    ensures
        descended(Pass::KnownZero, instrs) == instrs,
    decreases instrs, 0nat,
{
    if instrs.len() > 0 {
        let front = instrs.drop_last();
        assert forall|i: int| 0 <= i < front.len() implies match #[trigger] front[i] {
            Instr::Loop { body, .. } => zeros_are_noted(body),
            _ => true,
        } by {
            assert(front[i] == instrs[i]);
        }
        lemma_descended_noted(front);
        match instrs.last() {
            Instr::Loop { body, .. } => {
                assert(instrs[instrs.len() - 1] == instrs.last());
                lemma_noted_stays(body);
            },
            _ => {},
        }
        assert(front.push(instrs.last()) =~= instrs);
    }
}

proof fn lemma_annotated_noted(instrs: Seq<Instr>, n: nat)
    requires
        n <= instrs.len(),
        forall|i: int|
            0 <= i < instrs.len() && #[trigger] instrs[i] is Loop ==> i + 1 < instrs.len()
                && instrs[i + 1] == zero_set_at(end_of(position_of(instrs[i]))),
    ensures
        annotated(instrs, n) == instrs.take(n as int),
    decreases n,
{
    if n == 0 {
        assert(instrs.take(0) =~= Seq::<Instr>::empty());
    } else {
        lemma_annotated_noted(instrs, (n - 1) as nat);
        assert(instrs[n - 1] is Loop ==> instrs[n as int] == zero_set_at(
            end_of(position_of(instrs[n - 1])),
        ));
        assert(instrs.take(n - 1).push(instrs[n - 1]) =~= instrs.take(n as int));
    }
}

/// Where zeros are noted, noting them again changes nothing.
pub proof fn lemma_noted_stays(instrs: Seq<Instr>)
    requires
        zeros_are_noted(instrs),
    ensures
        applied(Pass::KnownZero, instrs) == instrs,
    decreases instrs, 1nat,
{
    assert forall|i: int| 0 <= i < instrs.len() implies match #[trigger] instrs[i] {
        Instr::Loop { body, .. } => zeros_are_noted(body),
        _ => true,
    } by {}
    lemma_descended_noted(instrs);
    assert forall|i: int|
        0 <= i < instrs.len() && #[trigger] instrs[i] is Loop implies i + 1 < instrs.len()
        && instrs[i + 1] == zero_set_at(end_of(position_of(instrs[i]))) by {}
    lemma_annotated_noted(instrs, instrs.len());
    assert(instrs.take(instrs.len() as int) =~= instrs);
}

/// What noting zeros makes of the first `n` instructions: every loop in
/// it is followed by its set, and it ends with a loop only if that loop
/// was followed by its set already.
#[verifier::rlimit(20)]
proof fn lemma_annotated_shape(instrs: Seq<Instr>, n: nat)
    requires
        n <= instrs.len(),
        forall|i: int|
            0 <= i < instrs.len() ==> match #[trigger] instrs[i] {
                Instr::Loop { body, .. } => zeros_are_noted(body),
                _ => true,
            },
    ensures
        ({
            let out = annotated(instrs, n);
            &&& out.len() >= n
            &&& forall|i: int|
                0 <= i < out.len() ==> match #[trigger] out[i] {
                    Instr::Loop { body, position } => {
                        &&& zeros_are_noted(body)
                        &&& if i + 1 < out.len() {
                            out[i + 1] == zero_set_at(end_of(position))
                        } else {
                            n < instrs.len() && instrs[n as int] == zero_set_at(end_of(position))
                        }
                    },
                    _ => true,
                }
            &&& n > 0 && !(instrs[0] is Loop) ==> out[0] == instrs[0]
            &&& n > 0 && instrs[0] is Loop ==> out[0] == instrs[0]
        }),
    decreases n,
{
    if n > 0 {
        lemma_annotated_shape(instrs, (n - 1) as nat);
        let before = annotated(instrs, (n - 1) as nat);
        let out = annotated(instrs, n);
        let last = instrs[n - 1];
        assert forall|i: int| 0 <= i < out.len() implies match #[trigger] out[i] {
            Instr::Loop { body, position } => {
                &&& zeros_are_noted(body)
                &&& if i + 1 < out.len() {
                    out[i + 1] == zero_set_at(end_of(position))
                } else {
                    n < instrs.len() && instrs[n as int] == zero_set_at(end_of(position))
                }
            },
            _ => true,
        } by {
            if i < before.len() {
                assert(out[i] == before[i]);
                if i + 1 < before.len() {
                    assert(out[i + 1] == before[i + 1]);
                } else {
                    assert(out[i + 1] == last);
                }
            }
        }
    }
}

/// What noting zeros gives has its zeros noted.
pub proof fn lemma_applied_noted(instrs: Seq<Instr>)
    ensures
        zeros_are_noted(applied(Pass::KnownZero, instrs)),
        applied(Pass::KnownZero, instrs).len() >= instrs.len(),
        instrs.len() > 0 && !(instrs[0] is Loop) ==> applied(Pass::KnownZero, instrs)[0]
            == instrs[0],
    decreases instrs, 1nat,
{
    lemma_descended_shape(instrs);
    let inner = descended(Pass::KnownZero, instrs);
    lemma_annotated_shape(inner, inner.len());
}

proof fn lemma_descended_shape(instrs: Seq<Instr>)
    ensures
        descended(Pass::KnownZero, instrs).len() == instrs.len(),
        forall|i: int|
            0 <= i < instrs.len() ==> match #[trigger] descended(Pass::KnownZero, instrs)[i] {
                Instr::Loop { body, .. } => zeros_are_noted(body) && instrs[i] is Loop,
                other => other == instrs[i],
            },
    decreases instrs, 0nat,
{
    if instrs.len() > 0 {
        lemma_descended_shape(instrs.drop_last());
        match instrs.last() {
            Instr::Loop { body, .. } => {
                lemma_applied_noted(body);
            },
            _ => {},
        }
        let out = descended(Pass::KnownZero, instrs);
        assert forall|i: int| 0 <= i < instrs.len() implies match #[trigger] out[i] {
            Instr::Loop { body, .. } => zeros_are_noted(body) && instrs[i] is Loop,
            other => other == instrs[i],
        } by {
            if i < instrs.len() - 1 {
                assert(out[i] == descended(Pass::KnownZero, instrs.drop_last())[i]);
                assert(instrs.drop_last()[i] == instrs[i]);
            }
        }
    }
}

/// Noting the known zeros of a program in which they are noted changes
/// nothing: the second run finds the set at the start and the set after
/// each loop in place.
pub proof fn lemma_known_zero_idempotent(instrs: Seq<Instr>)
    ensures
        known_zero_annotated(known_zero_annotated(instrs)) == known_zero_annotated(instrs),
{
    let inner = applied(Pass::KnownZero, instrs);
    let once = known_zero_annotated(instrs);
    lemma_applied_noted(instrs);
    let lead = leading_zero_set(instrs);
    if instrs.len() > 0 && instrs[0] == lead {
        assert(once == inner);
        assert(once[0] == instrs[0]);
    } else {
        assert(once == seq![lead] + inner);
        assert(once[0] == lead);
        assert forall|i: int| 0 <= i < once.len() implies match #[trigger] once[i] {
            Instr::Loop { body, position } => {
                &&& zeros_are_noted(body)
                &&& i + 1 < once.len()
                &&& once[i + 1] == zero_set_at(end_of(position))
            },
            _ => true,
        } by {
            if i > 0 {
                assert(once[i] == inner[i - 1]);
                if once[i] is Loop {
                    assert(once[i + 1] == inner[i]);
                }
            }
        }
    }
    assert(zeros_are_noted(once));
    assert(leading_zero_set(once) == once[0]);
    lemma_noted_stays(once);
}

} // verus!
