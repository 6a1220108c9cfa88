//! Loops that count a cell down, and sets to zero of cells that are zero.

use vstd::prelude::*;
use crate::bfir::{Cell, Instr, Position};
use crate::peephole::known_zero::{annotated, end_of, zero_set_at, zeros_noted};
use crate::peephole::multiply::zeroed;
use crate::peephole::queries::is_zero_set;
use crate::semantics::{
    Machine, effect, equivalent, eval, lemma_eval_concat, lemma_eval_is_run, lemma_eval_simple,
    lemma_eval_step, lemma_same_is_equal, run, run_one,
};
use crate::theorems::equivalence::{
    lemma_equivalent_concat, lemma_equivalent_refl, lemma_eval_loop_zero, lemma_mapped_equivalent,
    lemma_run_single, lemma_with_same_cell,
};

verus! {

/// How many times a cell can be decremented before it is zero.
pub open spec fn turns(value: Cell) -> nat {
    if value >= 0 {
        value as nat
    } else {
        (value + 256) as nat
    }
}

/// A loop that only decrements its cell ends with the cell at zero and
/// the rest as it was.
pub proof fn lemma_countdown(body: Seq<Instr>, position: Option<Position>, m: Machine, fuel: nat)
    requires
        body.len() == 1,
        body[0] matches Instr::Increment { amount: -1, offset: 0, .. },
        fuel == turns(m.current()),
    ensures
        run_one(Instr::Loop { body, position }, m, fuel) == Some(m.with_cell(m.ptr, 0)),
    decreases fuel,
{
    let instr = Instr::Loop { body, position };
    if m.current() == 0 {
        lemma_with_same_cell(m, m.ptr);
    } else {
        let after = effect(body[0], m);
        assert(body =~= seq![body[0]]);
        lemma_run_single(body[0], m, (fuel - 1) as nat);
        assert(run(body, m, (fuel - 1) as nat) == Some(after));
        lemma_countdown(body, position, after, (fuel - 1) as nat);
        lemma_same_is_equal(after.with_cell(after.ptr, 0), m.with_cell(m.ptr, 0));
    }
}

/// Replacing a loop that counts its cell down by a set to zero keeps what
/// is done.
pub proof fn lemma_zeroed_equivalent(instr: Instr)
    ensures
        equivalent(seq![zeroed(instr)], seq![instr]),
{
    if zeroed(instr) != instr {
        let body = instr->Loop_body;
        let position = instr->Loop_position;
        let set = zeroed(instr);
        let one = seq![set];
        let other = seq![instr];
        assert forall|m: Machine| #[trigger] eval(one, m) == eval(other, m) by {
            let fuel = turns(m.current());
            lemma_countdown(body, position, m, fuel);
            lemma_run_single(instr, m, fuel);
            lemma_eval_is_run(other, m, fuel);
            lemma_eval_simple(set, m);
        }
    }
}

/// Replacing every loop that counts its cell down keeps what is done.
pub proof fn lemma_zeroing_equivalent(instrs: Seq<Instr>)
    ensures
        equivalent(instrs.map_values(|instr: Instr| zeroed(instr)), instrs),
{
    let replaced = instrs.map_values(|instr: Instr| zeroed(instr));
    assert forall|i: int| 0 <= i < instrs.len() implies equivalent(
        seq![#[trigger] replaced[i]],
        seq![instrs[i]],
    ) by {
        lemma_zeroed_equivalent(instrs[i]);
    }
    lemma_mapped_equivalent(instrs, replaced);
}

/// A set to zero behind a loop does nothing.
pub proof fn lemma_set_after_loop(instr: Instr, set: Instr)
    requires
        instr is Loop,
        is_zero_set(set),
    ensures
        equivalent(seq![instr, set], seq![instr]),
{
    let pair = seq![instr, set];
    let one = seq![instr];
    assert(pair =~= one + seq![set]);
    assert forall|m: Machine| #[trigger] eval(pair, m) == eval(one, m) by {
        lemma_eval_concat(one, seq![set], m);
        match eval(one, m) {
            Some(after) => {
                lemma_eval_loop_zero(instr, m);
                lemma_eval_simple(set, after);
                lemma_with_same_cell(after, after.ptr);
            },
            None => {},
        }
    }
}

proof fn lemma_annotated_equivalent(instrs: Seq<Instr>, n: nat)
    requires
        n <= instrs.len(),
    ensures
        equivalent(annotated(instrs, n), instrs.take(n as int)),
    decreases n,
{
    if n == 0 {
        assert(instrs.take(0) =~= annotated(instrs, 0));
    } else {
        lemma_annotated_equivalent(instrs, (n - 1) as nat);
        let before = annotated(instrs, (n - 1) as nat);
        let last = instrs[n - 1];
        let out = annotated(instrs, n);
        assert(instrs.take(n as int) =~= instrs.take(n - 1) + seq![last]);
        lemma_equivalent_refl(seq![last]);
        if last is Loop {
            let set = zero_set_at(end_of(last->Loop_position));
            lemma_set_after_loop(last, set);
            if out == before.push(last).push(set) {
                assert(out =~= before + seq![last, set]);
                lemma_equivalent_concat(before, instrs.take(n - 1), seq![last, set], seq![last]);
            } else {
                assert(out =~= before + seq![last]);
                lemma_equivalent_concat(before, instrs.take(n - 1), seq![last], seq![last]);
            }
        } else {
            assert(out =~= before + seq![last]);
            lemma_equivalent_concat(before, instrs.take(n - 1), seq![last], seq![last]);
        }
    }
}

/// Noting the zero after each loop keeps what is done.
pub proof fn lemma_zeros_noted_equivalent(instrs: Seq<Instr>)
    ensures
        equivalent(zeros_noted(instrs), instrs),
{
    lemma_annotated_equivalent(instrs, instrs.len());
    assert(instrs.take(instrs.len() as int) =~= instrs);
}

/// On a machine whose current cell is zero, a set to zero at the start
/// of a program does nothing.
pub proof fn lemma_leading_set(set: Instr, instrs: Seq<Instr>, m: Machine)
    requires
        is_zero_set(set),
        m.current() == 0,
    ensures
        eval(seq![set] + instrs, m) == eval(instrs, m),
{
    let all = seq![set] + instrs;
    assert(all.drop_first() =~= instrs);
    lemma_eval_step(all, m);
    lemma_with_same_cell(m, m.ptr);
}

} // verus!
