//! How equivalence of programs carries over to the programs built from them.

use vstd::prelude::*;
use crate::bfir::{Instr, Position};
use crate::peephole::dataflow::{kept, unmarked};
use crate::semantics::{
    Machine, effect, equivalent, eval, halts, lemma_eval_concat, lemma_eval_empty,
    lemma_eval_is_run, lemma_eval_loop, lemma_eval_simple, lemma_same_is_equal, run, run_one,
};

verus! {

/// Sequences made of equivalent halves are equivalent.
pub proof fn lemma_equivalent_concat(
    a: Seq<Instr>,
    a2: Seq<Instr>,
    b: Seq<Instr>,
    b2: Seq<Instr>,
)
    requires
        equivalent(a, a2),
        equivalent(b, b2),
    ensures
        equivalent(a + b, a2 + b2),
{
    assert forall|m: Machine| #[trigger] eval(a + b, m) == eval(a2 + b2, m) by {
        lemma_eval_concat(a, b, m);
        lemma_eval_concat(a2, b2, m);
        assert(eval(a, m) == eval(a2, m));
        match eval(a, m) {
            Some(after) => {
                assert(eval(b, after) == eval(b2, after));
            },
            None => {},
        }
    }
}

/// Equivalence is transitive.
pub proof fn lemma_equivalent_trans(a: Seq<Instr>, b: Seq<Instr>, c: Seq<Instr>)
    requires
        equivalent(a, b),
        equivalent(b, c),
    ensures
        equivalent(a, c),
{
    assert forall|m: Machine| #[trigger] eval(a, m) == eval(c, m) by {
        assert(eval(a, m) == eval(b, m));
        assert(eval(b, m) == eval(c, m));
    }
}

/// Equivalence is symmetric.
pub proof fn lemma_equivalent_sym(a: Seq<Instr>, b: Seq<Instr>)
    requires
        equivalent(a, b),
    ensures
        equivalent(b, a),
{
    assert forall|m: Machine| #[trigger] eval(b, m) == eval(a, m) by {
        assert(eval(a, m) == eval(b, m));
    }
}

/// Every sequence is equivalent to itself.
pub proof fn lemma_equivalent_refl(a: Seq<Instr>)
    ensures
        equivalent(a, a),
{
}

/// A turn of one loop that ends is matched by the other loop, whose body
/// is equivalent.
proof fn lemma_loop_follows(
    body: Seq<Instr>,
    p: Option<Position>,
    body2: Seq<Instr>,
    pos2: Option<Position>,
    m: Machine,
    fuel: nat,
)
    requires
        equivalent(body, body2),
        run_one(Instr::Loop { body, position: p }, m, fuel) is Some,
    ensures
        eval(seq![Instr::Loop { body: body2, position: pos2 }], m) == run_one(
            Instr::Loop { body, position: p },
            m,
            fuel,
        ),
    decreases fuel,
{
    let first = Instr::Loop { body, position: p };
    let second = Instr::Loop { body: body2, position: pos2 };
    lemma_eval_loop(second, m);
    if m.current() != 0 {
        let after = run(body, m, (fuel - 1) as nat)->0;
        lemma_eval_is_run(body, m, (fuel - 1) as nat);
        assert(eval(body, m) == eval(body2, m));
        lemma_loop_follows(body, p, body2, pos2, after, (fuel - 1) as nat);
    }
}

/// A loop run as a sequence of one is the loop run alone.
pub proof fn lemma_run_single(instr: Instr, m: Machine, fuel: nat)
    ensures
        run(seq![instr], m, fuel) == run_one(instr, m, fuel),
{
    assert(seq![instr].drop_first() =~= Seq::<Instr>::empty());
    match run_one(instr, m, fuel) {
        Some(after) => {
            assert(run(seq![instr].drop_first(), after, fuel) == Some(after));
        },
        None => {},
    }
}

/// Loops with equivalent bodies are equivalent, whatever their positions.
pub proof fn lemma_equivalent_loop(
    body: Seq<Instr>,
    p: Option<Position>,
    body2: Seq<Instr>,
    pos2: Option<Position>,
)
    requires
        equivalent(body, body2),
    ensures
        equivalent(
            seq![Instr::Loop { body, position: p }],
            seq![Instr::Loop { body: body2, position: pos2 }],
        ),
{
    let first = Instr::Loop { body, position: p };
    let second = Instr::Loop { body: body2, position: pos2 };
    lemma_equivalent_sym(body, body2);
    let one = seq![first];
    let two = seq![second];
    assert forall|m: Machine| #[trigger] eval(one, m) == eval(two, m) by {
        if halts(seq![first], m) {
            let fuel = choose|fuel: nat| run(seq![first], m, fuel) is Some;
            lemma_run_single(first, m, fuel);
            lemma_eval_is_run(seq![first], m, fuel);
            lemma_loop_follows(body, p, body2, pos2, m, fuel);
        } else if halts(seq![second], m) {
            let fuel = choose|fuel: nat| run(seq![second], m, fuel) is Some;
            lemma_run_single(second, m, fuel);
            lemma_eval_is_run(seq![second], m, fuel);
            lemma_loop_follows(body2, pos2, body, p, m, fuel);
        }
    }
}

/// Whether an instruction leaves every machine as it is.
pub open spec fn does_nothing(instr: Instr) -> bool {
    !(instr is Loop) && forall|m: Machine| #[trigger] effect(instr, m) == m
}

/// A sequence without some instructions that do nothing is equivalent to
/// the whole sequence.
pub proof fn lemma_unmarked_equivalent(instrs: Seq<Instr>, marks: Seq<bool>)
    requires
        marks.len() == instrs.len(),
        forall|i: int| 0 <= i < instrs.len() && marks[i] ==> does_nothing(#[trigger] instrs[i]),
    ensures
        equivalent(unmarked(instrs, marks), instrs),
{
    lemma_kept_equivalent(instrs, marks, instrs.len());
    assert(instrs.take(instrs.len() as int) =~= instrs);
}

proof fn lemma_kept_equivalent(instrs: Seq<Instr>, marks: Seq<bool>, n: nat)
    requires
        n <= instrs.len(),
        marks.len() == instrs.len(),
        forall|i: int| 0 <= i < instrs.len() && marks[i] ==> does_nothing(#[trigger] instrs[i]),
    ensures
        equivalent(kept(instrs, marks, n), instrs.take(n as int)),
    decreases n,
{
    if n == 0 {
        assert(instrs.take(0) =~= kept(instrs, marks, 0));
    } else {
        let front = kept(instrs, marks, (n - 1) as nat);
        let last = instrs[n - 1];
        lemma_kept_equivalent(instrs, marks, (n - 1) as nat);
        assert(instrs.take(n as int) =~= instrs.take(n - 1) + seq![last]);
        if marks[n - 1] {
            assert(does_nothing(last));
            let nothing = Seq::<Instr>::empty();
            let one = seq![last];
            assert forall|m: Machine| #[trigger] eval(nothing, m) == eval(one, m) by {
                lemma_eval_empty(m);
                lemma_eval_simple(last, m);
                assert(effect(last, m) == m);
            }
            lemma_equivalent_concat(front, instrs.take(n - 1), Seq::empty(), seq![last]);
            assert(front + Seq::<Instr>::empty() =~= front);
        } else {
            lemma_equivalent_concat(front, instrs.take(n - 1), seq![last], seq![last]);
            assert(front.push(last) =~= front + seq![last]);
        }
    }
}

/// A sequence in which each instruction is replaced by an equivalent one
/// is equivalent to the sequence.
pub proof fn lemma_mapped_equivalent(instrs: Seq<Instr>, replaced: Seq<Instr>)
    requires
        replaced.len() == instrs.len(),
        forall|i: int|
            0 <= i < instrs.len() ==> equivalent(seq![#[trigger] replaced[i]], seq![instrs[i]]),
    ensures
        equivalent(replaced, instrs),
    decreases instrs.len(),
{
    if instrs.len() == 0 {
        assert(replaced =~= instrs);
    } else {
        let n = instrs.len() - 1;
        lemma_mapped_equivalent(instrs.drop_last(), replaced.drop_last());
        assert(equivalent(seq![replaced[n]], seq![instrs[n]]));
        lemma_equivalent_concat(
            replaced.drop_last(),
            instrs.drop_last(),
            seq![replaced[n]],
            seq![instrs[n]],
        );
        assert(replaced =~= replaced.drop_last() + seq![replaced[n]]);
        assert(instrs =~= instrs.drop_last() + seq![instrs[n]]);
    }
}

/// Two instructions that are no loops, one after the other.
pub proof fn lemma_eval_pair(a: Instr, b: Instr, m: Machine)
    requires
        !(a is Loop),
        !(b is Loop),
    ensures
        eval(seq![a, b], m) == Some(effect(b, effect(a, m))),
{
    assert(seq![a, b] =~= seq![a] + seq![b]);
    lemma_eval_concat(seq![a], seq![b], m);
    lemma_eval_simple(a, m);
    lemma_eval_simple(b, effect(a, m));
}

/// A loop that has ended has left its cell at zero.
pub proof fn lemma_loop_ends_on_zero(instr: Instr, m: Machine, fuel: nat)
    requires
        instr is Loop,
        run_one(instr, m, fuel) is Some,
    ensures
        run_one(instr, m, fuel)->0.current() == 0,
    decreases fuel,
{
    if m.current() != 0 {
        let after = run(instr->Loop_body, m, (fuel - 1) as nat)->0;
        lemma_loop_ends_on_zero(instr, after, (fuel - 1) as nat);
    }
}

/// What a loop evaluates to has its cell at zero.
pub proof fn lemma_eval_loop_zero(instr: Instr, m: Machine)
    requires
        instr is Loop,
        eval(seq![instr], m) is Some,
    ensures
        eval(seq![instr], m)->0.current() == 0,
{
    let fuel = choose|fuel: nat| run(seq![instr], m, fuel) is Some;
    lemma_run_single(instr, m, fuel);
    lemma_loop_ends_on_zero(instr, m, fuel);
}

/// Writing to a cell what it holds changes nothing.
pub proof fn lemma_with_same_cell(m: Machine, at: int)
    ensures
        m.with_cell(at, m.cell(at)) == m,
{
    lemma_same_is_equal(m.with_cell(at, m.cell(at)), m);
}

} // verus!
