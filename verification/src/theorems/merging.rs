//! Merging neighbours keeps what a program does.

use vstd::prelude::*;
use crate::bfir::Instr;
use crate::peephole::coalesce::{MergeRule, coalesced, coalesced_from, merged};
use crate::semantics::{Machine, effect, equivalent, eval, lemma_eval_simple, lemma_same_is_equal};
use crate::theorems::equivalence::{
    lemma_equivalent_concat, lemma_equivalent_refl, lemma_equivalent_trans, lemma_eval_pair,
};

verus! {

/// Two neighbours that merge do together what the merged one does.
#[verifier::rlimit(20)]
pub proof fn lemma_merged_equivalent(rule: MergeRule, previous: Instr, current: Instr)
    requires
        merged(rule, previous, current) is Some,
    ensures
        equivalent(seq![previous, current], seq![merged(rule, previous, current)->0]),
{
    let joined = merged(rule, previous, current)->0;
    let pair = seq![previous, current];
    let one = seq![joined];
    assert forall|m: Machine| #[trigger] eval(pair, m) == eval(one, m) by {
        lemma_eval_pair(previous, current, m);
        lemma_eval_simple(joined, m);
        lemma_same_is_equal(effect(current, effect(previous, m)), effect(joined, m));
    }
}

/// Coalescing with an instruction in hand keeps what is done.
pub proof fn lemma_coalesced_from_equivalent(held: Instr, rest: Seq<Instr>, rule: MergeRule)
    ensures
        equivalent(coalesced_from(held, rest, rule), seq![held] + rest),
    decreases rest.len(),
{
    if rest.len() == 0 {
        assert(seq![held] + rest =~= seq![held]);
    } else {
        let tail = rest.drop_first();
        match merged(rule, held, rest[0]) {
            Some(joined) => {
                lemma_coalesced_from_equivalent(joined, tail, rule);
                lemma_merged_equivalent(rule, held, rest[0]);
                lemma_equivalent_refl(tail);
                lemma_equivalent_concat(seq![joined], seq![held, rest[0]], tail, tail);
                lemma_equivalent_trans(
                    coalesced_from(joined, tail, rule),
                    seq![joined] + tail,
                    seq![held, rest[0]] + tail,
                );
                assert(seq![held, rest[0]] + tail =~= seq![held] + rest);
            },
            None => {
                lemma_coalesced_from_equivalent(rest[0], tail, rule);
                lemma_equivalent_refl(seq![held]);
                lemma_equivalent_concat(
                    seq![held],
                    seq![held],
                    coalesced_from(rest[0], tail, rule),
                    seq![rest[0]] + tail,
                );
                assert(seq![held] + (seq![rest[0]] + tail) =~= seq![held] + rest);
            },
        }
    }
}

/// Coalescing keeps what a sequence does.
pub proof fn lemma_coalesced_equivalent(instrs: Seq<Instr>, rule: MergeRule)
    ensures
        equivalent(coalesced(instrs, rule), instrs),
{
    if instrs.len() > 0 {
        lemma_coalesced_from_equivalent(instrs[0], instrs.drop_first(), rule);
        assert(seq![instrs[0]] + instrs.drop_first() =~= instrs);
    }
}

} // verus!
