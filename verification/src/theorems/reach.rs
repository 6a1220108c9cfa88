//! The bound on the highest cell holds of every run.

use vstd::prelude::*;
use crate::bfir::Instr;
use crate::bounds::{
    MAX_CELL_INDEX, SaturatingInt, highest_index, highest_key, movement_of, overall_movement_of,
};
use crate::semantics::{Machine, lemma_run_concat, run, run_one};
use crate::theorems::tracking::lemma_after_moves_frame;

verus! {

/// The greater of two numbers.
pub open spec fn higher(a: int, b: int) -> int {
    if a >= b {
        a
    } else {
        b
    }
}

/// The highest cell that running one instruction touches, the cell under
/// the pointer at its start included; for a loop, over all turns that the
/// fuel lets it take, whether or not it ends.
pub open spec fn peak_one(instr: Instr, m: Machine, fuel: nat) -> int
    decreases fuel, 0nat,
{
    match instr {
        Instr::Increment { offset, .. } => higher(m.ptr, m.ptr + offset),
        Instr::SetCell { offset, .. } => higher(m.ptr, m.ptr + offset),
        Instr::PointerIncrement { amount, .. } => higher(m.ptr, m.ptr + amount),
        Instr::Read { .. } | Instr::Write { .. } => m.ptr,
        Instr::MultiplyMove { changes, .. } => if m.current() == 0 {
            m.ptr
        } else {
            m.ptr + highest_key(changes)
        },
        Instr::Loop { body, .. } => if m.current() == 0 || fuel == 0 {
            m.ptr
        } else {
            let inside = peak(body, m, (fuel - 1) as nat);
            match run(body, m, (fuel - 1) as nat) {
                Some(after) => higher(inside, peak_one(instr, after, (fuel - 1) as nat)),
                None => inside,
            }
        },
    }
}

/// The highest cell that running a sequence touches, as far as the run
/// gets with the fuel.
pub open spec fn peak(instrs: Seq<Instr>, m: Machine, fuel: nat) -> int
    decreases fuel, instrs.len() + 1,
{
    if instrs.len() == 0 {
        m.ptr
    } else {
        let first = peak_one(instrs[0], m, fuel);
        match run_one(instrs[0], m, fuel) {
            Some(after) => higher(first, peak(instrs.drop_first(), after, fuel)),
            None => first,
        }
    }
}

/// The peak of two sequences run one after the other.
pub proof fn lemma_peak_concat(first: Seq<Instr>, second: Seq<Instr>, m: Machine, fuel: nat)
    ensures
        peak(first + second, m, fuel) == match run(first, m, fuel) {
            Some(after) => higher(peak(first, m, fuel), peak(second, after, fuel)),
            None => peak(first, m, fuel),
        },
        peak(first, m, fuel) >= m.ptr,
    decreases first.len(),
{
    if first.len() == 0 {
        assert(first + second =~= second);
        lemma_peak_low(second, m, fuel);
    } else {
        assert((first + second)[0] == first[0]);
        assert((first + second).drop_first() =~= first.drop_first() + second);
        lemma_peak_one_low(first[0], m, fuel);
        match run_one(first[0], m, fuel) {
            Some(after) => {
                lemma_peak_concat(first.drop_first(), second, after, fuel);
            },
            None => {},
        }
    }
}

proof fn lemma_peak_one_low(instr: Instr, m: Machine, fuel: nat)
    ensures
        peak_one(instr, m, fuel) >= m.ptr,
    decreases fuel, 0nat,
{
    match instr {
        Instr::MultiplyMove { changes, .. } => {
            lemma_highest_key_low(changes);
        },
        Instr::Loop { body, .. } => {
            if m.current() != 0 && fuel > 0 {
                lemma_peak_low(body, m, (fuel - 1) as nat);
            }
        },
        _ => {},
    }
}

proof fn lemma_peak_low(instrs: Seq<Instr>, m: Machine, fuel: nat)
    ensures
        peak(instrs, m, fuel) >= m.ptr,
    decreases fuel, instrs.len() + 1,
{
    if instrs.len() > 0 {
        lemma_peak_one_low(instrs[0], m, fuel);
    }
}

proof fn lemma_highest_key_low(changes: Seq<(isize, crate::bfir::Cell)>)
    ensures
        0 <= highest_key(changes) <= isize::MAX,
    decreases changes.len(),
{
    if changes.len() > 0 {
        lemma_highest_key_low(changes.drop_last());
    }
}

/// A loop whose body neither climbs nor reaches above a bound, started no
/// higher than `top`, stays within the bound above `top` and ends no
/// higher than `top`.
proof fn lemma_loop_stays(instr: Instr, m: Machine, fuel: nat, top: int, reach: int)
    requires
        instr is Loop,
        overall_movement_of(instr->Loop_body).0 == SaturatingInt::Number(reach as i64),
        overall_movement_of(instr->Loop_body).1 matches SaturatingInt::Number(net) && net <= 0,
        i64::MIN <= reach <= i64::MAX,
        m.ptr <= top,
    ensures
        peak_one(instr, m, fuel) <= top + reach,
        run_one(instr, m, fuel) matches Some(end) ==> end.ptr <= top,
    decreases fuel, 0nat,
{
    let body = instr->Loop_body;
    crate::bounds::lemma_overall_max_nonnegative(body);
    if m.current() != 0 && fuel > 0 {
        lemma_sequence_stays(body, m, (fuel - 1) as nat);
        match run(body, m, (fuel - 1) as nat) {
            Some(after) => {
                lemma_loop_stays(instr, after, (fuel - 1) as nat, top, reach);
            },
            None => {},
        }
    }
}

/// What the analysis says of one instruction holds of every run of it:
/// it touches no cell above the pointer and the reach it is given, and
/// it leaves the pointer no higher than the move it is given.
pub proof fn lemma_instruction_stays(instr: Instr, m: Machine, fuel: nat)
    requires
        movement_of(instr).0 is Number,
    ensures
        peak_one(instr, m, fuel) <= higher(m.ptr, m.ptr + movement_of(instr).0->Number_0),
        movement_of(instr).1 is Number,
        run_one(instr, m, fuel) matches Some(end) ==> end.ptr <= m.ptr + movement_of(
            instr,
        ).1->Number_0,
    decreases fuel, 1nat,
{
    match instr {
        Instr::Loop { body, .. } => {
            let (max_in_body, net_in_body) = overall_movement_of(body);
            lemma_loop_stays(instr, m, fuel, m.ptr, max_in_body->Number_0 as int);
        },
        Instr::MultiplyMove { changes, .. } => {
            lemma_highest_key_low(changes);
            if m.current() != 0 {
                lemma_after_moves_frame(changes, changes.len(), m, m.current());
            }
        },
        _ => {},
    }
}

/// What the analysis says of a sequence holds of every run of it, ended
/// or not: where the reach is a number, no cell above it is touched; and
/// where the move is a number too, a run that ends leaves the pointer no
/// higher.
#[verifier::rlimit(20)]
pub proof fn lemma_sequence_stays(instrs: Seq<Instr>, m: Machine, fuel: nat)
    requires
        overall_movement_of(instrs).0 is Number,
    ensures
        peak(instrs, m, fuel) <= m.ptr + overall_movement_of(instrs).0->Number_0,
        overall_movement_of(instrs).1 matches SaturatingInt::Number(net) ==> (run(
            instrs,
            m,
            fuel,
        ) matches Some(end) ==> end.ptr <= m.ptr + net),
    decreases fuel, instrs.len() + 2,
{
    if instrs.len() > 0 {
        let front = instrs.drop_last();
        let last = instrs.last();
        let (max_index, net) = overall_movement_of(front);
        let (highest, moved) = movement_of(last);
        assert(instrs =~= front + seq![last]);
        lemma_peak_concat(front, seq![last], m, fuel);
        lemma_run_concat(front, seq![last], m, fuel);
        lemma_sequence_stays(front, m, fuel);
        match run(front, m, fuel) {
            Some(after) => {
                lemma_instruction_stays(last, after, fuel);
                assert(seq![last].drop_first() =~= Seq::<Instr>::empty());
                match run_one(last, after, fuel) {
                    Some(end) => {
                        assert(run(seq![last].drop_first(), end, fuel) == Some(end));
                        assert(peak(seq![last].drop_first(), end, fuel) == end.ptr);
                    },
                    None => {},
                }
                assert(peak(seq![last], after, fuel) <= higher(
                    after.ptr,
                    after.ptr + highest->Number_0,
                )) by {
                    lemma_peak_one_low(last, after, fuel);
                }
            },
            None => {},
        }
    }
}

/// Where the bound on the highest cell is not capped, no run from cell 0
/// touches a cell above it, however far the run gets.
pub proof fn lemma_bound_is_sound(instrs: Seq<Instr>, m: Machine, fuel: nat)
    requires
        m.ptr == 0,
        overall_movement_of(instrs).0 matches SaturatingInt::Number(reach) && reach
            <= MAX_CELL_INDEX,
    ensures
        peak(instrs, m, fuel) <= highest_index(instrs),
{
    lemma_sequence_stays(instrs, m, fuel);
}

} // verus!
