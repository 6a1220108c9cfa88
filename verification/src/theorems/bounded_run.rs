//! What holds of every run of the bounded interpreter, however it ends:
//! it stays on its tape, and it writes no more than it has steps.

use vstd::prelude::*;
use crate::bfir::{Cell, Instr};
use crate::bounds::{highest_index, lemma_overall_max_nonnegative};
use crate::execution::{OutcomeView, StateView, initial_state, moved, ran};
use crate::theorems::reach::higher;

verus! {

/// The steps that a run has left over: those it reports if it got to the
/// end, none otherwise.
pub open spec fn left_over(outcome: OutcomeView) -> int {
    match outcome {
        OutcomeView::Completed(left) => left as int,
        _ => 0,
    }
}

/// The changes of a multiply-move keep the length of the tape.
pub proof fn lemma_moved_length(
    changes: Seq<(isize, Cell)>,
    from: int,
    cells: Seq<Cell>,
    ptr: int,
    value: Cell,
)
    ensures
        moved(changes, from, cells, ptr, value).1.len() == cells.len(),
    decreases changes.len() - from,
{
    if 0 <= from < changes.len() {
        let (offset, factor) = changes[from];
        let dest = ptr + offset;
        if !(dest < 0 || dest >= cells.len()) {
            lemma_moved_length(
                changes,
                from + 1,
                cells.update(dest, cells[dest].wrapping_add(value.wrapping_mul(factor))),
                ptr,
                value,
            );
        }
    }
}

/// Every run keeps its state well formed and its tape as long as it was.
/// It keeps what was written before it and adds at most one byte for each
/// step that it uses; it has no more steps left over than it was given.
pub proof fn lemma_output_bounded(
    instrs: Seq<Instr>,
    index: int,
    state: StateView,
    steps: u64,
    dummy_read_value: Option<i8>,
)
    requires
        state.well_formed(),
    ensures
        ({
            let (outcome, end) = ran(instrs, index, state, steps, dummy_read_value);
            &&& end.well_formed()
            &&& end.cells.len() == state.cells.len()
            &&& left_over(outcome) <= steps
            &&& state.outputs.len() <= end.outputs.len() <= state.outputs.len() + steps
                - left_over(outcome)
            &&& end.outputs.subrange(0, state.outputs.len() as int) == state.outputs
        }),
    decreases steps, instrs, instrs.len() - index,
{
    let (outcome, end) = ran(instrs, index, state, steps, dummy_read_value);
    let ptr = state.cell_ptr as int;
    if index < 0 || index >= instrs.len() || steps == 0 {
        assert(end.outputs.subrange(0, state.outputs.len() as int) =~= state.outputs);
    } else {
        let next = (steps - 1) as u64;
        match instrs[index] {
            Instr::Increment { amount, offset, .. } => {
                let target = ptr + offset;
                if 0 <= target < state.cells.len() {
                    let cells = state.cells.update(
                        target,
                        state.cells[target].wrapping_add(amount),
                    );
                    lemma_output_bounded(
                        instrs,
                        index + 1,
                        StateView { cells, ..state },
                        next,
                        dummy_read_value,
                    );
                } else {
                    assert(end.outputs.subrange(0, state.outputs.len() as int) =~= state.outputs);
                }
            },
            Instr::SetCell { amount, offset, .. } => {
                let target = ptr + offset;
                if 0 <= target < state.cells.len() {
                    let cells = state.cells.update(target, amount);
                    lemma_output_bounded(
                        instrs,
                        index + 1,
                        StateView { cells, ..state },
                        next,
                        dummy_read_value,
                    );
                } else {
                    assert(end.outputs.subrange(0, state.outputs.len() as int) =~= state.outputs);
                }
            },
            Instr::PointerIncrement { amount, .. } => {
                let to = ptr + amount;
                if 0 <= to < state.cells.len() {
                    lemma_output_bounded(
                        instrs,
                        index + 1,
                        StateView { cell_ptr: to as isize, ..state },
                        next,
                        dummy_read_value,
                    );
                } else {
                    assert(end.outputs.subrange(0, state.outputs.len() as int) =~= state.outputs);
                }
            },
            Instr::Write { .. } => {
                let written = StateView { outputs: state.outputs.push(state.cells[ptr]), ..state };
                lemma_output_bounded(instrs, index + 1, written, next, dummy_read_value);
                assert(end.outputs.subrange(0, state.outputs.len() as int) =~= end.outputs.subrange(
                    0,
                    written.outputs.len() as int,
                ).subrange(0, state.outputs.len() as int));
                assert(written.outputs.subrange(0, state.outputs.len() as int) =~= state.outputs);
            },
            Instr::Read { .. } => {
                match dummy_read_value {
                    Some(value) => {
                        lemma_output_bounded(
                            instrs,
                            index + 1,
                            StateView { cells: state.cells.update(ptr, value), ..state },
                            next,
                            dummy_read_value,
                        );
                    },
                    None => {
                        assert(end.outputs.subrange(0, state.outputs.len() as int)
                            =~= state.outputs);
                    },
                }
            },
            Instr::Loop { body, .. } => {
                if state.cells[ptr] == 0 {
                    lemma_output_bounded(instrs, index + 1, state, next, dummy_read_value);
                } else {
                    let (inner, after) = ran(body, 0, state, steps, dummy_read_value);
                    lemma_output_bounded(body, 0, state, steps, dummy_read_value);
                    match inner {
                        OutcomeView::Completed(left) => {
                            if 0 < left <= steps {
                                lemma_output_bounded(
                                    instrs,
                                    index,
                                    after,
                                    (left - 1) as u64,
                                    dummy_read_value,
                                );
                                assert(end.outputs.subrange(0, state.outputs.len() as int)
                                    =~= end.outputs.subrange(
                                    0,
                                    after.outputs.len() as int,
                                ).subrange(0, state.outputs.len() as int));
                            }
                        },
                        _ => {},
                    }
                }
            },
            Instr::MultiplyMove { changes, .. } => {
                if state.cells[ptr] == 0 {
                    lemma_output_bounded(instrs, index + 1, state, next, dummy_read_value);
                } else {
                    let (failed, cells) = moved(changes, 0, state.cells, ptr, state.cells[ptr]);
                    lemma_moved_length(changes, 0, state.cells, ptr, state.cells[ptr]);
                    match failed {
                        Some(_) => {
                            assert(end.outputs.subrange(0, state.outputs.len() as int)
                                =~= state.outputs);
                        },
                        None => {
                            lemma_output_bounded(
                                instrs,
                                index + 1,
                                StateView { cells: cells.update(ptr, 0), ..state },
                                next,
                                dummy_read_value,
                            );
                        },
                    }
                }
            },
        }
    }
}

/// A whole program, run from its fresh state with a budget of steps,
/// writes at most as many bytes as it has steps.
pub proof fn lemma_execute_output_bounded(instrs: Seq<Instr>, steps: u64)
    ensures
        ran(instrs, 0, initial_state(instrs), steps, None).1.outputs.len() <= steps,
        ran(instrs, 0, initial_state(instrs), steps, None).1.cells.len() == highest_index(instrs)
            + 1,
{
    lemma_overall_max_nonnegative(instrs);
    lemma_output_bounded(instrs, 0, initial_state(instrs), steps, None);
}

/// The highest cell that the changes of a multiply-move reach, from the
/// one at `from` on and up to the first that falls off the tape; `floor`
/// if there is none.
pub open spec fn moved_peak(
    changes: Seq<(isize, Cell)>,
    from: int,
    len: int,
    ptr: int,
    floor: int,
) -> int
    decreases changes.len() - from,
{
    if from < 0 || from >= changes.len() {
        floor
    } else {
        let dest = ptr + changes[from].0;
        if dest < 0 || dest >= len {
            floor
        } else {
            moved_peak(changes, from + 1, len, ptr, higher(floor, dest))
        }
    }
}

/// The highest cell that a run of the bounded interpreter reads, writes
/// or has its pointer on, from the instruction at `index` until the run
/// ends or stops, whether at the end, at a read, out of steps or with an
/// error. An instruction that would leave the tape ends the run with an
/// error and touches nothing.
pub open spec fn ran_peak(
    instrs: Seq<Instr>,
    index: int,
    state: StateView,
    steps: u64,
    dummy_read_value: Option<i8>,
) -> int
    decreases steps, instrs, instrs.len() - index,
{
    let ptr = state.cell_ptr as int;
    if index < 0 || index >= instrs.len() || steps == 0 {
        ptr
    } else {
        let next = (steps - 1) as u64;
        match instrs[index] {
            Instr::Increment { amount, offset, .. } => {
                let target = ptr + offset;
                if 0 <= target < state.cells.len() {
                    let cells = state.cells.update(
                        target,
                        state.cells[target].wrapping_add(amount),
                    );
                    higher(
                        higher(ptr, target),
                        ran_peak(
                            instrs,
                            index + 1,
                            StateView { cells, ..state },
                            next,
                            dummy_read_value,
                        ),
                    )
                } else {
                    ptr
                }
            },
            Instr::SetCell { amount, offset, .. } => {
                let target = ptr + offset;
                if 0 <= target < state.cells.len() {
                    let cells = state.cells.update(target, amount);
                    higher(
                        higher(ptr, target),
                        ran_peak(
                            instrs,
                            index + 1,
                            StateView { cells, ..state },
                            next,
                            dummy_read_value,
                        ),
                    )
                } else {
                    ptr
                }
            },
            Instr::PointerIncrement { amount, .. } => {
                let to = ptr + amount;
                if 0 <= to < state.cells.len() {
                    higher(
                        ptr,
                        ran_peak(
                            instrs,
                            index + 1,
                            StateView { cell_ptr: to as isize, ..state },
                            next,
                            dummy_read_value,
                        ),
                    )
                } else {
                    ptr
                }
            },
            Instr::Write { .. } => higher(
                ptr,
                ran_peak(
                    instrs,
                    index + 1,
                    StateView { outputs: state.outputs.push(state.cells[ptr]), ..state },
                    next,
                    dummy_read_value,
                ),
            ),
            Instr::Read { .. } => match dummy_read_value {
                Some(value) => higher(
                    ptr,
                    ran_peak(
                        instrs,
                        index + 1,
                        StateView { cells: state.cells.update(ptr, value), ..state },
                        next,
                        dummy_read_value,
                    ),
                ),
                None => ptr,
            },
            Instr::Loop { body, .. } => if state.cells[ptr] == 0 {
                higher(ptr, ran_peak(instrs, index + 1, state, next, dummy_read_value))
            } else {
                let inside = ran_peak(body, 0, state, steps, dummy_read_value);
                let (outcome, after) = ran(body, 0, state, steps, dummy_read_value);
                match outcome {
                    OutcomeView::Completed(left) => if 0 < left <= steps {
                        higher(
                            inside,
                            ran_peak(instrs, index, after, (left - 1) as u64, dummy_read_value),
                        )
                    } else {
                        inside
                    },
                    _ => inside,
                }
            },
            Instr::MultiplyMove { changes, .. } => if state.cells[ptr] == 0 {
                higher(ptr, ran_peak(instrs, index + 1, state, next, dummy_read_value))
            } else {
                let reached = moved_peak(changes, 0, state.cells.len() as int, ptr, ptr);
                let (failed, cells) = moved(changes, 0, state.cells, ptr, state.cells[ptr]);
                match failed {
                    Some(_) => reached,
                    None => higher(
                        reached,
                        ran_peak(
                            instrs,
                            index + 1,
                            StateView { cells: cells.update(ptr, 0), ..state },
                            next,
                            dummy_read_value,
                        ),
                    ),
                }
            },
        }
    }
}

proof fn lemma_moved_peak(changes: Seq<(isize, Cell)>, from: int, len: int, ptr: int, floor: int)
    requires
        0 <= floor < len,
    ensures
        floor <= moved_peak(changes, from, len, ptr, floor) < len,
    decreases changes.len() - from,
{
    if 0 <= from < changes.len() {
        let dest = ptr + changes[from].0;
        if !(dest < 0 || dest >= len) {
            lemma_moved_peak(changes, from + 1, len, ptr, higher(floor, dest));
        }
    }
}

/// No run of the bounded interpreter touches a cell that is not on its
/// tape, however far it gets and however it ends.
pub proof fn lemma_run_stays_on_tape(
    instrs: Seq<Instr>,
    index: int,
    state: StateView,
    steps: u64,
    dummy_read_value: Option<i8>,
)
    requires
        state.well_formed(),
    ensures
        0 <= ran_peak(instrs, index, state, steps, dummy_read_value) < state.cells.len(),
    decreases steps, instrs, instrs.len() - index,
{
    let ptr = state.cell_ptr as int;
    if !(index < 0 || index >= instrs.len() || steps == 0) {
        let next = (steps - 1) as u64;
        match instrs[index] {
            Instr::Increment { amount, offset, .. } => {
                let target = ptr + offset;
                if 0 <= target < state.cells.len() {
                    let cells = state.cells.update(
                        target,
                        state.cells[target].wrapping_add(amount),
                    );
                    lemma_run_stays_on_tape(
                        instrs,
                        index + 1,
                        StateView { cells, ..state },
                        next,
                        dummy_read_value,
                    );
                }
            },
            Instr::SetCell { amount, offset, .. } => {
                let target = ptr + offset;
                if 0 <= target < state.cells.len() {
                    lemma_run_stays_on_tape(
                        instrs,
                        index + 1,
                        StateView { cells: state.cells.update(target, amount), ..state },
                        next,
                        dummy_read_value,
                    );
                }
            },
            Instr::PointerIncrement { amount, .. } => {
                let to = ptr + amount;
                if 0 <= to < state.cells.len() {
                    lemma_run_stays_on_tape(
                        instrs,
                        index + 1,
                        StateView { cell_ptr: to as isize, ..state },
                        next,
                        dummy_read_value,
                    );
                }
            },
            Instr::Write { .. } => {
                lemma_run_stays_on_tape(
                    instrs,
                    index + 1,
                    StateView { outputs: state.outputs.push(state.cells[ptr]), ..state },
                    next,
                    dummy_read_value,
                );
            },
            Instr::Read { .. } => {
                match dummy_read_value {
                    Some(value) => {
                        lemma_run_stays_on_tape(
                            instrs,
                            index + 1,
                            StateView { cells: state.cells.update(ptr, value), ..state },
                            next,
                            dummy_read_value,
                        );
                    },
                    None => {},
                }
            },
            Instr::Loop { body, .. } => {
                if state.cells[ptr] == 0 {
                    lemma_run_stays_on_tape(instrs, index + 1, state, next, dummy_read_value);
                } else {
                    let (outcome, after) = ran(body, 0, state, steps, dummy_read_value);
                    lemma_run_stays_on_tape(body, 0, state, steps, dummy_read_value);
                    lemma_output_bounded(body, 0, state, steps, dummy_read_value);
                    match outcome {
                        OutcomeView::Completed(left) => {
                            if 0 < left <= steps {
                                lemma_run_stays_on_tape(
                                    instrs,
                                    index,
                                    after,
                                    (left - 1) as u64,
                                    dummy_read_value,
                                );
                            }
                        },
                        _ => {},
                    }
                }
            },
            Instr::MultiplyMove { changes, .. } => {
                if state.cells[ptr] == 0 {
                    lemma_run_stays_on_tape(instrs, index + 1, state, next, dummy_read_value);
                } else {
                    let (failed, cells) = moved(changes, 0, state.cells, ptr, state.cells[ptr]);
                    lemma_moved_peak(changes, 0, state.cells.len() as int, ptr, ptr);
                    lemma_moved_length(changes, 0, state.cells, ptr, state.cells[ptr]);
                    if failed is None {
                        lemma_run_stays_on_tape(
                            instrs,
                            index + 1,
                            StateView { cells: cells.update(ptr, 0), ..state },
                            next,
                            dummy_read_value,
                        );
                    }
                }
            },
        }
    }
}

/// For every program, every step budget and every value read: the run
/// of the bounded interpreter from the program's fresh state touches no
/// cell above the bound on the highest cell, capped or not. Where the
/// program would go further, the run ends with an error instead.
pub proof fn lemma_bound_holds_of_every_run(
    instrs: Seq<Instr>,
    steps: u64,
    dummy_read_value: Option<i8>,
)
    ensures
        0 <= ran_peak(instrs, 0, initial_state(instrs), steps, dummy_read_value) <= highest_index(
            instrs,
        ),
{
    lemma_overall_max_nonnegative(instrs);
    lemma_run_stays_on_tape(instrs, 0, initial_state(instrs), steps, dummy_read_value);
}

} // verus!
