//! A bounded interpreter that runs a program ahead of time, up to its
//! first read of input or until its step budget is spent.

use vstd::prelude::*;
use vstd::string::StringExecFns;
use crate::bfir::{AstNode, Cell, Instr, lemma_view_loop};
use crate::bounds::{MAX_CELL_INDEX, highest_cell_index, highest_index};
use crate::changes::entries_of;
use crate::diagnostics::{Warning, WarningView};
use crate::text::{decimal, decimal_string};

verus! {

/// The tape, the pointer, what was written so far, and where the program
/// itself has to go on: the path to an instruction, as the index of a
/// top-level instruction followed by indices into the bodies of nested
/// loops; absent when nothing is left to run.
#[derive(Debug, Clone, PartialEq, Eq)]
pub struct ExecutionState {
    pub start_instr: Option<Vec<usize>>,
    pub cells: Vec<Cell>,
    pub cell_ptr: isize,
    pub outputs: Vec<i8>,
}

/// The value of an `ExecutionState`.
pub ghost struct StateView {
    pub start_instr: Option<Seq<usize>>,
    pub cells: Seq<Cell>,
    pub cell_ptr: isize,
    pub outputs: Seq<i8>,
}

impl StateView {
    /// The pointer is on the tape, and the tape's length is a pointer value.
    pub open spec fn well_formed(self) -> bool {
        0 <= self.cell_ptr < self.cells.len() <= isize::MAX
    }
}

impl View for ExecutionState {
    type V = StateView;

    open spec fn view(&self) -> StateView {
        StateView {
            start_instr: match self.start_instr {
                Some(path) => Some(path@),
                None => None,
            },
            cells: self.cells@,
            cell_ptr: self.cell_ptr,
            outputs: self.outputs@,
        }
    }
}

impl ExecutionState {
    /// A zeroed tape with one cell more than the highest index the program
    /// can touch, the pointer on cell 0, and nothing written.
    pub fn initial(instrs: &Vec<AstNode>) -> (state: Self)
        ensures
            state@ == initial_state(instrs.deep_view()),
            state@.well_formed(),
            state@.cells.len() == highest_index(instrs.deep_view()) + 1,
            state@.cells.len() <= MAX_CELL_INDEX + 1,
    {
        let size = highest_cell_index(instrs) + 1;
        let mut cells: Vec<Cell> = Vec::new();
        let mut i: usize = 0;
        while i < size
            invariant
                i <= size,
                cells@ == Seq::new(i as nat, |j: int| 0i8),
            decreases size - i,
        {
            cells.push(0);
            i += 1;
            assert(cells@ =~= Seq::new(i as nat, |j: int| 0i8));
        }
        ExecutionState { start_instr: None, cells, cell_ptr: 0, outputs: Vec::new() }
    }
}

/// The state in which every program starts: a zeroed tape with one cell
/// more than the highest index the program can touch, the pointer on
/// cell 0, nothing written.
pub open spec fn initial_state(instrs: Seq<Instr>) -> StateView {
    StateView {
        start_instr: None,
        cells: Seq::new((highest_index(instrs) + 1) as nat, |j: int| 0i8),
        cell_ptr: 0,
        outputs: Seq::empty(),
    }
}

/// How a run ended: all instructions done, with the steps left over; at a
/// read of input; at an instruction that leaves the tape; or out of steps.
#[derive(Debug, PartialEq, Eq)]
pub enum Outcome {
    Completed(u64),
    ReachedRuntimeValue,
    RuntimeError(Warning),
    OutOfSteps,
}

/// The value of an `Outcome`.
pub ghost enum OutcomeView {
    Completed(u64),
    ReachedRuntimeValue,
    RuntimeError(WarningView),
    OutOfSteps,
}

impl View for Outcome {
    type V = OutcomeView;

    open spec fn view(&self) -> OutcomeView {
        match self {
            Outcome::Completed(steps) => OutcomeView::Completed(*steps),
            Outcome::ReachedRuntimeValue => OutcomeView::ReachedRuntimeValue,
            Outcome::RuntimeError(warning) => OutcomeView::RuntimeError(warning@),
            Outcome::OutOfSteps => OutcomeView::OutOfSteps,
        }
    }
}

/// The step budget of a run ahead of time.
pub const MAX_STEPS: u64 = 10000000;

/// What is said of a pointer move below cell 0.
pub open spec fn pointer_below_message(to: int) -> Seq<char> {
    "This instruction moves the pointer to cell "@ + decimal(to) + "."@
}

/// What is said of a pointer move past the last cell.
pub open spec fn pointer_above_message(last: int, to: int) -> Seq<char> {
    "This instruction moves the pointer after the last cell ("@ + decimal(last) + "), to cell"@
        + decimal(to) + "."@
}

/// What is said of an increment or a set of a cell that is not on the
/// tape.
pub open spec fn cell_off_tape_message(target: int, last: int) -> Seq<char> {
    "This instruction accesses cell "@ + decimal(target) + " (the highest cell is "@ + decimal(
        last,
    ) + ")"@
}

/// What is said of a multiply-move to a cell below cell 0.
pub open spec fn multiply_below_message(dest: int, offset: int, from: int) -> Seq<char> {
    "This multiply loop tried to access cell "@ + decimal(dest) + " (offset "@ + decimal(offset)
        + " from current cell "@ + decimal(from) + ")"@
}

/// What is said of a multiply-move to a cell past the last cell.
pub open spec fn multiply_above_message(dest: int, last: int) -> Seq<char> {
    "This multiply loop tried to access cell "@ + decimal(dest) + " (the highest cell is "@
        + decimal(last) + ")"@
}

/// A run that stops at the instruction at `index` of the sequence it is in.
pub open spec fn stopped(state: StateView, index: int) -> StateView {
    StateView { start_instr: Some(seq![index as usize]), ..state }
}

/// A run that stops inside the loop at `index`: the path found inside the
/// body, behind the loop's own index.
pub open spec fn stopped_inside(state: StateView, index: int) -> StateView {
    StateView {
        start_instr: match state.start_instr {
            Some(path) => Some(seq![index as usize] + path),
            None => Some(seq![index as usize]),
        },
        ..state
    }
}

/// The changes of a multiply-move, from the one at `from` on, applied in
/// order to a tape whose current cell holds `value`: the first change that
/// falls off the tape, if any, as its offset and its cell, and the tape
/// as the changes before it left it.
pub open spec fn moved(
    changes: Seq<(isize, Cell)>,
    from: int,
    cells: Seq<Cell>,
    ptr: int,
    value: Cell,
) -> (Option<(isize, int)>, Seq<Cell>)
    decreases changes.len() - from,
{
    if from < 0 || from >= changes.len() {
        (None, cells)
    } else {
        let (offset, factor) = changes[from];
        let dest = ptr + offset;
        if dest < 0 || dest >= cells.len() {
            (Some((offset, dest)), cells)
        } else {
            moved(
                changes,
                from + 1,
                cells.update(dest, cells[dest].wrapping_add(value.wrapping_mul(factor))),
                ptr,
                value,
            )
        }
    }
}

/// The outcome and the state of running `instrs` from `index` on with
/// `steps` steps, from a well-formed state. Every instruction that is run
/// costs a step, and so does every turn of a loop. Reading takes
/// `dummy_read_value` if there is one, and stops the run if there is none.
pub open spec fn ran(
    instrs: Seq<Instr>,
    index: int,
    state: StateView,
    steps: u64,
    dummy_read_value: Option<i8>,
) -> (OutcomeView, StateView)
    decreases steps, instrs, instrs.len() - index,
{
    let ptr = state.cell_ptr as int;
    let last = state.cells.len() - 1;
    if index < 0 || index >= instrs.len() {
        (OutcomeView::Completed(steps), state)
    } else if steps == 0 {
        (OutcomeView::OutOfSteps, stopped(state, index))
    } else {
        let next = (steps - 1) as u64;
        match instrs[index] {
            Instr::Increment { amount, offset, position } => {
                let target = ptr + offset;
                if 0 <= target < state.cells.len() {
                    let cells = state.cells.update(target, state.cells[target].wrapping_add(amount));
                    ran(instrs, index + 1, StateView { cells, ..state }, next, dummy_read_value)
                } else {
                    (
                        OutcomeView::RuntimeError(
                            WarningView { message: cell_off_tape_message(target, last), position },
                        ),
                        stopped(state, index),
                    )
                }
            },
            Instr::SetCell { amount, offset, position } => {
                let target = ptr + offset;
                if 0 <= target < state.cells.len() {
                    let cells = state.cells.update(target, amount);
                    ran(instrs, index + 1, StateView { cells, ..state }, next, dummy_read_value)
                } else {
                    (
                        OutcomeView::RuntimeError(
                            WarningView { message: cell_off_tape_message(target, last), position },
                        ),
                        stopped(state, index),
                    )
                }
            },
            Instr::PointerIncrement { amount, position } => {
                let to = ptr + amount;
                if to < 0 {
                    (
                        OutcomeView::RuntimeError(
                            WarningView { message: pointer_below_message(to), position },
                        ),
                        stopped(state, index),
                    )
                } else if to >= state.cells.len() {
                    (
                        OutcomeView::RuntimeError(
                            WarningView { message: pointer_above_message(last, to), position },
                        ),
                        stopped(state, index),
                    )
                } else {
                    ran(
                        instrs,
                        index + 1,
                        StateView { cell_ptr: to as isize, ..state },
                        next,
                        dummy_read_value,
                    )
                }
            },
            Instr::Write { .. } => ran(
                instrs,
                index + 1,
                StateView { outputs: state.outputs.push(state.cells[ptr]), ..state },
                next,
                dummy_read_value,
            ),
            Instr::Read { .. } => match dummy_read_value {
                Some(value) => ran(
                    instrs,
                    index + 1,
                    StateView { cells: state.cells.update(ptr, value), ..state },
                    next,
                    dummy_read_value,
                ),
                None => (OutcomeView::ReachedRuntimeValue, stopped(state, index)),
            },
            Instr::Loop { body, .. } => if state.cells[ptr] == 0 {
                ran(instrs, index + 1, state, next, dummy_read_value)
            } else {
                let (outcome, after) = ran(body, 0, state, steps, dummy_read_value);
                match outcome {
                    OutcomeView::Completed(left) => if 0 < left <= steps {
                        ran(instrs, index, after, (left - 1) as u64, dummy_read_value)
                    } else {
                        (OutcomeView::OutOfSteps, stopped(after, index))
                    },
                    _ => (outcome, stopped_inside(after, index)),
                }
            },
            Instr::MultiplyMove { changes, position } => if state.cells[ptr] == 0 {
                ran(instrs, index + 1, state, next, dummy_read_value)
            } else {
                let (failed, cells) = moved(changes, 0, state.cells, ptr, state.cells[ptr]);
                match failed {
                    Some((offset, dest)) => (
                        OutcomeView::RuntimeError(
                            WarningView {
                                message: if dest < 0 {
                                    multiply_below_message(dest, offset as int, ptr)
                                } else {
                                    multiply_above_message(dest, last)
                                },
                                position,
                            },
                        ),
                        stopped(StateView { cells, ..state }, index),
                    ),
                    None => ran(
                        instrs,
                        index + 1,
                        StateView { cells: cells.update(ptr, 0), ..state },
                        next,
                        dummy_read_value,
                    ),
                }
            },
        }
    }
}

fn pointer_below_text(to: i128) -> (text: String)
    ensures
        text@ == pointer_below_message(to as int),
{
    let mut text = String::from_str("This instruction moves the pointer to cell ");
    text.append(decimal_string(to).as_str());
    text.append(".");
    text
}

fn pointer_above_text(last: i128, to: i128) -> (text: String)
    ensures
        text@ == pointer_above_message(last as int, to as int),
{
    let mut text = String::from_str("This instruction moves the pointer after the last cell (");
    text.append(decimal_string(last).as_str());
    text.append("), to cell");
    text.append(decimal_string(to).as_str());
    text.append(".");
    text
}

fn cell_off_tape_text(target: i128, last: i128) -> (text: String)
    ensures
        text@ == cell_off_tape_message(target as int, last as int),
{
    let mut text = String::from_str("This instruction accesses cell ");
    text.append(decimal_string(target).as_str());
    text.append(" (the highest cell is ");
    text.append(decimal_string(last).as_str());
    text.append(")");
    text
}

fn multiply_below_text(dest: i128, offset: i128, from: i128) -> (text: String)
    ensures
        text@ == multiply_below_message(dest as int, offset as int, from as int),
{
    let mut text = String::from_str("This multiply loop tried to access cell ");
    text.append(decimal_string(dest).as_str());
    text.append(" (offset ");
    text.append(decimal_string(offset).as_str());
    text.append(" from current cell ");
    text.append(decimal_string(from).as_str());
    text.append(")");
    text
}

fn multiply_above_text(dest: i128, last: i128) -> (text: String)
    ensures
        text@ == multiply_above_message(dest as int, last as int),
{
    let mut text = String::from_str("This multiply loop tried to access cell ");
    text.append(decimal_string(dest).as_str());
    text.append(" (the highest cell is ");
    text.append(decimal_string(last).as_str());
    text.append(")");
    text
}

fn path_to(index: usize) -> (path: Vec<usize>)
    ensures
        path@ == seq![index],
{
    let mut path: Vec<usize> = Vec::new();
    path.push(index);
    assert(path@ =~= seq![index]);
    path
}

fn path_through(index: usize, inner: &Option<Vec<usize>>) -> (path: Vec<usize>)
    ensures
        path@ == match *inner {
            Some(rest) => seq![index] + rest@,
            None => seq![index],
        },
{
    let mut path: Vec<usize> = Vec::new();
    path.push(index);
    assert(path@ =~= seq![index]);
    match inner {
        Some(rest) => {
            let mut i: usize = 0;
            while i < rest.len()
                invariant
                    i <= rest.len(),
                    path@ == seq![index] + rest@.take(i as int),
                decreases rest.len() - i,
            {
                path.push(rest[i]);
                i += 1;
                assert(path@ =~= seq![index] + rest@.take(i as int));
            }
            assert(rest@.take(i as int) =~= rest@);
        },
        None => {},
    }
    path
}

/// Applies the changes of a multiply-move in order, stopping at the first
/// that falls off the tape.
fn apply_changes(changes: &Vec<(isize, Cell)>, cells: &mut Vec<Cell>, ptr: usize, value: Cell) -> (failed:
    Option<(isize, i128)>)
    requires
        ptr < old(cells).len(),
    ensures
        final(cells).len() == old(cells).len(),
        (
            match failed {
                Some((offset, dest)) => Some((offset, dest as int)),
                None => None,
            },
            final(cells)@,
        ) == moved(changes@, 0, old(cells)@, ptr as int, value),
{
    let mut i: usize = 0;
    while i < changes.len()
        invariant
            i <= changes.len(),
            cells.len() == old(cells).len(),
            moved(changes@, i as int, cells@, ptr as int, value) == moved(
                changes@,
                0,
                old(cells)@,
                ptr as int,
                value,
            ),
        decreases changes.len() - i,
    {
        let (offset, factor) = changes[i];
        let dest = ptr as i128 + offset as i128;
        if dest < 0 || dest >= cells.len() as i128 {
            return Some((offset, dest));
        }
        let at = dest as usize;
        let current_val = cells[at];
        cells.set(at, current_val.wrapping_add(value.wrapping_mul(factor)));
        i += 1;
    }
    None
}

/// Runs a program from a state for at most `steps` steps. The path left
/// in the state from an earlier run is cleared first; it is absent again
/// at the end if and only if the program was run to its end.
#[verifier::rlimit(20)]
pub fn execute_with_state(
    instrs: &Vec<AstNode>,
    state: &mut ExecutionState,
    steps: u64,
    dummy_read_value: Option<i8>,
) -> (outcome: Outcome)
    requires
        old(state)@.well_formed(),
    ensures
        (outcome@, final(state)@) == ran(
            instrs.deep_view(),
            0,
            StateView { start_instr: None, ..old(state)@ },
            steps,
            dummy_read_value,
        ),
        final(state)@.well_formed(),
        final(state)@.cells.len() == old(state)@.cells.len(),
        outcome matches Outcome::Completed(left) ==> left <= steps,
        outcome is Completed <==> final(state)@.start_instr is None,
    decreases instrs,
{
    state.start_instr = None;
    let mut steps_left = steps;
    let mut instr_idx: usize = 0;
    let ghost goal = ran(instrs.deep_view(), 0, state@, steps, dummy_read_value);
    while instr_idx < instrs.len() && steps_left > 0
        invariant
            instr_idx <= instrs.len(),
            steps_left <= steps,
            state@.well_formed(),
            state@.start_instr is None,
            state@.cells.len() == old(state)@.cells.len(),
            ran(instrs.deep_view(), instr_idx as int, state@, steps_left, dummy_read_value) == goal,
            goal == ran(
                instrs.deep_view(),
                0,
                StateView { start_instr: None, ..old(state)@ },
                steps,
                dummy_read_value,
            ),
        decreases steps_left,
    {
        let last = state.cells.len() as i128 - 1;
        let here = state.cell_ptr as usize;
        assert(instrs.deep_view()[instr_idx as int] == instrs[instr_idx as int]@);
        match &instrs[instr_idx] {
            AstNode::Increment { amount, offset, position } => {
                let target = state.cell_ptr as i128 + *offset as i128;
                if target < 0 || target > last {
                    state.start_instr = Some(path_to(instr_idx));
                    return Outcome::RuntimeError(
                        Warning { message: cell_off_tape_text(target, last), position: *position },
                    );
                }
                let at = target as usize;
                let sum = state.cells[at].wrapping_add(*amount);
                state.cells.set(at, sum);
                instr_idx += 1;
            },
            AstNode::SetCell { amount, offset, position } => {
                let target = state.cell_ptr as i128 + *offset as i128;
                if target < 0 || target > last {
                    state.start_instr = Some(path_to(instr_idx));
                    return Outcome::RuntimeError(
                        Warning { message: cell_off_tape_text(target, last), position: *position },
                    );
                }
                state.cells.set(target as usize, *amount);
                instr_idx += 1;
            },
            AstNode::PointerIncrement { amount, position } => {
                let new_cell_ptr = state.cell_ptr as i128 + *amount as i128;
                if new_cell_ptr < 0 || new_cell_ptr > last {
                    state.start_instr = Some(path_to(instr_idx));
                    let message = if new_cell_ptr < 0 {
                        pointer_below_text(new_cell_ptr)
                    } else {
                        pointer_above_text(last, new_cell_ptr)
                    };
                    return Outcome::RuntimeError(Warning { message, position: *position });
                }
                state.cell_ptr = new_cell_ptr as isize;
                instr_idx += 1;
            },
            AstNode::Write { .. } => {
                let cell_value = state.cells[here];
                state.outputs.push(cell_value);
                instr_idx += 1;
            },
            AstNode::Read { .. } => {
                match dummy_read_value {
                    Some(read_value) => {
                        state.cells.set(here, read_value);
                        instr_idx += 1;
                    },
                    None => {
                        state.start_instr = Some(path_to(instr_idx));
                        return Outcome::ReachedRuntimeValue;
                    },
                }
            },
            AstNode::Loop { body, position } => {
                proof {
                    lemma_view_loop(*body, *position);
                }
                if state.cells[here] == 0 {
                    instr_idx += 1;
                } else {
                    let loop_outcome = execute_with_state(body, state, steps_left, dummy_read_value);
                    match loop_outcome {
                        Outcome::Completed(remaining_steps) => {
                            if remaining_steps == 0 {
                                state.start_instr = Some(path_to(instr_idx));
                                return Outcome::OutOfSteps;
                            }
                            steps_left = remaining_steps;
                        },
                        _ => {
                            state.start_instr = Some(path_through(instr_idx, &state.start_instr));
                            return loop_outcome;
                        },
                    }
                }
            },
            AstNode::MultiplyMove { changes, position } => {
                let cell_value = state.cells[here];
                if cell_value != 0 {
                    match apply_changes(
                        &entries_of(changes),
                        &mut state.cells,
                        here,
                        cell_value,
                    ) {
                        Some((cell_offset, dest_ptr)) => {
                            state.start_instr = Some(path_to(instr_idx));
                            let message = if dest_ptr < 0 {
                                multiply_below_text(dest_ptr, cell_offset as i128, here as i128)
                            } else {
                                multiply_above_text(dest_ptr, last)
                            };
                            return Outcome::RuntimeError(Warning { message, position: *position });
                        },
                        None => {
                            state.cells.set(here, 0);
                        },
                    }
                }
                instr_idx += 1;
            },
        }
        steps_left -= 1;
    }
    if instr_idx < instrs.len() {
        state.start_instr = Some(path_to(instr_idx));
        Outcome::OutOfSteps
    } else {
        Outcome::Completed(steps_left)
    }
}

/// Runs a program from its initial state; the warning, if any, says where
/// the program leaves the tape. The state that comes back is well formed,
/// and its tape has one cell more than the highest index the program can
/// touch.
pub fn execute(instrs: &Vec<AstNode>, steps: u64) -> (result: (ExecutionState, Option<Warning>))
    ensures
        ({
            let (outcome, state) = ran(
                instrs.deep_view(),
                0,
                initial_state(instrs.deep_view()),
                steps,
                None,
            );
            &&& result.0@ == state
            &&& match outcome {
                OutcomeView::RuntimeError(warning) => result.1 matches Some(w) && w@ == warning,
                _ => result.1 is None,
            }
            &&& outcome is Completed <==> state.start_instr is None
        }),
        result.0@.well_formed(),
        result.0@.cells.len() == highest_index(instrs.deep_view()) + 1,
        result.0@.cells.len() <= MAX_CELL_INDEX + 1,
{
    let mut state = ExecutionState::initial(instrs);
    let outcome = execute_with_state(instrs, &mut state, steps, None);
    match outcome {
        Outcome::RuntimeError(warning) => (state, Some(warning)),
        _ => (state, None),
    }
}

} // verus!
