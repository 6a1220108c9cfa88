//! What the bounded interpreter has run is what the program does, and
//! where it stopped is where the program goes on.

use vstd::prelude::*;
use crate::bfir::{AstNode, Cell, Instr, lemma_view_loop};
use crate::bounds::lemma_overall_max_nonnegative;
use crate::execution::{OutcomeView, StateView, initial_state, moved, ran};
use crate::semantics::{
    Machine, after_moves, effect, eval, lemma_eval_concat, lemma_eval_empty, lemma_eval_loop,
    lemma_eval_step, lemma_same_is_equal,
};
use crate::theorems::bounded_run::lemma_moved_length;
use crate::theorems::tracking::lemma_after_moves_frame;

verus! {

/// Whether a machine is in the state of the bounded interpreter: the
/// pointer and the output are the same, and so is every cell of the
/// bounded tape.
pub open spec fn models(state: StateView, m: Machine) -> bool {
    &&& m.ptr == state.cell_ptr
    &&& m.output == state.outputs
    &&& forall|i: int| 0 <= i < state.cells.len() ==> m.cell(i) == #[trigger] state.cells[i]
}

/// The machine in a state of the bounded interpreter: its cells, its
/// pointer and its output, with the input of machine `m` and with the
/// cells of `m` beyond the bounded tape.
pub open spec fn lifted(state: StateView, m: Machine) -> Machine {
    Machine {
        cells: |i: int|
            if 0 <= i < state.cells.len() {
                state.cells[i]
            } else {
                m.cell(i)
            },
        ptr: state.cell_ptr as int,
        input: m.input,
        output: state.outputs,
    }
}

/// What is left to run from the instruction that a path leads to: what
/// is left of the innermost body, then each loop around it again and what
/// follows it.
pub open spec fn resumed(instrs: Seq<Instr>, path: Seq<usize>) -> Seq<Instr>
    decreases path.len(),
{
    if path.len() == 0 {
        instrs
    } else if path.len() == 1 || path[0] >= instrs.len() {
        instrs.skip(path[0] as int)
    } else {
        match instrs[path[0] as int] {
            Instr::Loop { body, .. } => resumed(body, path.drop_first()) + instrs.skip(
                path[0] as int,
            ),
            _ => instrs.skip(path[0] as int),
        }
    }
}

/// Whether a sequence, and the body of every loop in it, is no longer
/// than a vector can be.
pub open spec fn fits(instrs: Seq<Instr>) -> bool
    decreases instrs,
{
    &&& instrs.len() <= usize::MAX
    &&& forall|i: int|
        0 <= i < instrs.len() ==> match #[trigger] instrs[i] {
            Instr::Loop { body, .. } => fits(body),
            _ => true,
        }
}

/// Every program that is held in memory fits.
pub proof fn lemma_view_fits(instrs: Vec<AstNode>)
    ensures
        fits(instrs.deep_view()),
    decreases instrs,
{
    let program = instrs.deep_view();
    assert(program.len() == instrs.len());
    assert forall|i: int| 0 <= i < program.len() implies match #[trigger] program[i] {
        Instr::Loop { body, .. } => fits(body),
        _ => true,
    } by {
        assert(program[i] == instrs[i]@);
        match instrs[i] {
            AstNode::Loop { body, position } => {
                lemma_view_loop(body, position);
                lemma_view_fits(body);
            },
            _ => {},
        }
    }
}

/// A machine that is in a state is that state lifted.
proof fn lemma_lifted_same(state: StateView, m: Machine)
    requires
        models(state, m),
    ensures
        lifted(state, m) == m,
{
    let up = lifted(state, m);
    assert forall|i: int| #[trigger] up.cell(i) == m.cell(i) by {
        if 0 <= i < state.cells.len() {
            assert(m.cell(i) == state.cells[i]);
        }
    }
    lemma_same_is_equal(up, m);
}

/// A state lifted over machines that agree beyond the bounded tape.
proof fn lemma_lifted_over(state: StateView, a: Machine, b: Machine)
    requires
        a.input == b.input,
        forall|i: int| !(0 <= i < state.cells.len()) ==> #[trigger] a.cell(i) == b.cell(i),
    ensures
        lifted(state, a) == lifted(state, b),
{
    let up_a = lifted(state, a);
    let up_b = lifted(state, b);
    assert forall|i: int| #[trigger] up_a.cell(i) == up_b.cell(i) by {
        if !(0 <= i < state.cells.len()) {
            assert(a.cell(i) == b.cell(i));
        }
    }
    lemma_same_is_equal(up_a, up_b);
}

/// The changes of a multiply-move that all fall on the bounded tape leave
/// the tape as they leave the machine.
#[verifier::rlimit(20)]
proof fn lemma_moved(
    changes: Seq<(isize, Cell)>,
    from: nat,
    cells: Seq<Cell>,
    m: Machine,
    value: Cell,
)
    requires
        from <= changes.len(),
        moved(changes, from as int, cells, m.ptr, value).0 is None,
        forall|i: int|
            0 <= i < cells.len() ==> after_moves(changes, from, m, value).cell(i)
                == #[trigger] cells[i],
        forall|i: int|
            !(0 <= i < cells.len()) ==> #[trigger] after_moves(changes, from, m, value).cell(i)
                == m.cell(i),
    ensures
        ({
            let end = moved(changes, from as int, cells, m.ptr, value).1;
            let after = after_moves(changes, changes.len(), m, value);
            &&& end.len() == cells.len()
            &&& forall|i: int| 0 <= i < end.len() ==> after.cell(i) == #[trigger] end[i]
            &&& forall|i: int| !(0 <= i < end.len()) ==> #[trigger] after.cell(i) == m.cell(i)
        }),
    decreases changes.len() - from,
{
    if from < changes.len() {
        let (offset, factor) = changes[from as int];
        let dest = m.ptr + offset;
        let before = after_moves(changes, from, m, value);
        let next = after_moves(changes, from + 1, m, value);
        let updated = cells.update(dest, cells[dest].wrapping_add(value.wrapping_mul(factor)));
        assert(before.cell(dest) == cells[dest]);
        assert forall|i: int| 0 <= i < updated.len() implies next.cell(i)
            == #[trigger] updated[i] by {
            assert(before.cell(i) == cells[i]);
        }
        assert forall|i: int| !(0 <= i < updated.len()) implies #[trigger] next.cell(i) == m.cell(
            i,
        ) by {
            assert(before.cell(i) == m.cell(i));
        }
        lemma_moved(changes, from + 1, updated, m, value);
    }
}

/// Whether the bounded interpreter's run from `index` on agrees with the
/// program on the unbounded tape, started on a machine in the same state.
/// Where the run got to the end, the program ends on the machine in the
/// run's last state. Where the run stopped at a read or out of steps,
/// the program does from the start what the instructions left do from
/// the machine in the run's last state. Nothing is said of a run that
/// ends in an error.
pub open spec fn agrees(
    instrs: Seq<Instr>,
    index: int,
    state: StateView,
    steps: u64,
    m: Machine,
) -> bool {
    let (outcome, end) = ran(instrs, index, state, steps, None);
    let reached = lifted(end, m);
    &&& end.well_formed()
    &&& end.cells.len() == state.cells.len()
    &&& match outcome {
        OutcomeView::Completed(left) => left <= steps && eval(instrs.skip(index), m) == Some(
            reached,
        ),
        OutcomeView::RuntimeError(_) => true,
        _ => end.start_instr is Some && end.start_instr->0.len() > 0 && eval(
            instrs.skip(index),
            m,
        ) == eval(resumed(instrs, end.start_instr->0), reached),
    }
}

/// The bounded interpreter agrees with the program.
pub proof fn lemma_run_agrees(
    instrs: Seq<Instr>,
    index: int,
    state: StateView,
    steps: u64,
    m: Machine,
)
    requires
        fits(instrs),
        0 <= index <= instrs.len(),
        state.well_formed(),
        models(state, m),
    ensures
        agrees(instrs, index, state, steps, m),
    decreases steps, instrs, instrs.len() - index, 1nat,
{
    lemma_lifted_same(state, m);
    if index >= instrs.len() {
        assert(instrs.skip(index) =~= Seq::<Instr>::empty());
        lemma_eval_empty(m);
    } else if steps == 0 {
        assert(lifted(ran(instrs, index, state, steps, None).1, m) == lifted(state, m));
    } else {
        match instrs[index] {
            Instr::Read { .. } => {
                assert(lifted(ran(instrs, index, state, steps, None).1, m) == lifted(state, m));
            },
            Instr::Loop { .. } => {
                lemma_loop_agrees(instrs, index, state, steps, m);
            },
            Instr::MultiplyMove { .. } => {
                lemma_moves_agree(instrs, index, state, steps, m);
            },
            _ => {
                lemma_simple_agrees(instrs, index, state, steps, m);
            },
        }
    }
}

/// The state of the bounded interpreter after an increment, a set, a
/// pointer move or a write that it can run.
pub open spec fn stepped(instr: Instr, state: StateView) -> StateView {
    let ptr = state.cell_ptr as int;
    match instr {
        Instr::Increment { amount, offset, .. } => StateView {
            cells: state.cells.update(
                ptr + offset,
                state.cells[ptr + offset].wrapping_add(amount),
            ),
            ..state
        },
        Instr::SetCell { amount, offset, .. } => StateView {
            cells: state.cells.update(ptr + offset, amount),
            ..state
        },
        Instr::PointerIncrement { amount, .. } => StateView {
            cell_ptr: (ptr + amount) as isize,
            ..state
        },
        Instr::Write { .. } => StateView {
            outputs: state.outputs.push(state.cells[ptr]),
            ..state
        },
        _ => state,
    }
}

/// Whether the bounded interpreter can run an increment, a set, a
/// pointer move or a write: the cell that it needs is on the tape.
pub open spec fn can_step(instr: Instr, state: StateView) -> bool {
    match instr {
        Instr::Increment { offset, .. } => 0 <= state.cell_ptr + offset < state.cells.len(),
        Instr::SetCell { offset, .. } => 0 <= state.cell_ptr + offset < state.cells.len(),
        Instr::PointerIncrement { amount, .. } => 0 <= state.cell_ptr + amount < state.cells.len(),
        Instr::Write { .. } => true,
        _ => false,
    }
}

proof fn lemma_stepped(instr: Instr, state: StateView, m: Machine)
    requires
        state.well_formed(),
        models(state, m),
        can_step(instr, state),
    ensures
        stepped(instr, state).well_formed(),
        stepped(instr, state).cells.len() == state.cells.len(),
        models(stepped(instr, state), effect(instr, m)),
        effect(instr, m).input == m.input,
        forall|i: int|
            !(0 <= i < state.cells.len()) ==> #[trigger] effect(instr, m).cell(i) == m.cell(i),
{
    let ptr = state.cell_ptr as int;
    let after = effect(instr, m);
    let next = stepped(instr, state);
    assert(m.cell(ptr) == state.cells[ptr]);
    match instr {
        Instr::Increment { offset, .. } => {
            assert(m.cell(ptr + offset) == state.cells[ptr + offset]);
            assert forall|i: int| 0 <= i < next.cells.len() implies after.cell(i)
                == #[trigger] next.cells[i] by {
                assert(m.cell(i) == state.cells[i]);
            }
        },
        _ => {
            assert forall|i: int| 0 <= i < next.cells.len() implies after.cell(i)
                == #[trigger] next.cells[i] by {
                assert(m.cell(i) == state.cells[i]);
            }
        },
    }
}

/// What holds of the run from the next state on holds of the run from
/// this state on, if the program gets from this state's machine to the
/// next state's machine and the two machines agree beyond the tape.
proof fn lemma_agrees_after(
    instrs: Seq<Instr>,
    index: int,
    state: StateView,
    steps: u64,
    m: Machine,
    at: int,
    next: StateView,
    left: u64,
    after: Machine,
)
    requires
        agrees(instrs, at, next, left, after),
        ran(instrs, index, state, steps, None) == ran(instrs, at, next, left, None),
        eval(instrs.skip(index), m) == eval(instrs.skip(at), after),
        next.cells.len() == state.cells.len(),
        left <= steps,
        after.input == m.input,
        forall|i: int| !(0 <= i < state.cells.len()) ==> #[trigger] after.cell(i) == m.cell(i),
    ensures
        agrees(instrs, index, state, steps, m),
{
    let end = ran(instrs, index, state, steps, None).1;
    lemma_lifted_over(end, after, m);
}

#[verifier::rlimit(20)]
proof fn lemma_simple_agrees(
    instrs: Seq<Instr>,
    index: int,
    state: StateView,
    steps: u64,
    m: Machine,
)
    requires
        fits(instrs),
        0 <= index < instrs.len(),
        steps > 0,
        state.well_formed(),
        models(state, m),
        instrs[index] is Increment || instrs[index] is SetCell || instrs[index] is PointerIncrement
            || instrs[index] is Write,
    ensures
        agrees(instrs, index, state, steps, m),
    decreases steps, instrs, instrs.len() - index, 0nat,
{
    let rest = instrs.skip(index);
    let instr = instrs[index];
    let next = (steps - 1) as u64;
    if can_step(instr, state) {
        assert(rest[0] == instr);
        assert(rest.drop_first() =~= instrs.skip(index + 1));
        lemma_eval_step(rest, m);
        lemma_stepped(instr, state, m);
        assert(ran(instrs, index, state, steps, None) == ran(
            instrs,
            index + 1,
            stepped(instr, state),
            next,
            None,
        ));
        lemma_run_agrees(instrs, index + 1, stepped(instr, state), next, effect(instr, m));
        lemma_agrees_after(
            instrs,
            index,
            state,
            steps,
            m,
            index + 1,
            stepped(instr, state),
            next,
            effect(instr, m),
        );
    }
}

/// A loop that is entered does what its body does, and then what the
/// loop and the rest do.
proof fn lemma_eval_entered(instrs: Seq<Instr>, index: int, m: Machine)
    requires
        0 <= index < instrs.len(),
        instrs[index] is Loop,
        m.current() != 0,
    ensures
        eval(instrs.skip(index), m) == match eval(instrs[index]->Loop_body, m) {
            Some(after) => eval(instrs.skip(index), after),
            None => None,
        },
{
    let instr = instrs[index];
    let rest = instrs.skip(index + 1);
    assert(instrs.skip(index) =~= seq![instr] + rest);
    lemma_eval_concat(seq![instr], rest, m);
    lemma_eval_loop(instr, m);
    match eval(instr->Loop_body, m) {
        Some(after) => {
            lemma_eval_concat(seq![instr], rest, after);
        },
        None => {},
    }
}

#[verifier::rlimit(20)]
proof fn lemma_loop_agrees(
    instrs: Seq<Instr>,
    index: int,
    state: StateView,
    steps: u64,
    m: Machine,
)
    requires
        fits(instrs),
        0 <= index < instrs.len(),
        steps > 0,
        state.well_formed(),
        models(state, m),
        instrs[index] is Loop,
    ensures
        agrees(instrs, index, state, steps, m),
    decreases steps, instrs, instrs.len() - index, 0nat,
{
    let rest = instrs.skip(index);
    let instr = instrs[index];
    let body = instr->Loop_body;
    let ptr = state.cell_ptr as int;
    assert(m.cell(ptr) == state.cells[ptr]);
    if state.cells[ptr] == 0 {
        assert(rest =~= seq![instr] + instrs.skip(index + 1));
        lemma_eval_concat(seq![instr], instrs.skip(index + 1), m);
        lemma_eval_loop(instr, m);
        lemma_run_agrees(instrs, index + 1, state, (steps - 1) as u64, m);
        lemma_agrees_after(
            instrs,
            index,
            state,
            steps,
            m,
            index + 1,
            state,
            (steps - 1) as u64,
            m,
        );
    } else {
        let (outcome, after) = ran(body, 0, state, steps, None);
        let inner = lifted(after, m);
        assert(body.skip(0) =~= body);
        assert(fits(body));
        lemma_run_agrees(body, 0, state, steps, m);
        lemma_eval_entered(instrs, index, m);
        match outcome {
            OutcomeView::Completed(left) => {
                assert(eval(body, m) == Some(inner));
                if 0 < left <= steps {
                    lemma_run_agrees(instrs, index, after, (left - 1) as u64, inner);
                    lemma_agrees_after(
                        instrs,
                        index,
                        state,
                        steps,
                        m,
                        index,
                        after,
                        (left - 1) as u64,
                        inner,
                    );
                } else {
                    let end = ran(instrs, index, state, steps, None).1;
                    assert(lifted(end, m) == inner);
                    assert(resumed(instrs, end.start_instr->0) == rest);
                }
            },
            OutcomeView::RuntimeError(_) => {},
            _ => {
                let end = ran(instrs, index, state, steps, None).1;
                let path = after.start_instr->0;
                let whole = end.start_instr->0;
                assert(lifted(end, m) == inner);
                assert(whole == seq![index as usize] + path);
                assert(whole.drop_first() =~= path);
                assert(whole[0] == index);
                assert(resumed(instrs, whole) == resumed(body, path) + rest);
                lemma_eval_concat(resumed(body, path), rest, inner);
            },
        }
    }
}

#[verifier::rlimit(20)]
proof fn lemma_moves_agree(
    instrs: Seq<Instr>,
    index: int,
    state: StateView,
    steps: u64,
    m: Machine,
)
    requires
        fits(instrs),
        0 <= index < instrs.len(),
        steps > 0,
        state.well_formed(),
        models(state, m),
        instrs[index] is MultiplyMove,
    ensures
        agrees(instrs, index, state, steps, m),
    decreases steps, instrs, instrs.len() - index, 0nat,
{
    let rest = instrs.skip(index);
    let instr = instrs[index];
    let changes = instr->MultiplyMove_changes;
    let ptr = state.cell_ptr as int;
    let next = (steps - 1) as u64;
    assert(m.cell(ptr) == state.cells[ptr]);
    assert(rest[0] == instr);
    assert(rest.drop_first() =~= instrs.skip(index + 1));
    lemma_eval_step(rest, m);
    if state.cells[ptr] == 0 {
        lemma_run_agrees(instrs, index + 1, state, next, m);
        lemma_agrees_after(instrs, index, state, steps, m, index + 1, state, next, m);
    } else {
        let value = state.cells[ptr];
        let (failed, cells) = moved(changes, 0, state.cells, ptr, value);
        if failed is None {
            lemma_moved(changes, 0, state.cells, m, value);
            lemma_after_moves_frame(changes, changes.len(), m, value);
            let after = effect(instr, m);
            let zeroed = StateView { cells: cells.update(ptr, 0), ..state };
            assert forall|i: int| 0 <= i < zeroed.cells.len() implies after.cell(i)
                == #[trigger] zeroed.cells[i] by {
                assert(after_moves(changes, changes.len(), m, value).cell(i) == cells[i]);
            }
            assert forall|i: int| !(0 <= i < zeroed.cells.len()) implies #[trigger] after.cell(i)
                == m.cell(i) by {
                assert(after_moves(changes, changes.len(), m, value).cell(i) == m.cell(i));
            }
            lemma_run_agrees(instrs, index + 1, zeroed, next, after);
            lemma_agrees_after(instrs, index, state, steps, m, index + 1, zeroed, next, after);
        } else {
            lemma_moved_length(changes, 0, state.cells, ptr, value);
        }
    }
}

/// Whether a machine is as every program finds it: the pointer on cell
/// 0, every cell zero and nothing written.
pub open spec fn is_fresh(m: Machine) -> bool {
    &&& m.ptr == 0
    &&& m.output.len() == 0
    &&& forall|i: int| #[trigger] m.cell(i) == 0
}

/// The bounded interpreter, run on a whole program from its fresh state,
/// agrees with the program run on a fresh unbounded tape with whatever
/// input. Where it got to the end, the program ends, having written what
/// the interpreter has written and having read nothing. Where it
/// stopped at a read or out of steps, the program goes on from the
/// interpreter's last state with the instructions that its path leads to.
pub proof fn lemma_execute_agrees(instrs: Seq<Instr>, steps: u64, m: Machine)
    requires
        fits(instrs),
        is_fresh(m),
    ensures
        agrees(instrs, 0, initial_state(instrs), steps, m),
        instrs.skip(0) == instrs,
{
    let state = initial_state(instrs);
    lemma_overall_max_nonnegative(instrs);
    assert(m.output =~= state.outputs);
    assert forall|i: int| 0 <= i < state.cells.len() implies m.cell(i)
        == #[trigger] state.cells[i] by {}
    assert(instrs.skip(0) =~= instrs);
    lemma_run_agrees(instrs, 0, state, steps, m);
}

} // verus!
