//! What a program does: its instructions run on a tape without ends, with
//! the input it is given and the output it leaves.

use vstd::prelude::*;
use crate::bfir::{Cell, Instr};

verus! {

/// A tape that is unbounded in both directions, the pointer, the input
/// still to be read and the output written so far.
pub ghost struct Machine {
    pub cells: spec_fn(int) -> Cell,
    pub ptr: int,
    pub input: Seq<Cell>,
    pub output: Seq<Cell>,
}

impl Machine {
    /// The cell at an index.
    pub open spec fn cell(self, at: int) -> Cell {
        (self.cells)(at)
    }

    /// The cell under the pointer.
    pub open spec fn current(self) -> Cell {
        self.cell(self.ptr)
    }

    /// The machine with one cell overwritten.
    pub open spec fn with_cell(self, at: int, value: Cell) -> Machine {
        Machine {
            cells: |i: int|
                if i == at {
                    value
                } else {
                    (self.cells)(i)
                },
            ..self
        }
    }

    /// Whether two machines agree on every cell and on everything else.
    pub open spec fn same(self, other: Machine) -> bool {
        &&& forall|i: int| #[trigger] self.cell(i) == other.cell(i)
        &&& self.ptr == other.ptr
        &&& self.input == other.input
        &&& self.output == other.output
    }
}

/// Machines that agree everywhere are equal.
pub proof fn lemma_same_is_equal(a: Machine, b: Machine)
    requires
        a.same(b),
    ensures
        a == b,
{
    assert forall|i: int| #[trigger] (a.cells)(i) == (b.cells)(i) by {
        assert(a.cell(i) == b.cell(i));
    }
    assert(a.cells =~= b.cells);
}

/// The machine after the first `n` changes of a multiply-move run on a
/// cell that held `value`: to the cell at each change's offset from the
/// pointer, `value` times the change's factor is added.
pub open spec fn after_moves(changes: Seq<(isize, Cell)>, n: nat, m: Machine, value: Cell) -> Machine
    decreases n,
{
    if n == 0 || n > changes.len() {
        m
    } else {
        let before = after_moves(changes, (n - 1) as nat, m, value);
        let (offset, factor) = changes[n - 1];
        before.with_cell(
            m.ptr + offset,
            before.cell(m.ptr + offset).wrapping_add(value.wrapping_mul(factor)),
        )
    }
}

/// The machine after an instruction that is no loop. Reading takes the
/// next cell of input; at the end of the input it reads zero. A
/// multiply-move on a zero cell does nothing; else it makes its changes
/// and leaves its cell at zero.
pub open spec fn effect(instr: Instr, m: Machine) -> Machine {
    match instr {
        Instr::Increment { amount, offset, .. } => m.with_cell(
            m.ptr + offset,
            m.cell(m.ptr + offset).wrapping_add(amount),
        ),
        Instr::SetCell { amount, offset, .. } => m.with_cell(m.ptr + offset, amount),
        Instr::PointerIncrement { amount, .. } => Machine { ptr: m.ptr + amount, ..m },
        Instr::Write { .. } => Machine { output: m.output.push(m.current()), ..m },
        Instr::Read { .. } => if m.input.len() > 0 {
            Machine { input: m.input.drop_first(), ..m.with_cell(m.ptr, m.input[0]) }
        } else {
            m.with_cell(m.ptr, 0)
        },
        Instr::MultiplyMove { changes, .. } => if m.current() == 0 {
            m
        } else {
            after_moves(changes, changes.len(), m, m.current()).with_cell(m.ptr, 0)
        },
        Instr::Loop { .. } => m,
    }
}

/// The machine after one instruction, if `fuel` turns of loops are enough
/// for it to end. A loop runs its body for as long as the cell under the
/// pointer is not zero, and each turn takes one unit of fuel from the
/// turns after it and from the loops inside it.
pub open spec fn run_one(instr: Instr, m: Machine, fuel: nat) -> Option<Machine>
    decreases fuel, 0nat,
{
    match instr {
        Instr::Loop { body, .. } => if m.current() == 0 {
            Some(m)
        } else if fuel == 0 {
            None
        } else {
            match run(body, m, (fuel - 1) as nat) {
                Some(after) => run_one(instr, after, (fuel - 1) as nat),
                None => None,
            }
        },
        _ => Some(effect(instr, m)),
    }
}

/// The machine after a sequence of instructions, if the fuel is enough.
pub open spec fn run(instrs: Seq<Instr>, m: Machine, fuel: nat) -> Option<Machine>
    decreases fuel, instrs.len() + 1,
{
    if instrs.len() == 0 {
        Some(m)
    } else {
        match run_one(instrs[0], m, fuel) {
            Some(after) => run(instrs.drop_first(), after, fuel),
            None => None,
        }
    }
}

/// More fuel does not change where an instruction ends.
pub proof fn lemma_run_one_monotone(instr: Instr, m: Machine, fuel: nat, more: nat)
    requires
        run_one(instr, m, fuel) is Some,
        fuel <= more,
    ensures
        run_one(instr, m, more) == run_one(instr, m, fuel),
    decreases fuel, 0nat,
{
    match instr {
        Instr::Loop { body, .. } => {
            if m.current() != 0 {
                lemma_run_monotone(body, m, (fuel - 1) as nat, (more - 1) as nat);
                let after = run(body, m, (fuel - 1) as nat)->0;
                lemma_run_one_monotone(instr, after, (fuel - 1) as nat, (more - 1) as nat);
            }
        },
        _ => {},
    }
}

/// More fuel does not change where a sequence ends.
pub proof fn lemma_run_monotone(instrs: Seq<Instr>, m: Machine, fuel: nat, more: nat)
    requires
        run(instrs, m, fuel) is Some,
        fuel <= more,
    ensures
        run(instrs, m, more) == run(instrs, m, fuel),
    decreases fuel, instrs.len() + 1,
{
    if instrs.len() > 0 {
        lemma_run_one_monotone(instrs[0], m, fuel, more);
        lemma_run_monotone(instrs.drop_first(), run_one(instrs[0], m, fuel)->0, fuel, more);
    }
}

/// Running two sequences one after the other is running the first, then
/// the second from where the first ended.
pub proof fn lemma_run_concat(first: Seq<Instr>, second: Seq<Instr>, m: Machine, fuel: nat)
    ensures
        run(first + second, m, fuel) == match run(first, m, fuel) {
            Some(after) => run(second, after, fuel),
            None => None,
        },
    decreases first.len(),
{
    if first.len() == 0 {
        assert(first + second =~= second);
    } else {
        assert((first + second)[0] == first[0]);
        assert((first + second).drop_first() =~= first.drop_first() + second);
        match run_one(first[0], m, fuel) {
            Some(after) => {
                lemma_run_concat(first.drop_first(), second, after, fuel);
            },
            None => {},
        }
    }
}

/// Whether a sequence ends when run from a machine.
pub open spec fn halts(instrs: Seq<Instr>, m: Machine) -> bool {
    exists|fuel: nat| run(instrs, m, fuel) is Some
}

/// The machine that a sequence ends on; nothing if it runs forever.
pub open spec fn eval(instrs: Seq<Instr>, m: Machine) -> Option<Machine> {
    if halts(instrs, m) {
        run(instrs, m, choose|fuel: nat| run(instrs, m, fuel) is Some)
    } else {
        None
    }
}

/// A run that ends with some fuel is what the sequence evaluates to.
pub proof fn lemma_eval_is_run(instrs: Seq<Instr>, m: Machine, fuel: nat)
    requires
        run(instrs, m, fuel) is Some,
    ensures
        eval(instrs, m) == run(instrs, m, fuel),
{
    let chosen = choose|fuel: nat| run(instrs, m, fuel) is Some;
    if chosen <= fuel {
        lemma_run_monotone(instrs, m, chosen, fuel);
    } else {
        lemma_run_monotone(instrs, m, fuel, chosen);
    }
}

/// Evaluating two sequences one after the other.
pub proof fn lemma_eval_concat(first: Seq<Instr>, second: Seq<Instr>, m: Machine)
    ensures
        eval(first + second, m) == match eval(first, m) {
            Some(after) => eval(second, after),
            None => None,
        },
{
    if halts(first + second, m) {
        let fuel = choose|fuel: nat| run(first + second, m, fuel) is Some;
        lemma_run_concat(first, second, m, fuel);
        lemma_eval_is_run(first, m, fuel);
        lemma_eval_is_run(second, run(first, m, fuel)->0, fuel);
    } else {
        if halts(first, m) {
            let f1 = choose|fuel: nat| run(first, m, fuel) is Some;
            let after = run(first, m, f1)->0;
            if halts(second, after) {
                let f2 = choose|fuel: nat| run(second, after, fuel) is Some;
                let fuel = if f1 <= f2 {
                    f2
                } else {
                    f1
                };
                lemma_run_monotone(first, m, f1, fuel);
                lemma_run_monotone(second, after, f2, fuel);
                lemma_run_concat(first, second, m, fuel);
                assert(run(first + second, m, fuel) is Some);
            }
        }
    }
}

/// Nothing to run ends at once.
pub proof fn lemma_eval_empty(m: Machine)
    ensures
        eval(Seq::<Instr>::empty(), m) == Some(m),
{
    lemma_eval_is_run(Seq::<Instr>::empty(), m, 0);
}

/// One instruction that is no loop ends with its effect.
pub proof fn lemma_eval_simple(instr: Instr, m: Machine)
    requires
        !(instr is Loop),
    ensures
        eval(seq![instr], m) == Some(effect(instr, m)),
{
    assert(seq![instr].drop_first() =~= Seq::<Instr>::empty());
    assert(run_one(instr, m, 0) == Some(effect(instr, m)));
    assert(run(Seq::<Instr>::empty(), effect(instr, m), 0) == Some(effect(instr, m)));
    assert(run(seq![instr], m, 0) == Some(effect(instr, m)));
    lemma_eval_is_run(seq![instr], m, 0);
}

/// A sequence that starts with an instruction that is no loop.
pub proof fn lemma_eval_step(instrs: Seq<Instr>, m: Machine)
    requires
        instrs.len() > 0,
        !(instrs[0] is Loop),
    ensures
        eval(instrs, m) == eval(instrs.drop_first(), effect(instrs[0], m)),
{
    assert(instrs =~= seq![instrs[0]] + instrs.drop_first());
    lemma_eval_concat(seq![instrs[0]], instrs.drop_first(), m);
    lemma_eval_simple(instrs[0], m);
}

/// A loop on a zero cell ends at once; on another cell it runs its body
/// and then starts over.
pub proof fn lemma_eval_loop(instr: Instr, m: Machine)
    requires
        instr is Loop,
    ensures
        eval(seq![instr], m) == if m.current() == 0 {
            Some(m)
        } else {
            match eval(instr->Loop_body, m) {
                Some(after) => eval(seq![instr], after),
                None => None,
            }
        },
{
    let body = instr->Loop_body;
    let one = seq![instr];
    assert(one.drop_first() =~= Seq::<Instr>::empty());
    assert forall|fuel: nat| run(one, m, fuel) == run_one(instr, m, fuel) by {
        match run_one(instr, m, fuel) {
            Some(after) => {
                assert(run(one.drop_first(), after, fuel) == Some(after));
            },
            None => {},
        }
    }
    if m.current() == 0 {
        lemma_eval_is_run(one, m, 0);
    } else if halts(one, m) {
        let fuel = choose|fuel: nat| run(one, m, fuel) is Some;
        assert(run_one(instr, m, fuel) is Some);
        let after = run(body, m, (fuel - 1) as nat)->0;
        lemma_eval_is_run(body, m, (fuel - 1) as nat);
        assert(run(one, after, (fuel - 1) as nat) == run_one(instr, after, (fuel - 1) as nat)) by {
            match run_one(instr, after, (fuel - 1) as nat) {
                Some(end) => {
                    assert(run(one.drop_first(), end, (fuel - 1) as nat) == Some(end));
                },
                None => {},
            }
        }
        lemma_eval_is_run(one, after, (fuel - 1) as nat);
    } else {
        if halts(body, m) {
            let f1 = choose|fuel: nat| run(body, m, fuel) is Some;
            let after = run(body, m, f1)->0;
            if halts(one, after) {
                let f2 = choose|fuel: nat| run(one, after, fuel) is Some;
                let fuel = if f1 <= f2 {
                    f2
                } else {
                    f1
                };
                lemma_run_monotone(body, m, f1, fuel);
                lemma_run_monotone(one, after, f2, fuel);
                assert(run(one, after, fuel) == run_one(instr, after, fuel)) by {
                    match run_one(instr, after, fuel) {
                        Some(end) => {
                            assert(run(one.drop_first(), end, fuel) == Some(end));
                        },
                        None => {},
                    }
                }
                assert(run_one(instr, m, fuel + 1) is Some);
                assert(run(one, m, fuel + 1) == run_one(instr, m, fuel + 1)) by {
                    match run_one(instr, m, fuel + 1) {
                        Some(end) => {
                            assert(run(one.drop_first(), end, fuel + 1) == Some(end));
                        },
                        None => {},
                    }
                }
                assert(halts(one, m));
            }
        }
    }
}

/// Whether two sequences end on the same machine from every machine, or
/// both run forever.
pub open spec fn equivalent(a: Seq<Instr>, b: Seq<Instr>) -> bool {
    forall|m: Machine| #[trigger] eval(a, m) == eval(b, m)
}

} // verus!
