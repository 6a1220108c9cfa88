//! A multiply-move does what the loop did that it was made from.

use vstd::prelude::*;
use vstd::wrapping::i8_specs::signed_crop;
use crate::bfir::{Cell, Instr, Position};
use crate::changes::ascending;
use crate::peephole::multiply::{
    bumped, change_at, is_multiply_body, is_step, multiplied, tallied, without_key,
};
use crate::semantics::{
    Machine, after_moves, effect, equivalent, eval, lemma_eval_concat, lemma_eval_empty, lemma_eval_is_run, lemma_eval_simple, lemma_same_is_equal, run, run_one,
};
use crate::theorems::equivalence::{lemma_mapped_equivalent, lemma_run_single};
use crate::theorems::tracking::lemma_after_moves_frame;
use crate::theorems::zeroing::turns;

verus! {

/// Whether a list holds a change.
pub open spec fn holds(changes: Seq<(isize, Cell)>, key: int, amount: Cell) -> bool {
    exists|i: int| 0 <= i < changes.len() && #[trigger] changes[i] == (key as isize, amount)
        && key == changes[i].0
}

/// Whether a list has a change for a key.
pub open spec fn has_change(changes: Seq<(isize, Cell)>, key: int) -> bool {
    exists|i: int| 0 <= i < changes.len() && (#[trigger] changes[i]).0 == key
}

/// What a list adds to the cell at an offset: its change for the offset,
/// or nothing.
pub open spec fn delta(changes: Seq<(isize, Cell)>, key: int) -> Cell {
    if isize::MIN <= key <= isize::MAX {
        match change_at(changes, key as isize) {
            Some(amount) => amount,
            None => 0,
        }
    } else {
        0
    }
}

/// In a list with rising keys, the change for a key is the one that the
/// list holds for it.
pub proof fn lemma_change_at(changes: Seq<(isize, Cell)>, key: isize)
    requires
        ascending(changes),
    ensures
        match change_at(changes, key) {
            Some(amount) => holds(changes, key as int, amount),
            None => !has_change(changes, key as int),
        },
    decreases changes.len(),
{
    if changes.len() > 0 {
        let rest = changes.drop_first();
        assert forall|i: int, j: int| 0 <= i < j < rest.len() implies (#[trigger] rest[i]).0 < (
        #[trigger] rest[j]).0 by {
            assert(rest[i] == changes[i + 1]);
            assert(rest[j] == changes[j + 1]);
        }
        lemma_change_at(rest, key);
        if changes[0].0 == key {
            assert(changes[0] == (key, changes[0].1));
        } else {
            match change_at(rest, key) {
                Some(amount) => {
                    let i = choose|i: int|
                        0 <= i < rest.len() && #[trigger] rest[i] == (key, amount) && key
                            == rest[i].0;
                    assert(changes[i + 1] == (key, amount));
                },
                None => {
                    assert forall|i: int| 0 <= i < changes.len() implies (#[trigger] changes[i]).0
                        != key by {
                        if i > 0 {
                            assert(rest[i - 1] == changes[i]);
                        }
                    }
                },
            }
        }
    }
}

/// In a list with rising keys, a change that the list holds is its
/// change for the key.
pub proof fn lemma_held_is_delta(changes: Seq<(isize, Cell)>, i: int)
    requires
        ascending(changes),
        0 <= i < changes.len(),
    ensures
        delta(changes, changes[i].0 as int) == changes[i].1,
{
    let key = changes[i].0;
    lemma_change_at(changes, key);
    match change_at(changes, key) {
        Some(amount) => {
            let j = choose|j: int|
                0 <= j < changes.len() && #[trigger] changes[j] == (key, amount) && key
                    == changes[j].0;
            if j < i {
                assert(changes[j].0 < changes[i].0);
            } else if i < j {
                assert(changes[i].0 < changes[j].0);
            }
        },
        None => {
            assert(changes[i].0 == key);
        },
    }
}

/// The change for a key in a list with one more change in front.
proof fn lemma_delta_cons(first: (isize, Cell), rest: Seq<(isize, Cell)>, k: int)
    ensures
        delta(seq![first] + rest, k) == if k == first.0 {
            first.1
        } else {
            delta(rest, k)
        },
{
    assert((seq![first] + rest).drop_first() =~= rest);
    assert((seq![first] + rest)[0] == first);
}

/// Adding to a change: the keys still rise, all keys stay above a bound
/// below them, and only the change for the key is other than before.
#[verifier::rlimit(20)]
pub proof fn lemma_bumped(changes: Seq<(isize, Cell)>, key: isize, amount: Cell, low: int)
    requires
        ascending(changes),
        forall|i: int| 0 <= i < changes.len() ==> (#[trigger] changes[i]).0 > low,
        key > low,
    ensures
        ascending(bumped(changes, key, amount)),
        forall|i: int|
            0 <= i < bumped(changes, key, amount).len() ==> (#[trigger] bumped(
                changes,
                key,
                amount,
            )[i]).0 > low,
        forall|k: int|
            #[trigger] delta(bumped(changes, key, amount), k) == if k == key {
                delta(changes, k).wrapping_add(amount)
            } else {
                delta(changes, k)
            },
    decreases changes.len(),
{
    let out = bumped(changes, key, amount);
    if changes.len() == 0 {
        assert(out =~= seq![(key, amount)] + changes);
        assert forall|k: int| #[trigger] delta(out, k) == if k == key {
            delta(changes, k).wrapping_add(amount)
        } else {
            delta(changes, k)
        } by {
            lemma_delta_cons((key, amount), changes, k);
        }
    } else {
        let rest = changes.drop_first();
        assert forall|i: int, j: int| 0 <= i < j < rest.len() implies (#[trigger] rest[i]).0 < (
        #[trigger] rest[j]).0 by {
            assert(rest[i] == changes[i + 1]);
            assert(rest[j] == changes[j + 1]);
        }
        assert(changes =~= seq![changes[0]] + rest);
        if changes[0].0 == key {
            assert(out.drop_first() =~= rest);
            assert forall|i: int, j: int| 0 <= i < j < out.len() implies (#[trigger] out[i]).0 < (
            #[trigger] out[j]).0 by {
                assert(out[j] == changes[j]);
                assert(changes[0].0 < changes[j].0);
                if i > 0 {
                    assert(out[i] == changes[i]);
                }
            }
            assert forall|i: int| 0 <= i < out.len() implies (#[trigger] out[i]).0 > low by {
                if i > 0 {
                    assert(out[i] == changes[i]);
                }
            }
            assert forall|k: int| #[trigger] delta(out, k) == if k == key {
                delta(changes, k).wrapping_add(amount)
            } else {
                delta(changes, k)
            } by {
                lemma_delta_cons((key, changes[0].1.wrapping_add(amount)), rest, k);
                lemma_delta_cons(changes[0], rest, k);
            }
        } else if changes[0].0 > key {
            assert(out.drop_first() =~= changes);
            assert forall|i: int, j: int| 0 <= i < j < out.len() implies (#[trigger] out[i]).0 < (
            #[trigger] out[j]).0 by {
                assert(out[j] == changes[j - 1]);
                if i > 0 {
                    assert(out[i] == changes[i - 1]);
                } else {
                    if j > 1 {
                        assert(changes[0].0 < changes[j - 1].0);
                    }
                }
            }
            assert forall|i: int| 0 <= i < out.len() implies (#[trigger] out[i]).0 > low by {
                if i > 0 {
                    assert(out[i] == changes[i - 1]);
                }
            }
            lemma_change_at(changes, key);
            assert(change_at(changes, key) is None) by {
                if change_at(changes, key) is Some {
                    let amount2 = change_at(changes, key)->0;
                    let i = choose|i: int|
                        0 <= i < changes.len() && #[trigger] changes[i] == (key, amount2) && key
                            == changes[i].0;
                    if i > 0 {
                        assert(changes[0].0 < changes[i].0);
                    }
                }
            }
            assert forall|k: int| #[trigger] delta(out, k) == if k == key {
                delta(changes, k).wrapping_add(amount)
            } else {
                delta(changes, k)
            } by {
                lemma_delta_cons((key, amount), changes, k);
            }
        } else {
            assert forall|i: int| 0 <= i < rest.len() implies (#[trigger] rest[i]).0
                > changes[0].0 by {
                assert(rest[i] == changes[i + 1]);
                assert(changes[0].0 < changes[i + 1].0);
            }
            lemma_bumped(rest, key, amount, changes[0].0 as int);
            let inner = bumped(rest, key, amount);
            assert(out.drop_first() =~= inner);
            assert forall|i: int, j: int| 0 <= i < j < out.len() implies (#[trigger] out[i]).0 < (
            #[trigger] out[j]).0 by {
                assert(out[j] == inner[j - 1]);
                if i > 0 {
                    assert(out[i] == inner[i - 1]);
                }
            }
            assert forall|i: int| 0 <= i < out.len() implies (#[trigger] out[i]).0 > low by {
                if i > 0 {
                    assert(out[i] == inner[i - 1]);
                    assert(inner[i - 1].0 > changes[0].0);
                } else {
                    assert(changes[0].0 > low);
                }
            }
            assert forall|k: int| #[trigger] delta(out, k) == if k == key {
                delta(changes, k).wrapping_add(amount)
            } else {
                delta(changes, k)
            } by {
                assert(delta(inner, k) == if k == key {
                    delta(rest, k).wrapping_add(amount)
                } else {
                    delta(rest, k)
                });
                lemma_delta_cons(changes[0], inner, k);
                lemma_delta_cons(changes[0], rest, k);
            }
        }
    }
}

/// What a stretch of increments and pointer moves does, by its tally:
/// it always ends, with the pointer where the tally says and each cell
/// changed by the tally's change for it.
#[verifier::rlimit(20)]
pub proof fn lemma_tallied(body: Seq<Instr>, n: nat, m: Machine)
    requires
        n <= body.len(),
        forall|i: int| 0 <= i < body.len() ==> is_step(#[trigger] body[i]),
        tallied(body, n).in_range,
    ensures
        ascending(tallied(body, n).changes),
        eval(body.take(n as int), m) is Some,
        ({
            let end = eval(body.take(n as int), m)->0;
            let tally = tallied(body, n);
            &&& end.ptr == m.ptr + tally.at
            &&& end.input == m.input
            &&& end.output == m.output
            &&& forall|k: int|
                #[trigger] end.cell(m.ptr + k) == m.cell(m.ptr + k).wrapping_add(
                    delta(tally.changes, k),
                )
        }),
    decreases n,
{
    if n == 0 {
        assert(body.take(0) =~= Seq::<Instr>::empty());
        lemma_eval_empty(m);
    } else {
        let before = tallied(body, (n - 1) as nat);
        let tally = tallied(body, n);
        let instr = body[n - 1];
        assert(is_step(instr));
        assert(before.in_range);
        lemma_tallied(body, (n - 1) as nat, m);
        let mid = eval(body.take(n - 1), m)->0;
        assert(body.take(n as int) =~= body.take(n - 1) + seq![instr]);
        lemma_eval_concat(body.take(n - 1), seq![instr], m);
        lemma_eval_simple(instr, mid);
        let end = effect(instr, mid);
        match instr {
            Instr::Increment { amount, offset, .. } => {
                let key = (before.at + offset) as isize;
                lemma_bumped(before.changes, key, amount, isize::MIN - 1);
                assert forall|k: int| #[trigger] end.cell(m.ptr + k) == m.cell(
                    m.ptr + k,
                ).wrapping_add(delta(tally.changes, k)) by {
                    assert(mid.cell(m.ptr + k) == m.cell(m.ptr + k).wrapping_add(
                        delta(before.changes, k),
                    ));
                    assert(delta(tally.changes, k) == if k == key {
                        delta(before.changes, k).wrapping_add(amount)
                    } else {
                        delta(before.changes, k)
                    });
                }
            },
            _ => {
                assert forall|k: int| #[trigger] end.cell(m.ptr + k) == m.cell(
                    m.ptr + k,
                ).wrapping_add(delta(tally.changes, k)) by {
                    assert(mid.cell(m.ptr + k) == m.cell(m.ptr + k).wrapping_add(
                        delta(before.changes, k),
                    ));
                }
            },
        }
    }
}

/// A cell's change added up over some turns of a loop.
pub open spec fn times(amount: Cell, turns: nat) -> Cell
    decreases turns,
{
    if turns == 0 {
        0
    } else {
        times(amount, (turns - 1) as nat).wrapping_add(amount)
    }
}

proof fn lemma_crop_add(x: int, amount: Cell)
    ensures
        signed_crop(x).wrapping_add(amount) == signed_crop(x + amount),
{
}

proof fn lemma_crop_period(x: int, k: int)
    ensures
        signed_crop(x + 256 * k) == signed_crop(x),
{
    assert((x + 256 * k) % 256 == x % 256) by {
        vstd::arithmetic::div_mod::lemma_mod_multiples_vanish(k, x, 256);
    }
}

proof fn lemma_times_is_crop(amount: Cell, turns: nat)
    ensures
        times(amount, turns) == signed_crop(turns * amount),
    decreases turns,
{
    if turns == 0 {
        assert(turns * amount == 0) by (nonlinear_arith)
            requires
                turns == 0,
        ;
    } else {
        let fewer = (turns - 1) as nat;
        lemma_times_is_crop(amount, fewer);
        lemma_crop_add(fewer * amount, amount);
        assert(fewer * amount + amount == turns * amount) by (nonlinear_arith)
            requires
                fewer == turns - 1,
        ;
    }
}

/// Adding a change as often as a cell counts down is multiplying the
/// change by the cell.
pub proof fn lemma_times(amount: Cell, value: Cell)
    ensures
        times(amount, turns(value)) == value.wrapping_mul(amount),
{
    lemma_times_is_crop(amount, turns(value));
    let count = turns(value);
    if value < 0 {
        assert(count * amount == value * amount + 256 * amount) by (nonlinear_arith)
            requires
                count == value + 256,
        ;
        lemma_crop_period(value * amount, amount as int);
    } else {
        assert(count * amount == value * amount) by (nonlinear_arith)
            requires
                count == value,
        ;
    }
}

/// The machine after some turns of a loop that changes each cell by its
/// tally and leaves the pointer where it was.
pub open spec fn looped(m: Machine, changes: Seq<(isize, Cell)>, turns: nat) -> Machine {
    Machine {
        cells: |i: int| m.cell(i).wrapping_add(times(delta(changes, i - m.ptr), turns)),
        ..m
    }
}

/// A stretch without loops ends with any fuel.
pub proof fn lemma_steps_run(body: Seq<Instr>, m: Machine, fuel: nat)
    requires
        forall|i: int| 0 <= i < body.len() ==> !(#[trigger] body[i] is Loop),
    ensures
        run(body, m, fuel) is Some,
        run(body, m, fuel) == eval(body, m),
    decreases body.len(),
{
    if body.len() > 0 {
        let rest = body.drop_first();
        assert forall|i: int| 0 <= i < rest.len() implies !(#[trigger] rest[i] is Loop) by {
            assert(rest[i] == body[i + 1]);
        }
        assert(!(body[0] is Loop));
        assert(run_one(body[0], m, fuel) == Some(effect(body[0], m)));
        lemma_steps_run(rest, effect(body[0], m), fuel);
    }
    lemma_eval_is_run(body, m, fuel);
}

/// A loop whose body is a multiply body runs as often as its cell counts
/// down, and leaves each cell changed that often by the body's tally.
#[verifier::rlimit(20)]
proof fn lemma_multiply_loop(body: Seq<Instr>, position: Option<Position>, m: Machine, fuel: nat)
    requires
        is_multiply_body(body),
        fuel == turns(m.current()),
    ensures
        run_one(Instr::Loop { body, position }, m, fuel) == Some(
            looped(m, tallied(body, body.len()).changes, fuel),
        ),
    decreases fuel,
{
    let instr = Instr::Loop { body, position };
    let changes = tallied(body, body.len()).changes;
    if m.current() == 0 {
        lemma_same_is_equal(looped(m, changes, 0), m);
    } else {
        lemma_tallied(body, body.len(), m);
        assert(body.take(body.len() as int) =~= body);
        let after = eval(body, m)->0;
        assert forall|i: int| 0 <= i < body.len() implies !(#[trigger] body[i] is Loop) by {
            assert(is_step(body[i]));
        }
        lemma_steps_run(body, m, (fuel - 1) as nat);
        assert(after.cell(m.ptr + 0) == m.cell(m.ptr + 0).wrapping_add(delta(changes, 0)));
        assert(delta(changes, 0) == -1);
        assert(turns(after.current()) == fuel - 1);
        lemma_multiply_loop(body, position, after, (fuel - 1) as nat);
        let end = looped(after, changes, (fuel - 1) as nat);
        let goal = looped(m, changes, fuel);
        assert forall|i: int| #[trigger] end.cell(i) == goal.cell(i) by {
            assert(after.cell(m.ptr + (i - m.ptr)) == m.cell(m.ptr + (i - m.ptr)).wrapping_add(
                delta(changes, i - m.ptr),
            ));
        }
        lemma_same_is_equal(end, goal);
    }
}

/// Every change left is one of the changes there were.
pub proof fn lemma_without_key_within(changes: Seq<(isize, Cell)>, key: isize, i: int) -> (j: int)
    requires
        0 <= i < without_key(changes, key).len(),
    ensures
        0 <= j < changes.len(),
        without_key(changes, key)[i] == changes[j],
        changes[j].0 != key,
    decreases changes.len(),
{
    let inner = without_key(changes.drop_last(), key);
    if i < inner.len() {
        let j = lemma_without_key_within(changes.drop_last(), key, i);
        assert(changes.drop_last()[j] == changes[j]);
        j
    } else {
        changes.len() - 1
    }
}

/// Every change for another key is left.
pub proof fn lemma_without_key_keeps(changes: Seq<(isize, Cell)>, key: isize, j: int) -> (i: int)
    requires
        0 <= j < changes.len(),
        changes[j].0 != key,
    ensures
        0 <= i < without_key(changes, key).len(),
        without_key(changes, key)[i] == changes[j],
    decreases changes.len(),
{
    let inner = without_key(changes.drop_last(), key);
    if j < changes.len() - 1 {
        assert(changes.drop_last()[j] == changes[j]);
        lemma_without_key_keeps(changes.drop_last(), key, j)
    } else {
        inner.len() as int
    }
}

/// Without the change for a key, the keys still rise.
pub proof fn lemma_without_key(changes: Seq<(isize, Cell)>, key: isize)
    requires
        ascending(changes),
    ensures
        ascending(without_key(changes, key)),
    decreases changes.len(),
{
    if changes.len() > 0 {
        let front = changes.drop_last();
        let out = without_key(changes, key);
        let inner = without_key(front, key);
        assert forall|i: int, j: int| 0 <= i < j < front.len() implies (#[trigger] front[i]).0 < (
        #[trigger] front[j]).0 by {
            assert(front[i] == changes[i]);
            assert(front[j] == changes[j]);
        }
        lemma_without_key(front, key);
        assert forall|i: int, j: int| 0 <= i < j < out.len() implies (#[trigger] out[i]).0 < (
        #[trigger] out[j]).0 by {
            assert(out[i] == inner[i]);
            if j < inner.len() {
                assert(out[j] == inner[j]);
            } else {
                let k = lemma_without_key_within(front, key, i);
                assert(front[k] == changes[k]);
                assert(changes[k].0 < changes[changes.len() - 1].0);
            }
        }
    }
}

/// The changes for the other keys are as before.
#[verifier::rlimit(20)]
proof fn lemma_without_key_delta(changes: Seq<(isize, Cell)>, key: isize, k: int)
    requires
        ascending(changes),
        k != key,
    ensures
        delta(without_key(changes, key), k) == delta(changes, k),
{
    if isize::MIN <= k <= isize::MAX {
        let out = without_key(changes, key);
        lemma_without_key(changes, key);
        lemma_change_at(changes, k as isize);
        lemma_change_at(out, k as isize);
        match change_at(changes, k as isize) {
            Some(amount) => {
                let j = choose|j: int|
                    0 <= j < changes.len() && #[trigger] changes[j] == (k as isize, amount) && k
                        == changes[j].0;
                let i = lemma_without_key_keeps(changes, key, j);
                lemma_held_is_delta(out, i);
            },
            None => {
                if change_at(out, k as isize) is Some {
                    let amount = change_at(out, k as isize)->0;
                    let i = choose|i: int|
                        0 <= i < out.len() && #[trigger] out[i] == (k as isize, amount) && k
                            == out[i].0;
                    let j = lemma_without_key_within(changes, key, i);
                    assert(changes[j].0 == k);
                }
            },
        }
    }
}

/// A cell times zero is zero.
proof fn lemma_times_zero(value: Cell)
    ensures
        value.wrapping_mul(0) == 0,
{
    assert(value * 0i8 == 0) by (nonlinear_arith);
}

/// The first `n` changes of a multiply-move with rising keys add to each
/// cell the value times the change that they hold for it.
#[verifier::rlimit(20)]
proof fn lemma_after_moves(changes: Seq<(isize, Cell)>, n: nat, m: Machine, value: Cell, k: int)
    requires
        n <= changes.len(),
        ascending(changes),
    ensures
        after_moves(changes, n, m, value).cell(m.ptr + k) == m.cell(m.ptr + k).wrapping_add(
            value.wrapping_mul(delta(changes.take(n as int), k)),
        ),
    decreases n,
{
    let taken = changes.take(n as int);
    assert forall|i: int, j: int| 0 <= i < j < taken.len() implies (#[trigger] taken[i]).0 < (
    #[trigger] taken[j]).0 by {
        assert(taken[i] == changes[i]);
        assert(taken[j] == changes[j]);
    }
    if n == 0 {
        lemma_times_zero(value);
    } else {
        let fewer = changes.take(n - 1);
        assert forall|i: int, j: int| 0 <= i < j < fewer.len() implies (#[trigger] fewer[i]).0 < (
        #[trigger] fewer[j]).0 by {
            assert(fewer[i] == changes[i]);
            assert(fewer[j] == changes[j]);
        }
        lemma_after_moves(changes, (n - 1) as nat, m, value, k);
        let (offset, factor) = changes[n - 1];
        if isize::MIN <= k <= isize::MAX {
            lemma_change_at(fewer, k as isize);
            lemma_change_at(taken, k as isize);
            if offset == k {
                assert(taken[n - 1] == changes[n - 1]);
                lemma_held_is_delta(taken, n - 1);
                if has_change(fewer, k) {
                    let i = choose|i: int| 0 <= i < fewer.len() && (#[trigger] fewer[i]).0 == k;
                    assert(fewer[i] == changes[i]);
                    assert(changes[i].0 < changes[n - 1].0);
                }
                assert(delta(fewer, k) == 0);
                lemma_times_zero(value);
            } else {
                match change_at(fewer, k as isize) {
                    Some(amount) => {
                        let i = choose|i: int|
                            0 <= i < fewer.len() && #[trigger] fewer[i] == (k as isize, amount)
                                && k == fewer[i].0;
                        assert(taken[i] == fewer[i]);
                        lemma_held_is_delta(taken, i);
                    },
                    None => {
                        if change_at(taken, k as isize) is Some {
                            let amount = change_at(taken, k as isize)->0;
                            let i = choose|i: int|
                                0 <= i < taken.len() && #[trigger] taken[i] == (
                                    k as isize,
                                    amount,
                                ) && k == taken[i].0;
                            if i < n - 1 {
                                assert(fewer[i] == taken[i]);
                            }
                        }
                    },
                }
            }
        }
    }
}

/// A cell and its negative add up to zero.
proof fn lemma_cancel(value: Cell)
    ensures
        value.wrapping_add(value.wrapping_mul(-1i8)) == 0,
{
    assert(value * (-1i8) == -value) by (nonlinear_arith);
}

/// The changes of a multiply body have rising keys, with or without the
/// change for the loop's own cell.
pub proof fn lemma_multiply_changes(body: Seq<Instr>)
    requires
        is_multiply_body(body),
    ensures
        ascending(tallied(body, body.len()).changes),
        ascending(without_key(tallied(body, body.len()).changes, 0)),
        delta(tallied(body, body.len()).changes, 0) == -1,
{
    lemma_tallied(body, body.len(), arbitrary());
    lemma_without_key(tallied(body, body.len()).changes, 0);
}

/// What the multiply-move leaves in a cell other than its own.
proof fn lemma_moved_cell(all: Seq<(isize, Cell)>, m: Machine, k: int)
    requires
        ascending(all),
        ascending(without_key(all, 0)),
        k != 0,
    ensures
        ({
            let changes = without_key(all, 0);
            after_moves(changes, changes.len(), m, m.current()).cell(m.ptr + k) == m.cell(
                m.ptr + k,
            ).wrapping_add(m.current().wrapping_mul(delta(all, k)))
        }),
{
    let changes = without_key(all, 0);
    assert(changes.take(changes.len() as int) =~= changes);
    lemma_after_moves(changes, changes.len(), m, m.current(), k);
    lemma_without_key_delta(all, 0, k);
}

/// After the loop and after the multiply-move, a cell holds the same.
#[verifier::rlimit(20)]
proof fn lemma_multiply_cell(body: Seq<Instr>, m: Machine, i: int)
    requires
        is_multiply_body(body),
        m.current() != 0,
    ensures
        ({
            let all = tallied(body, body.len()).changes;
            let changes = without_key(all, 0);
            looped(m, all, turns(m.current())).cell(i) == after_moves(
                changes,
                changes.len(),
                m,
                m.current(),
            ).with_cell(m.ptr, 0).cell(i)
        }),
{
    let all = tallied(body, body.len()).changes;
    let value = m.current();
    let k = i - m.ptr;
    lemma_multiply_changes(body);
    lemma_times(delta(all, k), value);
    if k != 0 {
        lemma_moved_cell(all, m, k);
        assert(m.ptr + k == i);
    } else {
        lemma_cancel(value);
    }
}

/// A multiply-move made from a loop does what the loop did.
#[verifier::rlimit(20)]
pub proof fn lemma_multiplied_equivalent(instr: Instr)
    ensures
        equivalent(seq![multiplied(instr)], seq![instr]),
{
    if multiplied(instr) != instr {
        let body = instr->Loop_body;
        let position = instr->Loop_position;
        let moves = multiplied(instr);
        let all = tallied(body, body.len()).changes;
        let changes = without_key(all, 0);
        let one = seq![moves];
        let other = seq![instr];
        assert forall|m: Machine| #[trigger] eval(one, m) == eval(other, m) by {
            let value = m.current();
            let fuel = turns(value);
            lemma_multiply_loop(body, position, m, fuel);
            lemma_run_single(instr, m, fuel);
            lemma_eval_is_run(other, m, fuel);
            lemma_eval_simple(moves, m);
            let end = looped(m, all, fuel);
            if value == 0 {
                lemma_same_is_equal(end, m);
            } else {
                let moved = after_moves(changes, changes.len(), m, value);
                lemma_after_moves_frame(changes, changes.len(), m, value);
                let goal = moved.with_cell(m.ptr, 0);
                assert forall|i: int| #[trigger] end.cell(i) == goal.cell(i) by {
                    lemma_multiply_cell(body, m, i);
                }
                lemma_same_is_equal(end, goal);
            }
        }
    }
}

/// Replacing every multiply loop by its multiply-move keeps what is done.
pub proof fn lemma_multiply_equivalent(instrs: Seq<Instr>)
    ensures
        equivalent(instrs.map_values(|instr: Instr| multiplied(instr)), instrs),
{
    let replaced = instrs.map_values(|instr: Instr| multiplied(instr));
    assert forall|i: int| 0 <= i < instrs.len() implies equivalent(
        seq![#[trigger] replaced[i]],
        seq![instrs[i]],
    ) by {
        lemma_multiplied_equivalent(instrs[i]);
    }
    lemma_mapped_equivalent(instrs, replaced);
}

} // verus!
