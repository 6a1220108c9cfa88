//! The shape of the programs that the parser and the multiply pass give.

use vstd::prelude::*;
use crate::bfir::{Instr, Position, Scan, is_primitive, parsed, scan, scan_step, CLOSE, OPEN};
use crate::peephole::multiply::{multiplied, tallied, without_key};
use crate::peephole::queries::has_key;
use crate::changes::ascending;
use crate::theorems::multiplying::lemma_multiply_changes;

verus! {

/// Whether a position is a single byte.
pub open spec fn is_point(position: Option<Position>) -> bool {
    position matches Some(range) && range.start == range.end
}

/// Whether an instruction is one that the parser gives: an increment by
/// one or minus one of the current cell, a pointer move by one or minus
/// one, a read or a write, each at a single byte; or a loop of such
/// instructions, from its `[` to its `]`.
pub open spec fn is_parsed(instr: Instr) -> bool
    decreases instr,
{
    match instr {
        Instr::Increment { amount, offset, position } => (amount == 1 || amount == -1) && offset
            == 0 && is_point(position),
        Instr::PointerIncrement { amount, position } => (amount == 1 || amount == -1) && is_point(
            position,
        ),
        Instr::Read { position } => is_point(position),
        Instr::Write { position } => is_point(position),
        Instr::Loop { body, position } => {
            &&& position matches Some(range) && range.start < range.end
            &&& forall|i: int| 0 <= i < body.len() ==> is_parsed(#[trigger] body[i])
        },
        _ => false,
    }
}

/// Whether all instructions are such as the parser gives.
pub open spec fn all_parsed(instrs: Seq<Instr>) -> bool {
    forall|i: int| 0 <= i < instrs.len() ==> is_parsed(#[trigger] instrs[i])
}

/// Whether a parser state after `n` bytes holds parsed instructions only,
/// with every open loop's `[` among the bytes read.
pub open spec fn parsed_so_far(state: Scan, n: nat) -> bool {
    &&& all_parsed(state.current)
    &&& forall|i: int|
        0 <= i < state.frames.len() ==> all_parsed((#[trigger] state.frames[i]).0)
            && state.frames[i].1 < n
}

#[verifier::rlimit(20)]
proof fn lemma_scan_parsed(source: Seq<u8>, n: nat)
    requires
        n <= source.len() <= usize::MAX,
    ensures
        parsed_so_far(scan(source, n), n),
    decreases n,
{
    if n > 0 {
        lemma_scan_parsed(source, (n - 1) as nat);
        let before = scan(source, (n - 1) as nat);
        let after = scan(source, n);
        let byte = source[n - 1];
        let at = (n - 1) as usize;
        assert(after == scan_step(before, byte, at));
        if before.stray is Some {
        } else if byte == OPEN {
            assert forall|i: int| 0 <= i < after.frames.len() implies all_parsed(
                (#[trigger] after.frames[i]).0,
            ) && after.frames[i].1 < n by {
                if i < before.frames.len() {
                    assert(after.frames[i] == before.frames[i]);
                }
            }
        } else if byte == CLOSE {
            if before.frames.len() > 0 {
                let (outer, open) = before.frames.last();
                assert(before.frames[before.frames.len() - 1] == before.frames.last());
                assert forall|i: int| 0 <= i < after.frames.len() implies all_parsed(
                    (#[trigger] after.frames[i]).0,
                ) && after.frames[i].1 < n by {
                    assert(after.frames[i] == before.frames[i]);
                }
                assert forall|i: int| 0 <= i < after.current.len() implies is_parsed(
                    #[trigger] after.current[i],
                ) by {
                    if i < outer.len() {
                        assert(after.current[i] == outer[i]);
                    }
                }
            }
        } else if is_primitive(byte) {
            assert forall|i: int| 0 <= i < after.current.len() implies is_parsed(
                #[trigger] after.current[i],
            ) by {
                if i < before.current.len() {
                    assert(after.current[i] == before.current[i]);
                }
            }
        }
        assert forall|i: int| 0 <= i < after.frames.len() implies all_parsed(
            (#[trigger] after.frames[i]).0,
        ) && after.frames[i].1 < n by {
            if before.stray is Some || !(byte == OPEN || byte == CLOSE) {
                assert(after.frames[i] == before.frames[i]);
            }
        }
    }
}

/// What the parser gives holds no set and no multiply-move, every
/// increment and pointer move in it is by one, and every position in it
/// is there and starts no later than it ends.
pub proof fn lemma_parsed_shape(source: Seq<u8>)
    requires
        source.len() <= usize::MAX,
        parsed(source) is Ok,
    ensures
        all_parsed(parsed(source)->Ok_0),
{
    lemma_scan_parsed(source, source.len());
}

/// A multiply-move that the multiply pass puts in the place of a loop has
/// no change for the loop's own cell, and the offsets of its changes
/// rise.
pub proof fn lemma_multiplied_shape(instr: Instr)
    requires
        multiplied(instr) != instr,
    ensures
        instr is Loop,
        multiplied(instr) is MultiplyMove,
        !has_key(multiplied(instr)->MultiplyMove_changes, 0),
        ascending(multiplied(instr)->MultiplyMove_changes),
        multiplied(instr)->MultiplyMove_position == instr->Loop_position,
{
    let body = instr->Loop_body;
    let all = tallied(body, body.len()).changes;
    let changes = without_key(all, 0);
    lemma_multiply_changes(body);
    lemma_no_own_key(all);
}

proof fn lemma_no_own_key(changes: Seq<(isize, crate::bfir::Cell)>)
    ensures
        !has_key(without_key(changes, 0), 0),
    decreases changes.len(),
{
    if changes.len() > 0 {
        lemma_no_own_key(changes.drop_last());
        let out = without_key(changes, 0);
        let inner = without_key(changes.drop_last(), 0);
        assert forall|j: int| 0 <= j < out.len() implies (#[trigger] out[j]).0 != 0 by {
            if j < inner.len() {
                assert(out[j] == inner[j]);
                assert(!has_key(inner, 0));
            }
        }
    }
}

} // verus!
