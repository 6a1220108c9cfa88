//! Writing a parsed program out again and parsing that.

use vstd::prelude::*;
use crate::bfir::{
    CLOSE, COMMA, DOT, Instr, LEFT, MINUS, OPEN, PLUS, RIGHT, Scan, is_command, is_primitive,
    parsed, primitive, scan, scan_step,
};
use crate::semantics::equivalent;
use crate::theorems::equivalence::{
    lemma_equivalent_loop, lemma_equivalent_sym, lemma_equivalent_trans, lemma_mapped_equivalent,
};
use crate::semantics::{Machine, eval, lemma_eval_simple};

verus! {

/// The commands among the first `n` bytes of a source.
pub open spec fn commands(source: Seq<u8>, n: nat) -> Seq<u8>
    decreases n,
{
    if n == 0 || n > source.len() {
        Seq::empty()
    } else if is_command(source[n - 1]) {
        commands(source, (n - 1) as nat).push(source[n - 1])
    } else {
        commands(source, (n - 1) as nat)
    }
}

/// The source text of an instruction as the parser reads it; nothing for
/// an instruction that the parser does not give.
pub open spec fn source_of_instr(instr: Instr) -> Seq<u8>
    decreases instr, 0nat,
{
    match instr {
        Instr::Increment { amount: 1, offset: 0, .. } => seq![PLUS],
        Instr::Increment { amount: -1, offset: 0, .. } => seq![MINUS],
        Instr::PointerIncrement { amount: 1, .. } => seq![RIGHT],
        Instr::PointerIncrement { amount: -1, .. } => seq![LEFT],
        Instr::Write { .. } => seq![DOT],
        Instr::Read { .. } => seq![COMMA],
        Instr::Loop { body, .. } => seq![OPEN] + source_of(body) + seq![CLOSE],
        _ => Seq::empty(),
    }
}

/// The source text of a sequence of instructions.
pub open spec fn source_of(instrs: Seq<Instr>) -> Seq<u8>
    decreases instrs, 1nat,
{
    if instrs.len() == 0 {
        Seq::empty()
    } else {
        source_of(instrs.drop_last()) + source_of_instr(instrs.last())
    }
}

/// An instruction without its position, and without those in its body.
pub open spec fn unplaced_instr(instr: Instr) -> Instr
    decreases instr, 0nat,
{
    match instr {
        Instr::Increment { amount, offset, .. } => Instr::Increment { amount, offset, position: None },
        Instr::SetCell { amount, offset, .. } => Instr::SetCell { amount, offset, position: None },
        Instr::PointerIncrement { amount, .. } => Instr::PointerIncrement { amount, position: None },
        Instr::MultiplyMove { changes, .. } => Instr::MultiplyMove { changes, position: None },
        Instr::Read { .. } => Instr::Read { position: None },
        Instr::Write { .. } => Instr::Write { position: None },
        Instr::Loop { body, .. } => Instr::Loop { body: unplaced(body), position: None },
    }
}

/// A sequence of instructions without their positions.
pub open spec fn unplaced(instrs: Seq<Instr>) -> Seq<Instr>
    decreases instrs, 1nat,
{
    if instrs.len() == 0 {
        Seq::empty()
    } else {
        unplaced(instrs.drop_last()).push(unplaced_instr(instrs.last()))
    }
}

/// The text read so far for the loops still open, each up to and with
/// its `[`.
pub open spec fn frames_text(frames: Seq<(Seq<Instr>, usize)>) -> Seq<u8>
    decreases frames.len(),
{
    if frames.len() == 0 {
        Seq::empty()
    } else {
        frames_text(frames.drop_last()) + source_of(frames.last().0) + seq![OPEN]
    }
}

/// The text that a parser state stands for.
pub open spec fn text_of(state: Scan) -> Seq<u8> {
    frames_text(state.frames) + source_of(state.current)
}

proof fn lemma_source_of_push(instrs: Seq<Instr>, instr: Instr)
    ensures
        source_of(instrs.push(instr)) == source_of(instrs) + source_of_instr(instr),
{
    assert(instrs.push(instr).drop_last() =~= instrs);
}

proof fn lemma_stray_before(source: Seq<u8>, n: nat)
    requires
        n > 0,
        scan(source, n).stray is None,
    ensures
        scan(source, (n - 1) as nat).stray is None,
{
}

/// The parser's state stands for the commands it has read.
#[verifier::rlimit(20)]
proof fn lemma_scan_text(source: Seq<u8>, n: nat)
    requires
        n <= source.len(),
        scan(source, n).stray is None,
    ensures
        text_of(scan(source, n)) == commands(source, n),
    decreases n,
{
    if n == 0 {
        assert(text_of(scan(source, 0)) =~= Seq::<u8>::empty());
    } else {
        lemma_stray_before(source, n);
        lemma_scan_text(source, (n - 1) as nat);
        let before = scan(source, (n - 1) as nat);
        let after = scan(source, n);
        let byte = source[n - 1];
        let at = (n - 1) as usize;
        assert(after == scan_step(before, byte, at));
        if byte == OPEN {
            assert(after.frames.drop_last() =~= before.frames);
            assert(text_of(after) =~= text_of(before).push(byte));
        } else if byte == CLOSE {
            let (outer, open) = before.frames.last();
            let node = Instr::Loop {
                body: before.current,
                position: Some(crate::bfir::Position { start: open, end: at }),
            };
            lemma_source_of_push(outer, node);
            assert(text_of(after) =~= text_of(before).push(byte));
        } else if is_primitive(byte) {
            lemma_source_of_push(before.current, primitive(byte, at));
            assert(text_of(after) =~= text_of(before).push(byte));
        }
    }
}

/// The commands of a prefix are a prefix of the commands.
proof fn lemma_commands_prefix(source: Seq<u8>, n: nat, m: nat)
    requires
        n <= m <= source.len(),
    ensures
        commands(source, n).len() <= commands(source, m).len(),
        commands(source, m).take(commands(source, n).len() as int) == commands(source, n),
    decreases m - n,
{
    if n == m {
        assert(commands(source, m).take(commands(source, n).len() as int) =~= commands(source, n));
    } else {
        lemma_commands_prefix(source, n, (m - 1) as nat);
        let shorter = commands(source, (m - 1) as nat);
        assert(commands(source, m).take(commands(source, n).len() as int) =~= shorter.take(
            commands(source, n).len() as int,
        ));
    }
}

/// Whether two parser states differ in positions only.
pub open spec fn same_unplaced(a: Scan, b: Scan) -> bool {
    &&& a.stray is None
    &&& b.stray is None
    &&& a.frames.len() == b.frames.len()
    &&& forall|i: int|
        0 <= i < a.frames.len() ==> unplaced((#[trigger] a.frames[i]).0) == unplaced(b.frames[i].0)
    &&& unplaced(a.current) == unplaced(b.current)
}

proof fn lemma_unplaced_push(instrs: Seq<Instr>, instr: Instr)
    ensures
        unplaced(instrs.push(instr)) == unplaced(instrs).push(unplaced_instr(instr)),
{
    assert(instrs.push(instr).drop_last() =~= instrs);
}

/// One more command keeps two parser states the same but for positions.
#[verifier::rlimit(20)]
proof fn lemma_step_unplaced(a: Scan, b: Scan, byte: u8, at_a: usize, at_b: usize)
    requires
        same_unplaced(a, b),
        scan_step(b, byte, at_b).stray is None,
    ensures
        same_unplaced(scan_step(a, byte, at_a), scan_step(b, byte, at_b)),
{
    let a2 = scan_step(a, byte, at_a);
    let b2 = scan_step(b, byte, at_b);
    if byte == OPEN {
        assert forall|i: int| 0 <= i < a2.frames.len() implies unplaced(
            (#[trigger] a2.frames[i]).0,
        ) == unplaced(b2.frames[i].0) by {
            if i < a.frames.len() {
                assert(a2.frames[i] == a.frames[i]);
                assert(b2.frames[i] == b.frames[i]);
            }
        }
    } else if byte == CLOSE {
        let (outer_a, open_a) = a.frames.last();
        let (outer_b, open_b) = b.frames.last();
        assert(unplaced(a.frames[a.frames.len() - 1].0) == unplaced(b.frames[a.frames.len() - 1].0));
        lemma_unplaced_push(
            outer_a,
            Instr::Loop {
                body: a.current,
                position: Some(crate::bfir::Position { start: open_a, end: at_a }),
            },
        );
        lemma_unplaced_push(
            outer_b,
            Instr::Loop {
                body: b.current,
                position: Some(crate::bfir::Position { start: open_b, end: at_b }),
            },
        );
        assert forall|i: int| 0 <= i < a2.frames.len() implies unplaced(
            (#[trigger] a2.frames[i]).0,
        ) == unplaced(b2.frames[i].0) by {
            assert(a2.frames[i] == a.frames[i]);
            assert(b2.frames[i] == b.frames[i]);
        }
    } else if is_primitive(byte) {
        lemma_unplaced_push(a.current, primitive(byte, at_a));
        lemma_unplaced_push(b.current, primitive(byte, at_b));
    }
}

/// Parsing the commands of a source goes as parsing the source, but for
/// positions.
proof fn lemma_scan_commands(source: Seq<u8>, n: nat)
    requires
        n <= source.len(),
        scan(source, n).stray is None,
    ensures
        same_unplaced(
            scan(commands(source, source.len()), commands(source, n).len()),
            scan(source, n),
        ),
    decreases n,
{
    let text = commands(source, source.len());
    if n > 0 {
        lemma_stray_before(source, n);
        lemma_scan_commands(source, (n - 1) as nat);
        let byte = source[n - 1];
        let read = commands(source, (n - 1) as nat).len();
        if is_command(byte) {
            lemma_commands_prefix(source, n, source.len());
            assert(text[read as int] == text.take(commands(source, n).len() as int)[read as int]);
            assert(text[read as int] == byte);
            lemma_step_unplaced(
                scan(text, read),
                scan(source, (n - 1) as nat),
                byte,
                read as usize,
                (n - 1) as usize,
            );
        }
    }
}

/// An instruction does what it does without its position.
pub proof fn lemma_unplaced_instr_equivalent(instr: Instr)
    ensures
        equivalent(seq![unplaced_instr(instr)], seq![instr]),
    decreases instr, 0nat,
{
    let bare = unplaced_instr(instr);
    match instr {
        Instr::Loop { body, position } => {
            lemma_unplaced_equivalent(body);
            lemma_equivalent_loop(unplaced(body), None, body, position);
        },
        _ => {
            let one = seq![bare];
            let other = seq![instr];
            assert forall|m: Machine| #[trigger] eval(one, m) == eval(other, m) by {
                lemma_eval_simple(bare, m);
                lemma_eval_simple(instr, m);
            }
        },
    }
}

/// A program does what it does without its positions.
pub proof fn lemma_unplaced_equivalent(instrs: Seq<Instr>)
    ensures
        equivalent(unplaced(instrs), instrs),
    decreases instrs, 1nat,
{
    lemma_unplaced_index(instrs);
    assert forall|i: int| 0 <= i < instrs.len() implies equivalent(
        seq![#[trigger] unplaced(instrs)[i]],
        seq![instrs[i]],
    ) by {
        lemma_unplaced_instr_equivalent(instrs[i]);
    }
    lemma_mapped_equivalent(instrs, unplaced(instrs));
}

proof fn lemma_unplaced_index(instrs: Seq<Instr>)
    ensures
        unplaced(instrs).len() == instrs.len(),
        forall|i: int|
            0 <= i < instrs.len() ==> #[trigger] unplaced(instrs)[i] == unplaced_instr(instrs[i]),
    decreases instrs.len(),
{
    if instrs.len() > 0 {
        lemma_unplaced_index(instrs.drop_last());
        assert forall|i: int| 0 <= i < instrs.len() implies #[trigger] unplaced(instrs)[i]
            == unplaced_instr(instrs[i]) by {
            if i < instrs.len() - 1 {
                assert(instrs.drop_last()[i] == instrs[i]);
            }
        }
    }
}

/// For a source that parses: the program written out again is the source
/// without its comments; that text parses too, to a program that differs
/// from the first in positions only; and so the two do the same.
pub proof fn lemma_parse_round_trip(source: Seq<u8>)
    requires
        parsed(source) is Ok,
    ensures
        ({
            let program = parsed(source)->Ok_0;
            let text = source_of(program);
            &&& text == commands(source, source.len())
            &&& parsed(text) is Ok
            &&& unplaced(parsed(text)->Ok_0) == unplaced(program)
            &&& equivalent(parsed(text)->Ok_0, program)
        }),
{
    let end = scan(source, source.len());
    let program = end.current;
    lemma_scan_text(source, source.len());
    assert(end.frames.len() == 0);
    assert(text_of(end) =~= source_of(program));
    let text = commands(source, source.len());
    lemma_scan_commands(source, source.len());
    let again = scan(text, text.len());
    assert(again.frames.len() == 0);
    lemma_unplaced_equivalent(again.current);
    lemma_unplaced_equivalent(program);
    lemma_equivalent_sym(unplaced(again.current), again.current);
    lemma_equivalent_trans(again.current, unplaced(program), program);
}

} // verus!
