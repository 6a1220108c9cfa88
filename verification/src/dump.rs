//! The program as readable text, one instruction per line.

use vstd::prelude::*;
use vstd::string::StringExecFns;
use crate::bfir::{AstNode, Cell, Instr, Position, lemma_view_loop};
use crate::changes::entries_of;
use crate::text::{append_repeated, decimal, decimal_string, repeated};

verus! {

/// A position as text.
pub open spec fn position_text(position: Option<Position>) -> Seq<char> {
    match position {
        Some(range) => "Some(Position { start: "@ + decimal(range.start as int) + ", end: "@
            + decimal(range.end as int) + " })"@,
        None => "None"@,
    }
}

/// The changes of a multiply-move as `offset: factor`, with `, ` between.
pub open spec fn changes_text(changes: Seq<(isize, Cell)>) -> Seq<char>
    decreases changes.len(),
{
    if changes.len() == 0 {
        Seq::empty()
    } else {
        let entry = decimal(changes.last().0 as int) + ": "@ + decimal(changes.last().1 as int);
        if changes.len() == 1 {
            entry
        } else {
            changes_text(changes.drop_last()) + ", "@ + entry
        }
    }
}

/// An increment or a set as text: its kind with its fields.
pub open spec fn cell_op_text(
    kind: Seq<char>,
    amount: int,
    offset: int,
    position: Option<Position>,
) -> Seq<char> {
    kind + " { amount: "@ + decimal(amount) + ", offset: "@ + decimal(offset) + ", position: "@
        + position_text(position) + " }"@
}

/// A pointer move as text.
pub open spec fn pointer_text(amount: int, position: Option<Position>) -> Seq<char> {
    "PointerIncrement { amount: "@ + decimal(amount) + ", position: "@ + position_text(position)
        + " }"@
}

/// A read or a write as text.
pub open spec fn io_text(kind: Seq<char>, position: Option<Position>) -> Seq<char> {
    kind + " { position: "@ + position_text(position) + " }"@
}

/// A multiply-move as text.
pub open spec fn moves_text(changes: Seq<(isize, Cell)>, position: Option<Position>) -> Seq<
    char,
> {
    "MultiplyMove { changes: {"@ + changes_text(changes) + "}, position: "@ + position_text(
        position,
    ) + " }"@
}

/// One space more, as far as a `usize` goes.
pub open spec fn deeper(indent: usize) -> usize {
    if indent < usize::MAX {
        (indent + 1) as usize
    } else {
        indent
    }
}

/// An instruction as text behind `indent` spaces: its kind with its
/// fields, or, for a loop, its position, and below it each instruction of
/// its body on a line of its own, one space deeper.
pub open spec fn dumped(instr: Instr, indent: usize) -> Seq<char>
    decreases instr, 0nat,
{
    repeated(' ', indent as nat) + match instr {
        Instr::Loop { body, position } => "Loop position: "@ + position_text(position)
            + dumped_body(body, deeper(indent)),
        Instr::Increment { amount, offset, position } => cell_op_text(
            "Increment"@,
            amount as int,
            offset as int,
            position,
        ),
        Instr::SetCell { amount, offset, position } => cell_op_text(
            "Set"@,
            amount as int,
            offset as int,
            position,
        ),
        Instr::PointerIncrement { amount, position } => pointer_text(amount as int, position),
        Instr::MultiplyMove { changes, position } => moves_text(changes, position),
        Instr::Read { position } => io_text("Read"@, position),
        Instr::Write { position } => io_text("Write"@, position),
    }
}

/// Each instruction of a body on a line of its own.
pub open spec fn dumped_body(body: Seq<Instr>, indent: usize) -> Seq<char>
    decreases body, 1nat,
{
    if body.len() == 0 {
        Seq::empty()
    } else {
        dumped_body(body.drop_last(), indent) + "\n"@ + dumped(body.last(), indent)
    }
}

fn append_position(out: &mut String, position: Option<Position>)
    ensures
        final(out)@ == old(out)@ + position_text(position),
{
    match position {
        Some(range) => {
            out.append("Some(Position { start: ");
            out.append(decimal_string(range.start as i128).as_str());
            out.append(", end: ");
            out.append(decimal_string(range.end as i128).as_str());
            out.append(" })");
            assert(out@ =~= old(out)@ + position_text(position));
        },
        None => {
            out.append("None");
        },
    }
}

fn append_changes(out: &mut String, changes: &Vec<(isize, Cell)>)
    ensures
        final(out)@ == old(out)@ + changes_text(changes@),
{
    let mut i: usize = 0;
    assert(changes@.take(0) =~= Seq::empty());
    assert(out@ =~= old(out)@ + changes_text(changes@.take(0)));
    while i < changes.len()
        invariant
            i <= changes.len(),
            out@ == old(out)@ + changes_text(changes@.take(i as int)),
        decreases changes.len() - i,
    {
        let ghost before = out@;
        if i > 0 {
            out.append(", ");
        }
        out.append(decimal_string(changes[i].0 as i128).as_str());
        out.append(": ");
        out.append(decimal_string(changes[i].1 as i128).as_str());
        proof {
            let next = changes@.take(i + 1);
            assert(next.drop_last() =~= changes@.take(i as int));
            assert(next.last() == changes@[i as int]);
            assert(out@ =~= old(out)@ + changes_text(next));
        }
        i += 1;
    }
    assert(changes@.take(i as int) =~= changes@);
}

fn append_cell_op(
    out: &mut String,
    kind: &str,
    amount: Cell,
    offset: isize,
    position: Option<Position>,
)
    ensures
        final(out)@ == old(out)@ + cell_op_text(kind@, amount as int, offset as int, position),
{
    out.append(kind);
    out.append(" { amount: ");
    out.append(decimal_string(amount as i128).as_str());
    out.append(", offset: ");
    out.append(decimal_string(offset as i128).as_str());
    out.append(", position: ");
    append_position(out, position);
    out.append(" }");
    assert(out@ =~= old(out)@ + cell_op_text(kind@, amount as int, offset as int, position));
}

fn append_pointer(out: &mut String, amount: isize, position: Option<Position>)
    ensures
        final(out)@ == old(out)@ + pointer_text(amount as int, position),
{
    out.append("PointerIncrement { amount: ");
    out.append(decimal_string(amount as i128).as_str());
    out.append(", position: ");
    append_position(out, position);
    out.append(" }");
    assert(out@ =~= old(out)@ + pointer_text(amount as int, position));
}

fn append_io(out: &mut String, kind: &str, position: Option<Position>)
    ensures
        final(out)@ == old(out)@ + io_text(kind@, position),
{
    out.append(kind);
    out.append(" { position: ");
    append_position(out, position);
    out.append(" }");
    assert(out@ =~= old(out)@ + io_text(kind@, position));
}

fn append_moves(out: &mut String, changes: &Vec<(isize, Cell)>, position: Option<Position>)
    ensures
        final(out)@ == old(out)@ + moves_text(changes@, position),
{
    out.append("MultiplyMove { changes: {");
    append_changes(out, changes);
    out.append("}, position: ");
    append_position(out, position);
    out.append(" }");
    assert(out@ =~= old(out)@ + moves_text(changes@, position));
}

/// Appends an instruction as text behind `indent` spaces.
pub fn fmt_with_indent(instr: &AstNode, indent: usize, out: &mut String)
    ensures
        final(out)@ == old(out)@ + dumped(instr@, indent),
    decreases instr, 0nat,
{
    proof {
        reveal_strlit(" ");
    }
    append_repeated(out, " ", indent);
    let ghost start = out@;
    match instr {
        AstNode::Loop { body, position } => {
            proof {
                lemma_view_loop(*body, *position);
            }
            out.append("Loop position: ");
            append_position(out, *position);
            let inner = if indent < usize::MAX {
                indent + 1
            } else {
                indent
            };
            fmt_body(body, inner, out);
            assert(out@ =~= start + ("Loop position: "@ + position_text(*position) + dumped_body(
                body.deep_view(),
                deeper(indent),
            )));
        },
        AstNode::Increment { amount, offset, position } => {
            append_cell_op(out, "Increment", *amount, *offset, *position);
        },
        AstNode::SetCell { amount, offset, position } => {
            append_cell_op(out, "Set", *amount, *offset, *position);
        },
        AstNode::PointerIncrement { amount, position } => {
            append_pointer(out, *amount, *position);
        },
        AstNode::MultiplyMove { changes, position } => {
            append_moves(out, &entries_of(changes), *position);
        },
        AstNode::Read { position } => {
            append_io(out, "Read", *position);
        },
        AstNode::Write { position } => {
            append_io(out, "Write", *position);
        },
    }
}

/// Appends each instruction of a body on a line of its own.
pub fn fmt_body(body: &Vec<AstNode>, indent: usize, out: &mut String)
    ensures
        final(out)@ == old(out)@ + dumped_body(body.deep_view(), indent),
    decreases body, 1nat,
{
    let mut i: usize = 0;
    assert(body.deep_view().take(0) =~= Seq::empty());
    assert(out@ =~= old(out)@ + dumped_body(body.deep_view().take(0), indent));
    while i < body.len()
        invariant
            i <= body.len(),
            out@ == old(out)@ + dumped_body(body.deep_view().take(i as int), indent),
        decreases body.len() - i,
    {
        out.append("\n");
        fmt_with_indent(&body[i], indent, out);
        proof {
            let next = body.deep_view().take(i + 1);
            assert(next.drop_last() =~= body.deep_view().take(i as int));
            assert(next.last() == body[i as int]@);
            assert(out@ =~= old(out)@ + dumped_body(next, indent));
        }
        i += 1;
    }
    assert(body.deep_view().take(i as int) =~= body.deep_view());
}

impl AstNode {
    /// The instruction as text, a loop with its body below it.
    pub fn to_string(&self) -> (text: String)
        ensures
            text@ == dumped(self@, 0),
    {
        let mut text = String::new();
        fmt_with_indent(self, 0, &mut text);
        assert(text@ =~= dumped(self@, 0));
        text
    }
}

} // verus!
