//! The instruction tree, source positions and the parser.

use vstd::prelude::*;
use vstd::string::StringSliceAdditionalSpecFns;
use std::collections::HashMap;
use crate::changes::{entries, entries_of};

verus! {

/// A tape cell: an 8-bit integer on which all arithmetic wraps.
pub type Cell = i8;

/// A range of source bytes, both ends included.
#[derive(PartialEq, Eq, Debug, Clone, Copy, Structural)]
pub struct Position {
    pub start: usize,
    pub end: usize,
}

/// One instruction of the tree. Offsets count from the pointer. A
/// multiply-move adds to the cell at each offset the current cell times
/// the factor given for it, and leaves the current cell at zero.
#[derive(PartialEq, Eq, Debug)]
#[allow(inconsistent_fields)]
pub enum AstNode {
    SetCell { amount: Cell, offset: isize, position: Option<Position> },
    MultiplyMove { changes: HashMap<isize, Cell>, position: Option<Position> },
    Increment { amount: Cell, offset: isize, position: Option<Position> },
    PointerIncrement { amount: isize, position: Option<Position> },
    Read { position: Option<Position> },
    Write { position: Option<Position> },
    Loop { body: Vec<AstNode>, position: Option<Position> },
}

/// The mathematical value of an instruction: what contracts speak of. The
/// changes of a multiply-move stand in it by rising offset.
#[allow(inconsistent_fields)]
pub ghost enum Instr {
    SetCell { amount: Cell, offset: isize, position: Option<Position> },
    MultiplyMove { changes: Seq<(isize, Cell)>, position: Option<Position> },
    Increment { amount: Cell, offset: isize, position: Option<Position> },
    PointerIncrement { amount: isize, position: Option<Position> },
    Read { position: Option<Position> },
    Write { position: Option<Position> },
    Loop { body: Seq<Instr>, position: Option<Position> },
}

/// The value of one instruction.
pub open spec fn node_view(node: AstNode) -> Instr
    decreases node,
{
    match node {
        AstNode::SetCell { amount, offset, position } => Instr::SetCell { amount, offset, position },
        AstNode::MultiplyMove { changes, position } => Instr::MultiplyMove {
            changes: entries(changes@),
            position,
        },
        AstNode::Increment { amount, offset, position } => Instr::Increment {
            amount,
            offset,
            position,
        },
        AstNode::PointerIncrement { amount, position } => Instr::PointerIncrement {
            amount,
            position,
        },
        AstNode::Read { position } => Instr::Read { position },
        AstNode::Write { position } => Instr::Write { position },
        AstNode::Loop { body, position } => Instr::Loop { body: nodes_view(body@), position },
    }
}

/// The values of a sequence of instructions, in order.
pub open spec fn nodes_view(nodes: Seq<AstNode>) -> Seq<Instr>
    decreases nodes,
{
    if nodes.len() == 0 {
        Seq::empty()
    } else {
        nodes_view(nodes.drop_last()).push(node_view(nodes.last()))
    }
}

/// `nodes_view` works element by element.
pub proof fn lemma_nodes_view(nodes: Seq<AstNode>)
    ensures
        nodes_view(nodes).len() == nodes.len(),
        forall|i: int| 0 <= i < nodes.len() ==> nodes_view(nodes)[i] == node_view(#[trigger] nodes[i]),
    decreases nodes.len(),
{
    if nodes.len() > 0 {
        let front = nodes.drop_last();
        lemma_nodes_view(front);
        assert forall|i: int| 0 <= i < nodes.len() implies nodes_view(nodes)[i] == node_view(
            #[trigger] nodes[i],
        ) by {
            if i < front.len() {
                assert(front[i] == nodes[i]);
            }
        }
    }
}

impl DeepView for AstNode {
    type V = Instr;

    open spec fn deep_view(&self) -> Instr {
        node_view(*self)
    }
}

impl View for AstNode {
    type V = Instr;

    open spec fn view(&self) -> Instr {
        self.deep_view()
    }
}

/// The position of an instruction, if it has one.
pub fn get_position(instr: &AstNode) -> (position: Option<Position>)
    ensures
        position == position_of(instr@),
{
    match instr {
        AstNode::Increment { position, .. } => *position,
        AstNode::PointerIncrement { position, .. } => *position,
        AstNode::Read { position } => *position,
        AstNode::Write { position } => *position,
        AstNode::Loop { position, .. } => *position,
        AstNode::SetCell { position, .. } => *position,
        AstNode::MultiplyMove { position, .. } => *position,
    }
}

/// The position of an instruction, if it has one.
pub open spec fn position_of(instr: Instr) -> Option<Position> {
    match instr {
        Instr::Increment { position, .. } => position,
        Instr::PointerIncrement { position, .. } => position,
        Instr::Read { position } => position,
        Instr::Write { position } => position,
        Instr::Loop { position, .. } => position,
        Instr::SetCell { position, .. } => position,
        Instr::MultiplyMove { position, .. } => position,
    }
}

/// A deep copy of an instruction.
pub fn clone_node(instr: &AstNode) -> (copy: AstNode)
    ensures
        copy@ == instr@,
    decreases instr,
{
    match instr {
        AstNode::SetCell { amount, offset, position } => AstNode::SetCell {
            amount: *amount,
            offset: *offset,
            position: *position,
        },
        AstNode::MultiplyMove { changes, position } => AstNode::MultiplyMove {
            changes: changes.clone(),
            position: *position,
        },
        AstNode::Increment { amount, offset, position } => AstNode::Increment {
            amount: *amount,
            offset: *offset,
            position: *position,
        },
        AstNode::PointerIncrement { amount, position } => AstNode::PointerIncrement {
            amount: *amount,
            position: *position,
        },
        AstNode::Read { position } => AstNode::Read { position: *position },
        AstNode::Write { position } => AstNode::Write { position: *position },
        AstNode::Loop { body, position } => {
            let copied = clone_nodes(body);
            proof {
                lemma_view_loop(*body, *position);
                lemma_view_loop(copied, *position);
            }
            AstNode::Loop { body: copied, position: *position }
        },
    }
}

/// A deep copy of a sequence of instructions.
pub fn clone_nodes(instrs: &Vec<AstNode>) -> (copy: Vec<AstNode>)
    ensures
        copy.deep_view() == instrs.deep_view(),
    decreases instrs,
{
    let mut copied: Vec<AstNode> = Vec::new();
    let mut i: usize = 0;
    while i < instrs.len()
        invariant
            i <= instrs.len(),
            copied.len() == i,
            copied.deep_view() == instrs.deep_view().take(i as int),
        decreases instrs.len() - i,
    {
        let c = clone_node(&instrs[i]);
        let ghost before = copied;
        copied.push(c);
        assert forall|j: int| 0 <= j < copied.len() implies copied.deep_view()[j]
            == instrs.deep_view()[j] by {
            if j < i {
                assert(before.deep_view()[j] == instrs.deep_view().take(i as int)[j]);
            }
        }
        assert(copied.deep_view() =~= instrs.deep_view().take(i + 1));
        i += 1;
    }
    assert(copied.deep_view() =~= instrs.deep_view());
    copied
}

/// The value of a loop is the loop over the values of its body.
pub proof fn lemma_view_loop(body: Vec<AstNode>, position: Option<Position>)
    ensures
        (AstNode::Loop { body, position })@ == (Instr::Loop { body: body.deep_view(), position }),
{
    lemma_nodes_view(body@);
    assert(nodes_view(body@) =~= body.deep_view());
}

/// Pushing an instruction onto a vector pushes its value onto the vector's value.
pub proof fn lemma_deep_view_push(before: Vec<AstNode>, after: Vec<AstNode>, node: AstNode)
    requires
        after@ == before@.push(node),
    ensures
        after.deep_view() == before.deep_view().push(node@),
{
    assert(after.deep_view() =~= before.deep_view().push(node@));
}

/// Whether two instructions have the same value, positions included.
pub fn same_node(a: &AstNode, b: &AstNode) -> (same: bool)
    ensures
        same == (a@ == b@),
    decreases a,
{
    match (a, b) {
        (
            AstNode::SetCell { amount: a1, offset: o1, position: pos1 },
            AstNode::SetCell { amount: a2, offset: o2, position: pos2 },
        ) => *a1 == *a2 && *o1 == *o2 && same_position(*pos1, *pos2),
        (
            AstNode::MultiplyMove { changes: c1, position: pos1 },
            AstNode::MultiplyMove { changes: c2, position: pos2 },
        ) => {
            same_position(*pos1, *pos2) && same_changes(&entries_of(c1), &entries_of(c2))
        },
        (
            AstNode::Increment { amount: a1, offset: o1, position: pos1 },
            AstNode::Increment { amount: a2, offset: o2, position: pos2 },
        ) => *a1 == *a2 && *o1 == *o2 && same_position(*pos1, *pos2),
        (
            AstNode::PointerIncrement { amount: a1, position: pos1 },
            AstNode::PointerIncrement { amount: a2, position: pos2 },
        ) => *a1 == *a2 && same_position(*pos1, *pos2),
        (AstNode::Read { position: pos1 }, AstNode::Read { position: pos2 }) => same_position(
            *pos1,
            *pos2,
        ),
        (AstNode::Write { position: pos1 }, AstNode::Write { position: pos2 }) => same_position(
            *pos1,
            *pos2,
        ),
        (
            AstNode::Loop { body: b1, position: pos1 },
            AstNode::Loop { body: b2, position: pos2 },
        ) => {
            proof {
                lemma_view_loop(*b1, *pos1);
                lemma_view_loop(*b2, *pos2);
            }
            same_position(*pos1, *pos2) && same_nodes(b1, b2)
        },
        _ => false,
    }
}

/// Whether two lists of cell changes are equal.
pub fn same_changes(a: &Vec<(isize, Cell)>, b: &Vec<(isize, Cell)>) -> (same: bool)
    ensures
        same == (a@ == b@),
{
    if a.len() != b.len() {
        return false;
    }
    let mut i: usize = 0;
    while i < a.len()
        invariant
            i <= a.len(),
            a.len() == b.len(),
            a@.take(i as int) == b@.take(i as int),
        decreases a.len() - i,
    {
        if a[i].0 != b[i].0 || a[i].1 != b[i].1 {
            assert(a@[i as int] != b@[i as int]);
            return false;
        }
        assert(a@.take(i + 1) =~= a@.take(i as int).push(a@[i as int]));
        assert(b@.take(i + 1) =~= b@.take(i as int).push(b@[i as int]));
        i += 1;
    }
    assert(a@ =~= a@.take(i as int));
    assert(b@ =~= b@.take(i as int));
    true
}

/// Whether two sequences of instructions have the same value.
pub fn same_nodes(a: &Vec<AstNode>, b: &Vec<AstNode>) -> (same: bool)
    ensures
        same == (a.deep_view() == b.deep_view()),
    decreases a,
{
    if a.len() != b.len() {
        assert(a.deep_view().len() != b.deep_view().len());
        return false;
    }
    let mut i: usize = 0;
    while i < a.len()
        invariant
            i <= a.len(),
            a.len() == b.len(),
            a.deep_view().take(i as int) == b.deep_view().take(i as int),
        decreases a.len() - i,
    {
        if !same_node(&a[i], &b[i]) {
            assert(a.deep_view()[i as int] != b.deep_view()[i as int]);
            return false;
        }
        assert(a.deep_view().take(i + 1) =~= a.deep_view().take(i as int).push(a@[i as int]@));
        assert(b.deep_view().take(i + 1) =~= b.deep_view().take(i as int).push(b@[i as int]@));
        i += 1;
    }
    assert(a.deep_view() =~= a.deep_view().take(i as int));
    assert(b.deep_view() =~= b.deep_view().take(i as int));
    true
}

/// Whether two optional positions are equal.
pub fn same_position(a: Option<Position>, b: Option<Position>) -> (same: bool)
    ensures
        same == (a == b),
{
    match (a, b) {
        (Some(p), Some(q)) => p.start == q.start && p.end == q.end,
        (None, None) => true,
        _ => false,
    }
}

/// The range that two optional positions merge into: absent if either is
/// absent; the range that spans both, from the lesser start to the
/// greater end, if the one that starts later starts no further than one
/// byte past the other's end; else the second operand.
pub open spec fn combined_position(a: Option<Position>, b: Option<Position>) -> Option<Position> {
    match (a, b) {
        (Some(p), Some(q)) => {
            let first = if p.start <= q.start { p } else { q };
            let second = if p.start <= q.start { q } else { p };
            if first.end + 1 >= second.start {
                Some(
                    Position {
                        start: first.start,
                        end: if first.end >= second.end {
                            first.end
                        } else {
                            second.end
                        },
                    },
                )
            } else {
                Some(q)
            }
        },
        _ => None,
    }
}

/// Values that merge with another of some type.
pub trait Combine<T> {
    /// What `combine` returns.
    spec fn combined(&self, other: T) -> T;

    fn combine(&self, other: T) -> (merged: T)
        ensures
            merged == self.combined(other),
    ;
}

impl Combine<Option<Position>> for Option<Position> {
    open spec fn combined(&self, other: Option<Position>) -> Option<Position> {
        combined_position(*self, other)
    }

    fn combine(&self, other: Option<Position>) -> (merged: Option<Position>) {
        match (*self, other) {
            (Some(p), Some(q)) => {
                let (first, second) = if p.start <= q.start {
                    (p, q)
                } else {
                    (q, p)
                };
                if second.start == 0 || first.end >= second.start - 1 {
                    let end = if first.end >= second.end {
                        first.end
                    } else {
                        second.end
                    };
                    Some(Position { start: first.start, end })
                } else {
                    Some(q)
                }
            },
            _ => None,
        }
    }
}

/// Merging is associative on three ranges of which each starts no earlier
/// than the one before it and no further than one byte past its end: either
/// way the three merge into the range that spans them all.
pub proof fn lemma_combine_associative(a: Position, b: Position, c: Position)
    requires
        a.start <= b.start <= c.start,
        a.end + 1 >= b.start,
        b.end + 1 >= c.start,
    ensures
        combined_position(combined_position(Some(a), Some(b)), Some(c)) == combined_position(
            Some(a),
            combined_position(Some(b), Some(c)),
        ),
        combined_position(combined_position(Some(a), Some(b)), Some(c)) matches Some(all)
            && all.start == a.start && all.end >= a.end && all.end >= b.end && all.end >= c.end
            && (all.end == a.end || all.end == b.end || all.end == c.end),
{
}

/// Two ranges that touch or overlap merge into the range that spans both,
/// whichever comes first.
pub proof fn lemma_combine_spans(p: Position, q: Position)
    requires
        p.start <= q.start <= p.end + 1 || q.start <= p.start <= q.end + 1,
    ensures
        combined_position(Some(p), Some(q)) == Some(
            Position {
                start: if p.start <= q.start {
                    p.start
                } else {
                    q.start
                },
                end: if p.end >= q.end {
                    p.end
                } else {
                    q.end
                },
            },
        ),
{
}

/// Whether a position, if there is one, starts no later than it ends.
pub open spec fn is_ordered(position: Option<Position>) -> bool {
    match position {
        Some(range) => range.start <= range.end,
        None => true,
    }
}

/// Merging positions that start no later than they end gives such a one.
pub proof fn lemma_combine_ordered(a: Option<Position>, b: Option<Position>)
    requires
        is_ordered(a),
        is_ordered(b),
    ensures
        is_ordered(combined_position(a, b)),
{
}

/// Why a source text is not a program.
#[derive(Debug)]
pub struct ParseError {
    pub message: String,
    pub position: Position,
}

/// The value of a `ParseError`.
pub ghost struct ParseErrorView {
    pub message: Seq<char>,
    pub position: Position,
}

impl View for ParseError {
    type V = ParseErrorView;

    open spec fn view(&self) -> ParseErrorView {
        ParseErrorView { message: self.message@, position: self.position }
    }
}

/// `+`: add one to the current cell.
pub const PLUS: u8 = 43;

/// `-`: take one from the current cell.
pub const MINUS: u8 = 45;

/// `<`: move the pointer down by one cell.
pub const LEFT: u8 = 60;

/// `>`: move the pointer up by one cell.
pub const RIGHT: u8 = 62;

/// `.`: write the current cell.
pub const DOT: u8 = 46;

/// `,`: read into the current cell.
pub const COMMA: u8 = 44;

/// `[`: start a loop.
pub const OPEN: u8 = 91;

/// `]`: end a loop.
pub const CLOSE: u8 = 93;

/// Whether a byte is one of the six commands that are not brackets.
pub open spec fn is_primitive(byte: u8) -> bool {
    byte == PLUS || byte == MINUS || byte == LEFT || byte == RIGHT || byte == DOT || byte == COMMA
}

/// Whether a byte is a command; every other byte is a comment.
pub open spec fn is_command(byte: u8) -> bool {
    is_primitive(byte) || byte == OPEN || byte == CLOSE
}

/// The instruction that a command other than a bracket stands for, at the
/// byte offset where it was read.
pub open spec fn primitive(byte: u8, at: usize) -> Instr {
    let position = Some(Position { start: at, end: at });
    if byte == PLUS {
        Instr::Increment { amount: 1, offset: 0, position }
    } else if byte == MINUS {
        Instr::Increment { amount: -1i8, offset: 0, position }
    } else if byte == RIGHT {
        Instr::PointerIncrement { amount: 1, position }
    } else if byte == LEFT {
        Instr::PointerIncrement { amount: -1isize, position }
    } else if byte == DOT {
        Instr::Write { position }
    } else {
        Instr::Read { position }
    }
}

/// The parser's state after a prefix of the source: for each loop still
/// open, the instructions read before it and the offset of its `[`,
/// outermost first; the instructions read at the current depth; and the
/// offset of the first `]` that closed nothing, after which nothing changes.
pub ghost struct Scan {
    pub frames: Seq<(Seq<Instr>, usize)>,
    pub current: Seq<Instr>,
    pub stray: Option<usize>,
}

/// The state after one more byte, read at offset `at`.
pub open spec fn scan_step(state: Scan, byte: u8, at: usize) -> Scan {
    if state.stray is Some {
        state
    } else if byte == OPEN {
        Scan {
            frames: state.frames.push((state.current, at)),
            current: Seq::empty(),
            stray: None,
        }
    } else if byte == CLOSE {
        if state.frames.len() == 0 {
            Scan { stray: Some(at), ..state }
        } else {
            let (outer, open) = state.frames.last();
            Scan {
                frames: state.frames.drop_last(),
                current: outer.push(
                    Instr::Loop {
                        body: state.current,
                        position: Some(Position { start: open, end: at }),
                    },
                ),
                stray: None,
            }
        }
    } else if is_primitive(byte) {
        Scan { current: state.current.push(primitive(byte, at)), ..state }
    } else {
        state
    }
}

/// The state after the first `n` bytes of `source`.
pub open spec fn scan(source: Seq<u8>, n: nat) -> Scan
    decreases n,
{
    if n == 0 {
        Scan { frames: Seq::empty(), current: Seq::empty(), stray: None }
    } else {
        scan_step(scan(source, (n - 1) as nat), source[n - 1], (n - 1) as usize)
    }
}

/// What is said of a `]` that closes nothing.
pub open spec fn stray_close_message() -> Seq<char> {
    "This ] has no matching ["@
}

/// What is said of a `[` that is never closed.
pub open spec fn unclosed_open_message() -> Seq<char> {
    "This [ has no matching ]"@
}

/// What parsing a source text gives: the first `]` that closes nothing is
/// an error at its offset; else a `[` left open at the end is an error at
/// the offset of the innermost such; else the instructions read.
pub open spec fn parsed(source: Seq<u8>) -> Result<Seq<Instr>, ParseErrorView> {
    let end = scan(source, source.len());
    match end.stray {
        Some(at) => Err(
            ParseErrorView {
                message: stray_close_message(),
                position: Position { start: at, end: at },
            },
        ),
        None => if end.frames.len() > 0 {
            let at = end.frames.last().1;
            Err(
                ParseErrorView {
                    message: unclosed_open_message(),
                    position: Position { start: at, end: at },
                },
            )
        } else {
            Ok(end.current)
        },
    }
}

/// Parses the bytes of a source text.
#[verifier::rlimit(20)]
pub fn parse_bytes(source: &[u8]) -> (result: Result<Vec<AstNode>, ParseError>)
    ensures
        match parsed(source@) {
            Ok(instrs) => result is Ok && result->Ok_0.deep_view() == instrs,
            Err(error) => result is Err && result->Err_0@ == error,
        },
{
    let mut instructions: Vec<AstNode> = Vec::new();
    let mut stack: Vec<(Vec<AstNode>, usize)> = Vec::new();
    let mut index: usize = 0;
    assert(instructions.deep_view() =~= Seq::empty());
    assert(stack.deep_view() =~= Seq::empty());
    while index < source.len()
        invariant
            index <= source.len(),
            scan(source@, index as nat).stray is None,
            instructions.deep_view() == scan(source@, index as nat).current,
            stack.deep_view() == scan(source@, index as nat).frames,
        decreases source.len() - index,
    {
        let byte = source[index];
        let ghost before = scan(source@, index as nat);
        let ghost old_instructions = instructions;
        let ghost old_stack = stack;
        assert(scan(source@, (index + 1) as nat) == scan_step(before, byte, index));
        let here = Some(Position { start: index, end: index });
        if byte == OPEN {
            stack.push((instructions, index));
            instructions = Vec::new();
            assert(instructions.deep_view() =~= Seq::empty());
            assert(stack.deep_view() =~= old_stack.deep_view().push(
                (old_instructions.deep_view(), index),
            ));
        } else if byte == CLOSE {
            match stack.pop() {
                Some((mut outer, open)) => {
                    let ghost outer_before = outer;
                    let node = AstNode::Loop {
                        body: instructions,
                        position: Some(Position { start: open, end: index }),
                    };
                    proof {
                        lemma_view_loop(old_instructions, Some(Position { start: open, end: index }));
                    }
                    outer.push(node);
                    proof {
                        lemma_deep_view_push(outer_before, outer, node);
                        assert(old_stack.deep_view().last() == (outer_before.deep_view(), open));
                        assert(stack.deep_view() =~= old_stack.deep_view().drop_last());
                    }
                    instructions = outer;
                },
                None => {
                    proof {
                        lemma_stray_stays(source@, (index + 1) as nat, source@.len());
                    }
                    return Err(
                        ParseError {
                            message: "This ] has no matching [".to_owned(),
                            position: Position { start: index, end: index },
                        },
                    );
                },
            }
        } else if byte == PLUS {
            let node = AstNode::Increment { amount: 1, offset: 0, position: here };
            instructions.push(node);
            proof {
                lemma_deep_view_push(old_instructions, instructions, node);
            }
        } else if byte == MINUS {
            let node = AstNode::Increment { amount: -1, offset: 0, position: here };
            instructions.push(node);
            proof {
                lemma_deep_view_push(old_instructions, instructions, node);
            }
        } else if byte == RIGHT {
            let node = AstNode::PointerIncrement { amount: 1, position: here };
            instructions.push(node);
            proof {
                lemma_deep_view_push(old_instructions, instructions, node);
            }
        } else if byte == LEFT {
            let node = AstNode::PointerIncrement { amount: -1, position: here };
            instructions.push(node);
            proof {
                lemma_deep_view_push(old_instructions, instructions, node);
            }
        } else if byte == DOT {
            let node = AstNode::Write { position: here };
            instructions.push(node);
            proof {
                lemma_deep_view_push(old_instructions, instructions, node);
            }
        } else if byte == COMMA {
            let node = AstNode::Read { position: here };
            instructions.push(node);
            proof {
                lemma_deep_view_push(old_instructions, instructions, node);
            }
        }
        index += 1;
    }
    if stack.len() > 0 {
        let at = stack[stack.len() - 1].1;
        assert(stack.deep_view().last().1 == at);
        return Err(
            ParseError {
                message: "This [ has no matching ]".to_owned(),
                position: Position { start: at, end: at },
            },
        );
    }
    Ok(instructions)
}

/// Once a `]` has closed nothing, the rest of the source changes nothing.
pub proof fn lemma_stray_stays(source: Seq<u8>, n: nat, m: nat)
    requires
        n <= m,
        scan(source, n).stray is Some,
    ensures
        scan(source, m) == scan(source, n),
    decreases m - n,
{
    if n < m {
        lemma_stray_stays(source, n, (m - 1) as nat);
    }
}

/// Parses a source text into instructions. Positions count bytes.
pub fn parse(source: &str) -> (result: Result<Vec<AstNode>, ParseError>)
    ensures
        match parsed(source.spec_bytes()) {
            Ok(instrs) => result is Ok && result->Ok_0.deep_view() == instrs,
            Err(error) => result is Err && result->Err_0@ == error,
        },
{
    parse_bytes(source.as_bytes())
}

impl Clone for AstNode {
    fn clone(&self) -> (copy: Self)
        ensures
            copy@ == self@,
    {
        clone_node(self)
    }
}

} // verus!
