//! A direct interpreter for source text: the program text with its
//! pointer, the tape, and one step of the two together.

use vstd::prelude::*;
use crate::interpreter::program::{Program, matching_close, matching_open};
use crate::interpreter::tape::Tape;

pub mod program;
pub mod tape;

verus! {

/// What the caller has to do after a step.
#[derive(Debug, Clone, Copy, PartialEq, Eq, Structural)]
pub enum Action {
    /// Nothing; take the next step.
    Continue,
    /// Print this byte, then take the next step.
    Print(u8),
    /// Read a line, hand it to the tape's `read_value`, then take the next
    /// step.
    Read,
    /// The program has ended.
    Finished,
    /// The command needs a cell that is not on the tape, moves the tape's
    /// pointer below zero or past the greatest `usize`, or is a bracket
    /// without its match. Nothing was changed.
    Fault,
}

/// Whether the current command can be run: see `Action::Fault`.
pub open spec fn can_step(program: Program, tape: Tape) -> bool {
    let c = program.content@[program.pointer as int];
    let on_tape = tape.pointer < tape.content@.len();
    if c == '+' || c == '-' || c == '.' || c == ',' {
        on_tape
    } else if c == '>' {
        tape.pointer < usize::MAX
    } else if c == '<' {
        tape.pointer > 0
    } else if c == '[' {
        on_tape && (tape.content@[tape.pointer as int] == 0 ==> matching_close(
            program.content@,
            program.pointer as int,
            1,
        ) is Some)
    } else if c == ']' {
        on_tape && (tape.content@[tape.pointer as int] != 0 ==> matching_open(
            program.content@,
            program.pointer as int,
            1,
        ) is Some)
    } else {
        true
    }
}

/// The tape's cells after the current command.
pub open spec fn stepped_cells(program: Program, tape: Tape) -> Seq<u8> {
    let c = program.content@[program.pointer as int];
    let at = tape.pointer as int;
    if c == '+' {
        tape.content@.update(at, tape.content@[at].wrapping_add(1))
    } else if c == '-' {
        tape.content@.update(at, tape.content@[at].wrapping_sub(1))
    } else {
        tape.content@
    }
}

/// The tape's pointer after the current command.
pub open spec fn stepped_tape_pointer(program: Program, tape: Tape) -> int {
    let c = program.content@[program.pointer as int];
    if c == '>' {
        tape.pointer + 1
    } else if c == '<' {
        tape.pointer - 1
    } else {
        tape.pointer as int
    }
}

/// The program's pointer after the current command: one past the command,
/// or, after a jump, one past the bracket jumped to.
pub open spec fn stepped_program_pointer(program: Program, tape: Tape) -> int {
    let c = program.content@[program.pointer as int];
    let at = program.pointer as int;
    if c == '[' && tape.content@[tape.pointer as int] == 0 {
        matching_close(program.content@, at, 1)->0 + 1
    } else if c == ']' && tape.content@[tape.pointer as int] != 0 {
        matching_open(program.content@, at, 1)->0 + 1
    } else {
        at + 1
    }
}

/// Runs the current command, but for what it prints or reads, and moves
/// on to the next.
pub fn step(program: &mut Program, tape: &mut Tape) -> (action: Action)
    requires
        old(program).pointer <= old(program).content@.len(),
    ensures
        final(program).content@ == old(program).content@,
        final(tape).content@.len() == old(tape).content@.len(),
        final(program).pointer <= final(program).content@.len(),
        old(program).pointer == old(program).content@.len() ==> action == Action::Finished
            && *final(program) == *old(program) && *final(tape) == *old(tape),
        old(program).pointer < old(program).content@.len() && !can_step(*old(program), *old(tape))
            ==> action == Action::Fault && *final(program) == *old(program) && *final(tape)
            == *old(tape),
        old(program).pointer < old(program).content@.len() && can_step(*old(program), *old(tape))
            ==> {
            let c = old(program).content@[old(program).pointer as int];
            &&& action == if c == '.' {
                Action::Print(old(tape).content@[old(tape).pointer as int])
            } else if c == ',' {
                Action::Read
            } else {
                Action::Continue
            }
            &&& final(tape).content@ == stepped_cells(*old(program), *old(tape))
            &&& final(tape).pointer == stepped_tape_pointer(*old(program), *old(tape))
            &&& final(program).pointer == stepped_program_pointer(*old(program), *old(tape))
        },
{
    if program.pointer >= program.len() {
        return Action::Finished;
    }
    let c = program.command();
    let on_tape = tape.pointer < tape.content.len();
    let mut action = Action::Continue;
    if c == '+' {
        if !on_tape {
            return Action::Fault;
        }
        tape.inc();
    } else if c == '-' {
        if !on_tape {
            return Action::Fault;
        }
        tape.dec();
    } else if c == '>' {
        if tape.pointer == usize::MAX {
            return Action::Fault;
        }
        tape.next();
    } else if c == '<' {
        if tape.pointer == 0 {
            return Action::Fault;
        }
        tape.prev();
    } else if c == '.' {
        if !on_tape {
            return Action::Fault;
        }
        action = Action::Print(tape.value());
    } else if c == ',' {
        if !on_tape {
            return Action::Fault;
        }
        action = Action::Read;
    } else if c == '[' {
        if !on_tape {
            return Action::Fault;
        }
        if tape.zero() {
            if program.find_close(1).is_none() {
                return Action::Fault;
            }
            program.fast_forward(1);
        }
    } else if c == ']' {
        if !on_tape {
            return Action::Fault;
        }
        if tape.not_zero() {
            if program.find_open(1).is_none() {
                return Action::Fault;
            }
            program.rewind(1);
        }
    }
    program.forward();
    action
}

} // verus!
