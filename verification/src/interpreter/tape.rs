//! The tape of the direct interpreter: 30000 bytes and a pointer.

use vstd::prelude::*;
use vstd::string::StringSliceAdditionalSpecFns;

verus! {

/// How many cells the tape has.
pub const TAPE_LENGTH: usize = 30000;

/// The cells and the index of the current one.
pub struct Tape {
    pub content: Vec<u8>,
    pub pointer: usize,
}

impl Tape {
    /// A zeroed tape with the pointer on its first cell.
    pub fn new() -> (tape: Tape)
        ensures
            tape.content@ == Seq::new(TAPE_LENGTH as nat, |i: int| 0u8),
            tape.pointer == 0,
    {
        let mut content: Vec<u8> = Vec::new();
        let mut i: usize = 0;
        while i < TAPE_LENGTH
            invariant
                i <= TAPE_LENGTH,
                content@ == Seq::new(i as nat, |j: int| 0u8),
            decreases TAPE_LENGTH - i,
        {
            content.push(0);
            i += 1;
            assert(content@ =~= Seq::new(i as nat, |j: int| 0u8));
        }
        Tape { content, pointer: 0 }
    }

    /// Adds one to the current cell; 255 becomes 0.
    pub fn inc(&mut self)
        requires
            old(self).pointer < old(self).content@.len(),
        ensures
            final(self).pointer == old(self).pointer,
            final(self).content@ == old(self).content@.update(
                old(self).pointer as int,
                old(self).content@[old(self).pointer as int].wrapping_add(1),
            ),
    {
        let prev: u8 = self.content[self.pointer];
        let res = match prev.checked_add(1) {
            Some(r) => r,
            None => 0,
        };
        self.content.set(self.pointer, res);
    }

    /// Takes one from the current cell; 0 becomes 255.
    pub fn dec(&mut self)
        requires
            old(self).pointer < old(self).content@.len(),
        ensures
            final(self).pointer == old(self).pointer,
            final(self).content@ == old(self).content@.update(
                old(self).pointer as int,
                old(self).content@[old(self).pointer as int].wrapping_sub(1),
            ),
    {
        let prev: u8 = self.content[self.pointer];
        let res = match prev.checked_sub(1) {
            Some(r) => r,
            None => u8::MAX,
        };
        self.content.set(self.pointer, res);
    }

    /// Moves the pointer up by one cell.
    pub fn next(&mut self)
        requires
            old(self).pointer < usize::MAX,
        ensures
            final(self).pointer == old(self).pointer + 1,
            final(self).content == old(self).content,
    {
        self.pointer += 1;
    }

    /// Moves the pointer down by one cell.
    pub fn prev(&mut self)
        requires
            old(self).pointer > 0,
        ensures
            final(self).pointer == old(self).pointer - 1,
            final(self).content == old(self).content,
    {
        self.pointer -= 1;
    }

    /// The current cell.
    pub fn value(&self) -> (value: u8)
        requires
            self.pointer < self.content@.len(),
        ensures
            value == self.content@[self.pointer as int],
    {
        self.content[self.pointer]
    }

    /// Whether the current cell is zero.
    pub fn zero(&self) -> (is: bool)
        requires
            self.pointer < self.content@.len(),
        ensures
            is == (self.content@[self.pointer as int] == 0),
    {
        self.value() == 0
    }

    /// Whether the current cell is not zero.
    pub fn not_zero(&self) -> (is: bool)
        requires
            self.pointer < self.content@.len(),
        ensures
            is == (self.content@[self.pointer as int] != 0),
    {
        !self.zero()
    }

    /// Takes the first byte of a line that was read into the current
    /// cell; an empty line leaves the cell as it is.
    pub fn read_value(&mut self, value: &str)
        requires
            old(self).pointer < old(self).content@.len(),
        ensures
            final(self).pointer == old(self).pointer,
            final(self).content@ == if value.spec_bytes().len() == 0 {
                old(self).content@
            } else {
                old(self).content@.update(old(self).pointer as int, value.spec_bytes()[0])
            },
    {
        let bytes = value.as_bytes();
        let res = if bytes.len() == 0 {
            self.value()
        } else {
            bytes[0]
        };
        self.set_value(res);
        assert(old(self).content@.update(
            old(self).pointer as int,
            old(self).content@[old(self).pointer as int],
        ) =~= old(self).content@);
    }

    /// Overwrites the current cell.
    pub fn set_value(&mut self, value: u8)
        requires
            old(self).pointer < old(self).content@.len(),
        ensures
            final(self).pointer == old(self).pointer,
            final(self).content@ == old(self).content@.update(old(self).pointer as int, value),
    {
        self.content.set(self.pointer, value);
    }
}

} // verus!
