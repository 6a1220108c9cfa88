//! The program text and the pointer to the current command.

use vstd::prelude::*;

verus! {

/// The commands of a program and the index of the current one.
pub struct Program {
    pub content: Vec<char>,
    pub pointer: usize,
}

/// Where a scan forward from `at` stops that is `count` closing brackets
/// short: each `]` after `at` makes up for one, each `[` asks for one
/// more; nothing if the text ends first.
pub open spec fn matching_close(content: Seq<char>, at: int, count: nat) -> Option<int>
    decreases content.len() - at,
{
    if count == 0 {
        Some(at)
    } else if at + 1 >= content.len() || at + 1 < 0 {
        None
    } else if content[at + 1] == ']' {
        matching_close(content, at + 1, (count - 1) as nat)
    } else if content[at + 1] == '[' {
        matching_close(content, at + 1, count + 1)
    } else {
        matching_close(content, at + 1, count)
    }
}

/// Where a scan backward from `at` stops that is `count` opening brackets
/// short; nothing if the text's start comes first.
pub open spec fn matching_open(content: Seq<char>, at: int, count: nat) -> Option<int>
    decreases at,
{
    if count == 0 {
        Some(at)
    } else if at <= 0 || at - 1 >= content.len() {
        None
    } else if content[at - 1] == '[' {
        matching_open(content, at - 1, (count - 1) as nat)
    } else if content[at - 1] == ']' {
        matching_open(content, at - 1, count + 1)
    } else {
        matching_open(content, at - 1, count)
    }
}

impl Program {
    /// A program at its first command.
    pub fn new(content: Vec<char>) -> (program: Program)
        ensures
            program.content == content,
            program.pointer == 0,
    {
        Program { content, pointer: 0 }
    }

    /// How many commands and comments the program has.
    pub fn len(&self) -> (len: usize)
        ensures
            len == self.content@.len(),
    {
        self.content.len()
    }

    /// Whether the pointer is past the last command.
    pub fn finished(&self) -> (done: bool)
        ensures
            done == (self.pointer == self.content@.len()),
    {
        self.pointer == self.content.len()
    }

    /// Moves to the next command.
    pub fn forward(&mut self)
        requires
            old(self).pointer < usize::MAX,
        ensures
            final(self).pointer == old(self).pointer + 1,
            final(self).content == old(self).content,
    {
        self.pointer += 1;
    }

    /// Moves to the command before.
    pub fn back(&mut self)
        requires
            old(self).pointer > 0,
        ensures
            final(self).pointer == old(self).pointer - 1,
            final(self).content == old(self).content,
    {
        self.pointer -= 1;
    }

    /// The current command.
    pub fn command(&self) -> (c: char)
        requires
            self.pointer < self.content@.len(),
        ensures
            c == self.content@[self.pointer as int],
    {
        self.content[self.pointer]
    }

    /// Where `fast_forward` would stop, if it stops within the text.
    pub fn find_close(&self, count: usize) -> (found: Option<usize>)
        ensures
            match found {
                Some(at) => matching_close(self.content@, self.pointer as int, count as nat)
                    == Some(at as int) && (count > 0 ==> self.pointer < at < self.content@.len()),
                None => matching_close(self.content@, self.pointer as int, count as nat) is None,
            },
    {
        let mut at: usize = self.pointer;
        let mut depth: u128 = count as u128;
        while depth != 0
            invariant
                self.pointer <= at,
                at == self.pointer ==> depth == count,
                depth <= count + (at - self.pointer),
                at > self.pointer ==> at < self.content@.len(),
                matching_close(self.content@, at as int, depth as nat) == matching_close(
                    self.content@,
                    self.pointer as int,
                    count as nat,
                ),
            decreases self.content@.len() - at,
        {
            if at >= self.content.len() || at + 1 >= self.content.len() {
                return None;
            }
            at += 1;
            let c = self.content[at];
            if c == ']' {
                depth -= 1;
            } else if c == '[' {
                depth += 1;
            }
        }
        Some(at)
    }

    /// Where `rewind` would stop, if it stops within the text.
    pub fn find_open(&self, count: usize) -> (found: Option<usize>)
        ensures
            match found {
                Some(at) => matching_open(self.content@, self.pointer as int, count as nat)
                    == Some(at as int) && at <= self.pointer,
                None => matching_open(self.content@, self.pointer as int, count as nat) is None,
            },
    {
        let mut at: usize = self.pointer;
        let mut depth: u128 = count as u128;
        while depth != 0
            invariant
                at <= self.pointer,
                depth <= count + (self.pointer - at),
                matching_open(self.content@, at as int, depth as nat) == matching_open(
                    self.content@,
                    self.pointer as int,
                    count as nat,
                ),
            decreases at,
        {
            if at == 0 || at - 1 >= self.content.len() {
                return None;
            }
            at -= 1;
            let c = self.content[at];
            if c == '[' {
                depth -= 1;
            } else if c == ']' {
                depth += 1;
            }
        }
        Some(at)
    }

    /// Moves forward to the `]` that closes `count` open loops.
    pub fn fast_forward(&mut self, count: usize)
        requires
            matching_close(old(self).content@, old(self).pointer as int, count as nat) is Some,
        ensures
            Some(final(self).pointer as int) == matching_close(
                old(self).content@,
                old(self).pointer as int,
                count as nat,
            ),
            final(self).content == old(self).content,
            count > 0 ==> old(self).pointer < final(self).pointer < old(self).content@.len(),
    {
        match self.find_close(count) {
            Some(at) => {
                self.pointer = at;
            },
            None => {},
        }
    }

    /// Moves back to the `[` that opens `count` loops still to be opened.
    pub fn rewind(&mut self, count: usize)
        requires
            matching_open(old(self).content@, old(self).pointer as int, count as nat) is Some,
        ensures
            Some(final(self).pointer as int) == matching_open(
                old(self).content@,
                old(self).pointer as int,
                count as nat,
            ),
            final(self).content == old(self).content,
            final(self).pointer <= old(self).pointer,
    {
        match self.find_open(count) {
            Some(at) => {
                self.pointer = at;
            },
            None => {},
        }
    }
}

} // verus!
