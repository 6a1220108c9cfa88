//! An optimizing compiler core for an eight-command tape language.
//!
//! - `bfir`: the instruction tree, source positions and the parser.
//! - `changes`: the changes of a multiply-move, as a map and by rising offset.
//! - `bounds`: a static bound on the highest tape cell a program touches.
//! - `execution`: a bounded interpreter that runs a program ahead of time.
//! - `peephole`: the optimizer and its passes.
//! - `diagnostics`, `dump`, `text`: warnings and errors, and text for people.
//! - `interpreter`: a direct interpreter for source text, step by step.
//! - `semantics`: what a program does, on a tape without ends.
//! - `theorems`: what is proved of all of these together.

pub mod bfir;
pub mod bounds;
pub mod changes;
pub mod diagnostics;
pub mod dump;
pub mod execution;
pub mod interpreter;
pub mod peephole;
pub mod semantics;
pub mod text;
pub mod theorems;
