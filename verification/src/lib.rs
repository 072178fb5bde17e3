//! An interpreter for the ezfuck language: a Brainfuck dialect with
//! multi-digit operands, a current-cell operand reference, and an
//! interactive debugger, together with a plain Brainfuck interpreter.
//!
//! Source text is compiled to a flat, jump-resolved instruction list
//! (`ezfuck::parser`), which a tape machine executes against a growable
//! byte tape (`ezfuck::interpreter`).  All input and output is modelled
//! as byte buffers, so the whole pipeline is specified and verified as
//! pure functions of its inputs.

pub mod ezfuck;
pub mod standard_brainfuck;

use vstd::prelude::*;

verus! {

/// Relies on `String::push`: appends the given character to the end of
/// the string.
pub assume_specification[ String::push ](s: &mut String, ch: char)
    ensures
        final(s)@ == old(s)@.push(ch),
;

} // verus!
