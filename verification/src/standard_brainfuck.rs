//! The plain Brainfuck subset: parser and interpreter.

pub mod interpreter;
pub mod parser;
