//! The ezfuck dialect: compiler front end, tape machine, renderers,
//! and the interactive session built from them.

pub mod cell_repr;
pub mod interpreter;
pub mod parser;
pub mod repl;
