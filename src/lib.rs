//! A parser for a classic line-numbered BASIC dialect, verified against a
//! grammar stated as spec functions.
pub mod ast;
pub mod lex;
pub mod expr;
pub mod stmt;
pub mod program;
pub mod print;
pub mod laws;
pub mod program_laws;
