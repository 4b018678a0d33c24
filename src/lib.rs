//! A small combinator calculus: definitions are compiled into reversed,
//! index-based instruction sequences and reduced on a single stack.

pub mod compile;
pub mod machine;
pub mod parse;
pub mod roundtrip;
pub mod term;

pub use compile::{compile, CompileError};
pub use machine::{eval, eval_step, show_stack, Op, Procedure, Stack, State};
pub use parse::parse_program;
pub use term::{show_program, show_term, Cli, Def, Program, Term};
