//! A compiler from a small subset of C to programs for an eight-instruction tape
//! machine, and an interpreter for that machine.

use vstd::prelude::*;

pub mod codegen;
pub mod driver;
pub mod env;
pub mod expr;
pub mod format;
pub mod interpreter;
pub mod laws;
pub mod literal;
pub mod stmt;
pub mod syntax;

pub use codegen::{Codegen, CompileError};
pub use driver::Compiled;
pub use env::Environment;
pub use format::format_program;
pub use interpreter::{interpret, run, tokenize, Machine, RunError, Snapshot, Token, TAPE_LEN};
pub use syntax::{is_expression, is_statement, SyntaxNode};

verus! {

} // verus!
