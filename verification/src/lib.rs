//! A small stack-machine language: a lexer that turns source lines into
//! tokens, a recursive-descent parser that assembles instructions, and a
//! trampolined runtime that executes them against a value stack, a function
//! table and a bound-argument array.
use vstd::prelude::*;

pub mod errors;
pub mod lexer;
pub mod parser;
pub mod reader;
pub mod runtime;
mod stdio;
pub mod text;

verus! {

} // verus!
