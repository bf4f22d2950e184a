//! Front end and minimal x86-64 back end for a small imperative language:
//! a position-tracking lexer, a recursive-descent parser, a type resolver and
//! an assembly generator, each with a contract stated over spec models.
use vstd::prelude::*;

pub mod lexer;
pub mod parse;
pub mod ast;
pub mod codegen;

pub use lexer::token;
pub use lexer::tokenizer;

verus! {

/// The three built-in value kinds of the language.
#[derive(Debug, Clone, Copy, PartialEq, Eq, Structural)]
pub enum PrimitiveTy {
    Number,
    Boolean,
    Void,
}

/// A run of invalid source characters: positions (counted in characters),
/// the line and the columns at which the run starts and ends.
#[derive(Debug, PartialEq, Eq)]
pub struct TextSection {
    pub index: std::ops::Range<usize>,
    pub line: std::ops::Range<usize>,
    pub column: std::ops::Range<usize>,
}

} // verus!
