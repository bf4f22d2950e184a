//! The vocabulary shared by the lexer and the parser.
use vstd::prelude::*;

use crate::PrimitiveTy;

verus! {

/// Width classification of a number literal.
#[derive(Debug, Clone, Copy, PartialEq, Eq, Structural)]
pub enum NumberTy {
    U32,
    Unspecified,
}

/// Classification of a literal by its lexical form.
#[derive(Debug, Clone, Copy, PartialEq, Eq, Structural)]
pub enum LiteralTy {
    Number(NumberTy),
}

#[derive(Debug, Clone, Copy, PartialEq, Eq, Structural)]
pub enum SymbolTy {
    Assign,
    Add,
    AddAssign,
    Greater,
    OpParen,
    ClParen,
    OpBrace,
    ClBrace,
    EndStmt,
    ThinArrow,
}

#[derive(Debug, Clone, Copy, PartialEq, Eq, Structural)]
pub enum KeywordTy {
    Function,
    Let,
    If,
    Return,
}

#[derive(Debug, Clone, Copy, PartialEq, Eq, Structural)]
pub enum TokenTy {
    Literal(PrimitiveTy),
    Symbol(SymbolTy),
    Keyword(KeywordTy),
    Identifier,
}

/// A classified token: its kind and the half-open range of character
/// positions of the source that it covers.
#[derive(Debug, PartialEq, Eq)]
pub struct Token {
    pub range: std::ops::Range<usize>,
    pub ty: TokenTy,
}

/// The number of symbols in the symbol table.
pub const SYMBOL_COUNT: usize = 10;

/// The number of keywords in the keyword table.
pub const KEYWORD_COUNT: usize = 4;

/// The symbol table, in matching order: every two-character spelling comes
/// before the one-character spellings, so the first match is the longest.
pub open spec fn symbol_entry(k: int) -> SymbolTy {
    if k == 0 {
        SymbolTy::ThinArrow
    } else if k == 1 {
        SymbolTy::AddAssign
    } else if k == 2 {
        SymbolTy::Assign
    } else if k == 3 {
        SymbolTy::Add
    } else if k == 4 {
        SymbolTy::Greater
    } else if k == 5 {
        SymbolTy::OpParen
    } else if k == 6 {
        SymbolTy::ClParen
    } else if k == 7 {
        SymbolTy::OpBrace
    } else if k == 8 {
        SymbolTy::ClBrace
    } else {
        SymbolTy::EndStmt
    }
}

/// How a symbol is written.
pub open spec fn symbol_spelling(s: SymbolTy) -> Seq<char> {
    match s {
        SymbolTy::ThinArrow => seq!['-', '>'],
        SymbolTy::AddAssign => seq!['+', '='],
        SymbolTy::Assign => seq!['='],
        SymbolTy::Add => seq!['+'],
        SymbolTy::Greater => seq!['>'],
        SymbolTy::OpParen => seq!['('],
        SymbolTy::ClParen => seq![')'],
        SymbolTy::OpBrace => seq!['{'],
        SymbolTy::ClBrace => seq!['}'],
        SymbolTy::EndStmt => seq![';'],
    }
}

/// The keyword table, in matching order.
pub open spec fn keyword_entry(k: int) -> KeywordTy {
    if k == 0 {
        KeywordTy::Function
    } else if k == 1 {
        KeywordTy::Let
    } else if k == 2 {
        KeywordTy::If
    } else {
        KeywordTy::Return
    }
}

/// How a keyword is written.
pub open spec fn keyword_spelling(k: KeywordTy) -> Seq<char> {
    match k {
        KeywordTy::Function => seq!['f', 'n'],
        KeywordTy::Let => seq!['l', 'e', 't'],
        KeywordTy::If => seq!['i', 'f'],
        KeywordTy::Return => seq!['r', 'e', 't', 'u', 'r', 'n'],
    }
}

/// The `k`-th symbol of the table.
pub fn symbol_at_entry(k: usize) -> (r: SymbolTy)
    requires
        k < SYMBOL_COUNT,
    ensures
        r == symbol_entry(k as int),
{
    if k == 0 {
        SymbolTy::ThinArrow
    } else if k == 1 {
        SymbolTy::AddAssign
    } else if k == 2 {
        SymbolTy::Assign
    } else if k == 3 {
        SymbolTy::Add
    } else if k == 4 {
        SymbolTy::Greater
    } else if k == 5 {
        SymbolTy::OpParen
    } else if k == 6 {
        SymbolTy::ClParen
    } else if k == 7 {
        SymbolTy::OpBrace
    } else if k == 8 {
        SymbolTy::ClBrace
    } else {
        SymbolTy::EndStmt
    }
}

/// The `k`-th keyword of the table.
pub fn keyword_at_entry(k: usize) -> (r: KeywordTy)
    requires
        k < KEYWORD_COUNT,
    ensures
        r == keyword_entry(k as int),
{
    if k == 0 {
        KeywordTy::Function
    } else if k == 1 {
        KeywordTy::Let
    } else if k == 2 {
        KeywordTy::If
    } else {
        KeywordTy::Return
    }
}

/// The characters of a symbol's spelling.
pub fn symbol_chars(s: SymbolTy) -> (r: Vec<char>)
    ensures
        r@ == symbol_spelling(s),
        r@.len() > 0,
{
    match s {
        SymbolTy::ThinArrow => vec!['-', '>'],
        SymbolTy::AddAssign => vec!['+', '='],
        SymbolTy::Assign => vec!['='],
        SymbolTy::Add => vec!['+'],
        SymbolTy::Greater => vec!['>'],
        SymbolTy::OpParen => vec!['('],
        SymbolTy::ClParen => vec![')'],
        SymbolTy::OpBrace => vec!['{'],
        SymbolTy::ClBrace => vec!['}'],
        SymbolTy::EndStmt => vec![';'],
    }
}

/// The characters of a keyword's spelling.
pub fn keyword_chars(k: KeywordTy) -> (r: Vec<char>)
    ensures
        r@ == keyword_spelling(k),
        r@.len() > 0,
{
    match k {
        KeywordTy::Function => vec!['f', 'n'],
        KeywordTy::Let => vec!['l', 'e', 't'],
        KeywordTy::If => vec!['i', 'f'],
        KeywordTy::Return => vec!['r', 'e', 't', 'u', 'r', 'n'],
    }
}

} // verus!
