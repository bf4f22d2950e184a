//! Lexical analysis: the token vocabulary and the tokenizer.
pub mod token;
pub mod tokenizer;
