//! Lexical front end of a small assembly-style language: a position-tracking
//! byte stream and a tokenizer that groups its bytes into keywords and names.

pub mod ast;
pub mod parser;
pub mod text;
