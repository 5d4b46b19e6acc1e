//! A two-stage JSON reader: a lexer that turns characters into tokens and a
//! recursive-descent parser that turns tokens into a value tree.

pub mod chars;
pub mod document;
pub mod error;
pub mod grammar;
pub mod lexer;
pub mod parser;
pub mod spelling;
pub mod token;
pub mod value;
