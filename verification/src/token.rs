//! Lexical units.

use vstd::prelude::*;

verus! {

/// One lexical unit of a document.
///
/// A number literal carries the characters it was written with; turning
/// them into a number is left to the caller.
#[derive(Debug, PartialEq, Eq)]
pub enum Token {
    LeftBrace,
    RightBrace,
    LeftBracket,
    RightBracket,
    Colon,
    Comma,
    StringLiteral(String),
    NumberLiteral(String),
    True,
    False,
    Null,
    Whitespace,
    EndOfInput,
}

/// The mathematical value of a [`Token`].
pub enum TokenModel {
    LeftBrace,
    RightBrace,
    LeftBracket,
    RightBracket,
    Colon,
    Comma,
    StringLiteral(Seq<char>),
    NumberLiteral(Seq<char>),
    True,
    False,
    Null,
    Whitespace,
    EndOfInput,
}

impl View for Token {
    type V = TokenModel;

    open spec fn view(&self) -> TokenModel {
        match self {
            Token::LeftBrace => TokenModel::LeftBrace,
            Token::RightBrace => TokenModel::RightBrace,
            Token::LeftBracket => TokenModel::LeftBracket,
            Token::RightBracket => TokenModel::RightBracket,
            Token::Colon => TokenModel::Colon,
            Token::Comma => TokenModel::Comma,
            Token::StringLiteral(s) => TokenModel::StringLiteral(s@),
            Token::NumberLiteral(s) => TokenModel::NumberLiteral(s@),
            Token::True => TokenModel::True,
            Token::False => TokenModel::False,
            Token::Null => TokenModel::Null,
            Token::Whitespace => TokenModel::Whitespace,
            Token::EndOfInput => TokenModel::EndOfInput,
        }
    }
}

/// The views of a sequence of tokens, in order.
pub open spec fn token_models(tokens: Seq<Token>) -> Seq<TokenModel> {
    tokens.map_values(|t: Token| t@)
}

} // verus!
