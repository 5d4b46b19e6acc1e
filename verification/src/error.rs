//! What can be wrong with a sequence of tokens.

use vstd::prelude::*;
use vstd::string::StringExecFns;

verus! {

/// The first violation of the grammar that the parser met.
#[derive(Debug, Clone, Copy, PartialEq, Eq, Structural)]
pub enum ParseError {
    /// No token is left where a value should begin.
    UnexpectedEndOfInput,
    /// The token at hand begins no value.
    InvalidStructure,
    /// A key of an object is not a string literal.
    ExpectedStringKey,
    /// A key is not followed by a colon.
    ExpectedColon,
    /// The tokens end inside an object.
    UnclosedObject,
    /// The tokens end inside an array.
    UnclosedArray,
    /// A member of an object is followed by neither `,` nor `}`.
    ExpectedCommaOrClosingBrace,
    /// An element of an array is followed by neither `,` nor `]`.
    ExpectedCommaOrClosingBracket,
}

impl ParseError {
    /// The text of the message for this error.
    pub open spec fn text(self) -> Seq<char> {
        match self {
            ParseError::UnexpectedEndOfInput => "unexpected end of input"@,
            ParseError::InvalidStructure => "invalid JSON structure"@,
            ParseError::ExpectedStringKey => "expected string key"@,
            ParseError::ExpectedColon => "expected colon after key"@,
            ParseError::UnclosedObject => "unclosed object"@,
            ParseError::UnclosedArray => "unclosed array"@,
            ParseError::ExpectedCommaOrClosingBrace => "expected comma or closing brace"@,
            ParseError::ExpectedCommaOrClosingBracket => "expected comma or closing bracket"@,
        }
    }

    /// A message that names the expectation that was violated.
    pub fn message(&self) -> (text: String)
        ensures
            text@ == self.text(),
    {
        match self {
            ParseError::UnexpectedEndOfInput => String::from_str("unexpected end of input"),
            ParseError::InvalidStructure => String::from_str("invalid JSON structure"),
            ParseError::ExpectedStringKey => String::from_str("expected string key"),
            ParseError::ExpectedColon => String::from_str("expected colon after key"),
            ParseError::UnclosedObject => String::from_str("unclosed object"),
            ParseError::UnclosedArray => String::from_str("unclosed array"),
            ParseError::ExpectedCommaOrClosingBrace => String::from_str(
                "expected comma or closing brace",
            ),
            ParseError::ExpectedCommaOrClosingBracket => String::from_str(
                "expected comma or closing bracket",
            ),
        }
    }
}

} // verus!
