//! The parser: from tokens to a value tree.

use vstd::prelude::*;
use crate::error::ParseError;
use crate::token::{Token, TokenModel, token_models};
use crate::value::{Value, ValueModel, lemma_array_view, lemma_object_view, pair_models, value_models};

verus! {

/// What parsing from some position gives: the value and the position
/// behind its last token, or the first error.
pub type Parsed = Result<(ValueModel, int), ParseError>;

/// The value that begins at `pos`.
pub open spec fn parse_value(tokens: Seq<TokenModel>, pos: int) -> Parsed
    decreases tokens.len() - pos, 1int,
{
    if 0 <= pos < tokens.len() {
        match tokens[pos] {
            TokenModel::LeftBrace => parse_object(tokens, pos),
            TokenModel::LeftBracket => parse_array(tokens, pos),
            TokenModel::StringLiteral(text) => Ok((ValueModel::StringValue(text), pos + 1)),
            TokenModel::NumberLiteral(text) => Ok((ValueModel::NumberValue(text), pos + 1)),
            TokenModel::True => Ok((ValueModel::BoolValue(true), pos + 1)),
            TokenModel::False => Ok((ValueModel::BoolValue(false), pos + 1)),
            TokenModel::Null => Ok((ValueModel::NullValue, pos + 1)),
            _ => Err(ParseError::InvalidStructure),
        }
    } else {
        Err(ParseError::UnexpectedEndOfInput)
    }
}

/// The object whose opening brace stands at `pos`.
pub open spec fn parse_object(tokens: Seq<TokenModel>, pos: int) -> Parsed
    decreases tokens.len() - pos, 0int,
{
    if 0 <= pos < tokens.len() {
        if pos + 1 < tokens.len() && tokens[pos + 1] == TokenModel::RightBrace {
            Ok((ValueModel::Object(Seq::empty()), pos + 2))
        } else {
            parse_members(tokens, pos + 1, Seq::empty())
        }
    } else {
        Err(ParseError::UnclosedObject)
    }
}

/// The rest of an object of which the members `read` have been read, where
/// a key is due at `pos`.
///
/// A value spans at least one token (`lemma_parse_value_bounds`), so the
/// position behind a member always lies behind `pos`.
pub open spec fn parse_members(
    tokens: Seq<TokenModel>,
    pos: int,
    read: Seq<(Seq<char>, ValueModel)>,
) -> Parsed
    decreases tokens.len() - pos, 0int,
{
    if 0 <= pos < tokens.len() {
        match tokens[pos] {
            TokenModel::StringLiteral(key) => {
                if pos + 1 < tokens.len() && tokens[pos + 1] == TokenModel::Colon {
                    match parse_value(tokens, pos + 2) {
                        Ok((value, next)) => {
                            let members = read.push((key, value));
                            if pos < next < tokens.len() {
                                match tokens[next] {
                                    TokenModel::RightBrace => Ok(
                                        (ValueModel::Object(members), next + 1),
                                    ),
                                    TokenModel::Comma => parse_members(tokens, next + 1, members),
                                    _ => Err(ParseError::ExpectedCommaOrClosingBrace),
                                }
                            } else {
                                Err(ParseError::UnclosedObject)
                            }
                        },
                        Err(e) => Err(e),
                    }
                } else {
                    Err(ParseError::ExpectedColon)
                }
            },
            _ => Err(ParseError::ExpectedStringKey),
        }
    } else {
        Err(ParseError::UnclosedObject)
    }
}

/// The array whose opening bracket stands at `pos`.
pub open spec fn parse_array(tokens: Seq<TokenModel>, pos: int) -> Parsed
    decreases tokens.len() - pos, 0int,
{
    if 0 <= pos < tokens.len() {
        if pos + 1 < tokens.len() && tokens[pos + 1] == TokenModel::RightBracket {
            Ok((ValueModel::Array(Seq::empty()), pos + 2))
        } else {
            parse_elements(tokens, pos + 1, Seq::empty())
        }
    } else {
        Err(ParseError::UnclosedArray)
    }
}

/// The rest of an array of which the elements `read` have been read, where
/// a value is due at `pos`.
///
/// A value spans at least one token (`lemma_parse_value_bounds`), so the
/// position behind an element always lies behind `pos`.
pub open spec fn parse_elements(tokens: Seq<TokenModel>, pos: int, read: Seq<ValueModel>) -> Parsed
    decreases tokens.len() - pos, 2int,
{
    if 0 <= pos < tokens.len() {
        match parse_value(tokens, pos) {
            Ok((value, next)) => {
                let elements = read.push(value);
                if pos < next < tokens.len() {
                    match tokens[next] {
                        TokenModel::RightBracket => Ok((ValueModel::Array(elements), next + 1)),
                        TokenModel::Comma => parse_elements(tokens, next + 1, elements),
                        _ => Err(ParseError::ExpectedCommaOrClosingBracket),
                    }
                } else {
                    Err(ParseError::UnclosedArray)
                }
            },
            Err(e) => Err(e),
        }
    } else {
        Err(ParseError::UnclosedArray)
    }
}

/// A value that was parsed spans at least one token and ends inside the
/// sequence.
pub proof fn lemma_parse_value_bounds(tokens: Seq<TokenModel>, pos: int)
    ensures
        parse_value(tokens, pos) is Ok ==> pos < parse_value(tokens, pos)->Ok_0.1 <= tokens.len(),
    decreases tokens.len() - pos, 1int,
{
    if 0 <= pos < tokens.len() {
        match tokens[pos] {
            TokenModel::LeftBrace => {
                if !(pos + 1 < tokens.len() && tokens[pos + 1] == TokenModel::RightBrace) {
                    lemma_parse_members_bounds(tokens, pos + 1, Seq::empty());
                }
            },
            TokenModel::LeftBracket => {
                if !(pos + 1 < tokens.len() && tokens[pos + 1] == TokenModel::RightBracket) {
                    lemma_parse_elements_bounds(tokens, pos + 1, Seq::empty());
                }
            },
            _ => {},
        }
    }
}

/// The members of an object that was parsed end inside the sequence.
pub proof fn lemma_parse_members_bounds(
    tokens: Seq<TokenModel>,
    pos: int,
    read: Seq<(Seq<char>, ValueModel)>,
)
    ensures
        parse_members(tokens, pos, read) is Ok ==> pos < parse_members(tokens, pos, read)->Ok_0.1
            <= tokens.len(),
    decreases tokens.len() - pos, 0int,
{
    if 0 <= pos < tokens.len() {
        if let TokenModel::StringLiteral(key) = tokens[pos] {
            if pos + 1 < tokens.len() && tokens[pos + 1] == TokenModel::Colon {
                lemma_parse_value_bounds(tokens, pos + 2);
                if let Ok((value, next)) = parse_value(tokens, pos + 2) {
                    if next < tokens.len() && tokens[next] == TokenModel::Comma {
                        lemma_parse_members_bounds(tokens, next + 1, read.push((key, value)));
                    }
                }
            }
        }
    }
}

/// The elements of an array that was parsed end inside the sequence.
pub proof fn lemma_parse_elements_bounds(tokens: Seq<TokenModel>, pos: int, read: Seq<ValueModel>)
    ensures
        parse_elements(tokens, pos, read) is Ok ==> pos < parse_elements(tokens, pos, read)->Ok_0.1
            <= tokens.len(),
    decreases tokens.len() - pos, 2int,
{
    if 0 <= pos < tokens.len() {
        lemma_parse_value_bounds(tokens, pos);
        if let Ok((value, next)) = parse_value(tokens, pos) {
            if pos < next < tokens.len() && tokens[next] == TokenModel::Comma {
                lemma_parse_elements_bounds(tokens, next + 1, read.push(value));
            }
        }
    }
}

/// A cursor over the tokens of one document.
#[derive(Debug)]
pub struct Parser {
    tokens: Vec<Token>,
    pos: usize,
}

impl Parser {
    /// The tokens of the document.
    pub closed spec fn tokens(&self) -> Seq<TokenModel> {
        token_models(self.tokens@)
    }

    /// The read position: the number of tokens consumed so far.
    pub closed spec fn cursor(&self) -> int {
        self.pos as int
    }

    /// The read position lies inside the tokens or at their end.
    pub open spec fn wf(&self) -> bool {
        0 <= self.cursor() <= self.tokens().len()
    }

    /// A parser at the first of `tokens`.
    pub fn new(tokens: Vec<Token>) -> (parser: Parser)
        ensures
            parser.wf(),
            parser.tokens() == token_models(tokens@),
            parser.cursor() == 0,
    {
        Parser { tokens, pos: 0 }
    }

    /// The number of tokens consumed so far.
    pub fn position(&self) -> (pos: usize)
        ensures
            pos == self.cursor(),
    {
        self.pos
    }

    /// The number of tokens that have not been consumed yet.
    pub fn remaining(&self) -> (count: usize)
        requires
            self.wf(),
        ensures
            count == self.tokens().len() - self.cursor(),
    {
        self.tokens.len() - self.pos
    }

    /// Reads one value from the read position on and moves behind it.
    ///
    /// Tokens that follow the value are left where they are. On an error
    /// the read position is somewhere between where it was and the end.
    pub fn parse(&mut self) -> (result: Result<Value, ParseError>)
        requires
            old(self).wf(),
        ensures
            final(self).wf(),
            final(self).tokens() == old(self).tokens(),
            old(self).cursor() <= final(self).cursor(),
            match parse_value(old(self).tokens(), old(self).cursor()) {
                Ok((value, next)) => result is Ok && result->Ok_0@ == value && final(self).cursor()
                    == next,
                Err(e) => result == Err::<Value, ParseError>(e),
            },
        decreases old(self).tokens().len() - old(self).cursor(), 1int,
    {
        if self.pos >= self.tokens.len() {
            return Err(ParseError::UnexpectedEndOfInput);
        }
        match &self.tokens[self.pos] {
            Token::LeftBrace => self.parse_object(),
            Token::LeftBracket => self.parse_array(),
            Token::StringLiteral(s) => {
                let text = s.clone();
                self.pos += 1;
                Ok(Value::StringValue(text))
            },
            Token::NumberLiteral(n) => {
                let text = n.clone();
                self.pos += 1;
                Ok(Value::NumberValue(text))
            },
            Token::True => {
                self.pos += 1;
                Ok(Value::BoolValue(true))
            },
            Token::False => {
                self.pos += 1;
                Ok(Value::BoolValue(false))
            },
            Token::Null => {
                self.pos += 1;
                Ok(Value::NullValue)
            },
            _ => Err(ParseError::InvalidStructure),
        }
    }

    /// Reads the object whose opening brace stands at the read position.
    fn parse_object(&mut self) -> (result: Result<Value, ParseError>)
        requires
            old(self).wf(),
            old(self).cursor() < old(self).tokens().len(),
        ensures
            final(self).wf(),
            final(self).tokens() == old(self).tokens(),
            old(self).cursor() <= final(self).cursor(),
            match parse_object(old(self).tokens(), old(self).cursor()) {
                Ok((value, next)) => result is Ok && result->Ok_0@ == value && final(self).cursor()
                    == next,
                Err(e) => result == Err::<Value, ParseError>(e),
            },
        decreases old(self).tokens().len() - old(self).cursor(), 0int,
    {
        let ghost tokens = self.tokens();
        let ghost start = self.pos as int;
        assert(self.pos < self.tokens.len());
        self.pos += 1;
        let mut pairs: Vec<(String, Value)> = Vec::new();
        if self.pos < self.tokens.len() {
            if let Token::RightBrace = &self.tokens[self.pos] {
                self.pos += 1;
                proof {
                    lemma_object_view(pairs);
                    assert(pair_models(pairs@) =~= Seq::empty());
                }
                return Ok(Value::Object(pairs));
            }
        }
        assert(pair_models(pairs@) =~= Seq::empty());
        loop
            invariant_except_break
                parse_object(tokens, start) == parse_members(
                    tokens,
                    self.pos as int,
                    pair_models(pairs@),
                ),
            invariant
                tokens == self.tokens(),
                tokens == old(self).tokens(),
                start == old(self).pos,
                start < self.pos <= self.tokens.len(),
            ensures
                parse_object(tokens, start) == Ok::<(ValueModel, int), ParseError>(
                    (ValueModel::Object(pair_models(pairs@)), self.pos as int),
                ),
            decreases self.tokens.len() - self.pos,
        {
            if self.pos >= self.tokens.len() {
                return Err(ParseError::UnclosedObject);
            }
            let key = match &self.tokens[self.pos] {
                Token::StringLiteral(s) => s.clone(),
                _ => {
                    return Err(ParseError::ExpectedStringKey);
                },
            };
            self.pos += 1;
            if self.pos >= self.tokens.len() {
                return Err(ParseError::ExpectedColon);
            }
            match &self.tokens[self.pos] {
                Token::Colon => {},
                _ => {
                    return Err(ParseError::ExpectedColon);
                },
            }
            self.pos += 1;
            let ghost read = pair_models(pairs@);
            let ghost at = self.pos as int;
            let value = match self.parse() {
                Ok(value) => value,
                Err(e) => {
                    return Err(e);
                },
            };
            proof {
                lemma_parse_value_bounds(tokens, at);
            }
            let ghost member = (key@, value@);
            pairs.push((key, value));
            assert(pair_models(pairs@) =~= read.push(member));
            if self.pos >= self.tokens.len() {
                return Err(ParseError::UnclosedObject);
            }
            match &self.tokens[self.pos] {
                Token::RightBrace => {
                    self.pos += 1;
                    break ;
                },
                Token::Comma => {
                    self.pos += 1;
                },
                _ => {
                    return Err(ParseError::ExpectedCommaOrClosingBrace);
                },
            }
        }
        proof {
            lemma_object_view(pairs);
        }
        Ok(Value::Object(pairs))
    }

    /// Reads the array whose opening bracket stands at the read position.
    fn parse_array(&mut self) -> (result: Result<Value, ParseError>)
        requires
            old(self).wf(),
            old(self).cursor() < old(self).tokens().len(),
        ensures
            final(self).wf(),
            final(self).tokens() == old(self).tokens(),
            old(self).cursor() <= final(self).cursor(),
            match parse_array(old(self).tokens(), old(self).cursor()) {
                Ok((value, next)) => result is Ok && result->Ok_0@ == value && final(self).cursor()
                    == next,
                Err(e) => result == Err::<Value, ParseError>(e),
            },
        decreases old(self).tokens().len() - old(self).cursor(), 0int,
    {
        let ghost tokens = self.tokens();
        let ghost start = self.pos as int;
        assert(self.pos < self.tokens.len());
        self.pos += 1;
        let mut elements: Vec<Value> = Vec::new();
        if self.pos < self.tokens.len() {
            if let Token::RightBracket = &self.tokens[self.pos] {
                self.pos += 1;
                proof {
                    lemma_array_view(elements);
                    assert(value_models(elements@) =~= Seq::empty());
                }
                return Ok(Value::Array(elements));
            }
        }
        assert(value_models(elements@) =~= Seq::empty());
        loop
            invariant_except_break
                parse_array(tokens, start) == parse_elements(
                    tokens,
                    self.pos as int,
                    value_models(elements@),
                ),
            invariant
                tokens == self.tokens(),
                tokens == old(self).tokens(),
                start == old(self).pos,
                start < self.pos <= self.tokens.len(),
            ensures
                parse_array(tokens, start) == Ok::<(ValueModel, int), ParseError>(
                    (ValueModel::Array(value_models(elements@)), self.pos as int),
                ),
            decreases self.tokens.len() - self.pos,
        {
            if self.pos >= self.tokens.len() {
                return Err(ParseError::UnclosedArray);
            }
            let ghost read = value_models(elements@);
            let ghost at = self.pos as int;
            let value = match self.parse() {
                Ok(value) => value,
                Err(e) => {
                    return Err(e);
                },
            };
            proof {
                lemma_parse_value_bounds(tokens, at);
            }
            let ghost element = value@;
            elements.push(value);
            assert(value_models(elements@) =~= read.push(element));
            if self.pos >= self.tokens.len() {
                return Err(ParseError::UnclosedArray);
            }
            match &self.tokens[self.pos] {
                Token::RightBracket => {
                    self.pos += 1;
                    break ;
                },
                Token::Comma => {
                    self.pos += 1;
                },
                _ => {
                    return Err(ParseError::ExpectedCommaOrClosingBracket);
                },
            }
        }
        proof {
            lemma_array_view(elements);
        }
        Ok(Value::Array(elements))
    }
}

} // verus!
