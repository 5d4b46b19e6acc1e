use json_parser::error::ParseError;
use json_parser::parser::Parser;
use json_parser::token::Token;
use json_parser::value::Value;

fn string(s: &str) -> Token {
    Token::StringLiteral(s.to_string())
}

fn number(s: &str) -> Token {
    Token::NumberLiteral(s.to_string())
}

fn parse(tokens: Vec<Token>) -> Result<Value, ParseError> {
    Parser::new(tokens).parse()
}

#[test]
fn new_parser_starts_at_zero() {
    let parser = Parser::new(vec![Token::Null, Token::Comma]);
    assert_eq!(parser.position(), 0);
    assert_eq!(parser.remaining(), 2);
}

#[test]
fn no_tokens_is_unexpected_end_of_input() {
    let mut parser = Parser::new(vec![]);
    assert_eq!(parser.parse(), Err(ParseError::UnexpectedEndOfInput));
    assert_eq!(parser.position(), 0);
}

#[test]
fn scalars_consume_one_token() {
    let mut parser = Parser::new(vec![
        string("s"),
        number("1.5"),
        Token::True,
        Token::False,
        Token::Null,
    ]);
    assert_eq!(parser.parse(), Ok(Value::StringValue("s".to_string())));
    assert_eq!(parser.position(), 1);
    assert_eq!(parser.parse(), Ok(Value::NumberValue("1.5".to_string())));
    assert_eq!(parser.position(), 2);
    assert_eq!(parser.parse(), Ok(Value::BoolValue(true)));
    assert_eq!(parser.position(), 3);
    assert_eq!(parser.parse(), Ok(Value::BoolValue(false)));
    assert_eq!(parser.position(), 4);
    assert_eq!(parser.parse(), Ok(Value::NullValue));
    assert_eq!(parser.position(), 5);
    assert_eq!(parser.remaining(), 0);
    assert_eq!(parser.parse(), Err(ParseError::UnexpectedEndOfInput));
    assert_eq!(parser.position(), 5);
}

#[test]
fn tokens_that_begin_no_value_are_invalid_structure() {
    for token in [
        Token::RightBrace,
        Token::RightBracket,
        Token::Colon,
        Token::Comma,
        Token::Whitespace,
        Token::EndOfInput,
    ] {
        assert_eq!(parse(vec![token]), Err(ParseError::InvalidStructure));
    }
}

#[test]
fn empty_object_and_array_tokens() {
    let mut parser = Parser::new(vec![
        Token::LeftBrace,
        Token::RightBrace,
        Token::LeftBracket,
        Token::RightBracket,
    ]);
    assert_eq!(parser.parse(), Ok(Value::Object(vec![])));
    assert_eq!(parser.position(), 2);
    assert_eq!(parser.remaining(), 2);
    assert_eq!(parser.parse(), Ok(Value::Array(vec![])));
    assert_eq!(parser.position(), 4);
}

#[test]
fn object_tokens() {
    let mut parser = Parser::new(vec![
        Token::LeftBrace,
        string("a"),
        Token::Colon,
        number("1"),
        Token::Comma,
        string("b"),
        Token::Colon,
        Token::LeftBracket,
        Token::Null,
        Token::RightBracket,
        Token::RightBrace,
        Token::Comma,
    ]);
    assert_eq!(
        parser.parse(),
        Ok(Value::Object(vec![
            ("a".to_string(), Value::NumberValue("1".to_string())),
            ("b".to_string(), Value::Array(vec![Value::NullValue])),
        ]))
    );
    assert_eq!(parser.position(), 11);
    assert_eq!(parser.remaining(), 1);
}

#[test]
fn array_tokens() {
    let mut parser = Parser::new(vec![
        Token::LeftBracket,
        Token::True,
        Token::Comma,
        Token::LeftBrace,
        Token::RightBrace,
        Token::Comma,
        string("x"),
        Token::RightBracket,
    ]);
    assert_eq!(
        parser.parse(),
        Ok(Value::Array(vec![
            Value::BoolValue(true),
            Value::Object(vec![]),
            Value::StringValue("x".to_string()),
        ]))
    );
    assert_eq!(parser.position(), 8);
}

#[test]
fn trailing_tokens_are_left_alone() {
    let mut parser = Parser::new(vec![Token::Null, Token::RightBrace, Token::Null]);
    assert_eq!(parser.parse(), Ok(Value::NullValue));
    assert_eq!(parser.position(), 1);
    assert_eq!(parser.remaining(), 2);
}

#[test]
fn object_errors() {
    let lb = || Token::LeftBrace;
    assert_eq!(parse(vec![lb()]), Err(ParseError::UnclosedObject));
    assert_eq!(parse(vec![lb(), string("k")]), Err(ParseError::ExpectedColon));
    assert_eq!(
        parse(vec![lb(), string("k"), Token::Comma]),
        Err(ParseError::ExpectedColon)
    );
    assert_eq!(
        parse(vec![lb(), string("k"), Token::RightBrace]),
        Err(ParseError::ExpectedColon)
    );
    assert_eq!(
        parse(vec![lb(), string("k"), Token::Colon]),
        Err(ParseError::UnexpectedEndOfInput)
    );
    assert_eq!(
        parse(vec![lb(), string("k"), Token::Colon, Token::RightBrace]),
        Err(ParseError::InvalidStructure)
    );
    assert_eq!(
        parse(vec![lb(), string("k"), Token::Colon, Token::Null]),
        Err(ParseError::UnclosedObject)
    );
    assert_eq!(
        parse(vec![lb(), string("k"), Token::Colon, Token::Null, Token::Null]),
        Err(ParseError::ExpectedCommaOrClosingBrace)
    );
    assert_eq!(
        parse(vec![lb(), string("k"), Token::Colon, Token::Null, Token::RightBracket]),
        Err(ParseError::ExpectedCommaOrClosingBrace)
    );
    assert_eq!(
        parse(vec![lb(), string("k"), Token::Colon, Token::Null, Token::Comma]),
        Err(ParseError::UnclosedObject)
    );
    assert_eq!(
        parse(vec![
            lb(),
            string("k"),
            Token::Colon,
            Token::Null,
            Token::Comma,
            Token::RightBrace,
        ]),
        Err(ParseError::ExpectedStringKey)
    );
    assert_eq!(parse(vec![lb(), number("1")]), Err(ParseError::ExpectedStringKey));
    assert_eq!(parse(vec![lb(), Token::Comma]), Err(ParseError::ExpectedStringKey));
    assert_eq!(parse(vec![lb(), Token::LeftBrace]), Err(ParseError::ExpectedStringKey));
}

#[test]
fn array_errors() {
    let lb = || Token::LeftBracket;
    assert_eq!(parse(vec![lb()]), Err(ParseError::UnclosedArray));
    assert_eq!(parse(vec![lb(), Token::Null]), Err(ParseError::UnclosedArray));
    assert_eq!(
        parse(vec![lb(), Token::Null, Token::Null]),
        Err(ParseError::ExpectedCommaOrClosingBracket)
    );
    assert_eq!(
        parse(vec![lb(), Token::Null, Token::RightBrace]),
        Err(ParseError::ExpectedCommaOrClosingBracket)
    );
    assert_eq!(
        parse(vec![lb(), Token::Null, Token::Comma]),
        Err(ParseError::UnclosedArray)
    );
    assert_eq!(
        parse(vec![lb(), Token::Null, Token::Comma, Token::RightBracket]),
        Err(ParseError::InvalidStructure)
    );
    assert_eq!(parse(vec![lb(), Token::Comma]), Err(ParseError::InvalidStructure));
    assert_eq!(parse(vec![lb(), Token::Colon]), Err(ParseError::InvalidStructure));
    assert_eq!(
        parse(vec![lb(), Token::LeftBrace, Token::RightBracket]),
        Err(ParseError::ExpectedStringKey)
    );
}

#[test]
fn position_never_goes_back_on_error() {
    let mut parser = Parser::new(vec![Token::Null, Token::LeftBracket, Token::Null, Token::Colon]);
    assert_eq!(parser.parse(), Ok(Value::NullValue));
    let before = parser.position();
    assert_eq!(parser.parse(), Err(ParseError::ExpectedCommaOrClosingBracket));
    assert!(parser.position() >= before);
    assert!(parser.position() <= 4);
}

#[test]
fn duplicate_keys_stay_in_order() {
    let tokens = vec![
        Token::LeftBrace,
        string("a"),
        Token::Colon,
        Token::True,
        Token::Comma,
        string("a"),
        Token::Colon,
        Token::False,
        Token::RightBrace,
    ];
    assert_eq!(
        parse(tokens),
        Ok(Value::Object(vec![
            ("a".to_string(), Value::BoolValue(true)),
            ("a".to_string(), Value::BoolValue(false)),
        ]))
    );
}
