use json_parser::lexer::{tokenize, Lexer};
use json_parser::token::Token;

fn text(s: &str) -> String {
    s.to_string()
}

fn string(s: &str) -> Token {
    Token::StringLiteral(s.to_string())
}

fn number(s: &str) -> Token {
    Token::NumberLiteral(s.to_string())
}

#[test]
fn new_lexer_starts_at_zero() {
    let lexer = Lexer::new(text("  [1]"));
    assert_eq!(lexer.position(), 0);
}

#[test]
fn skip_whitespace_stops_at_first_other_char() {
    let mut lexer = Lexer::new(text(" \t\r\n\u{A0}\u{3000}x  "));
    lexer.skio_whitespace();
    assert_eq!(lexer.position(), 6);
    lexer.skio_whitespace();
    assert_eq!(lexer.position(), 6);
}

#[test]
fn skip_whitespace_runs_to_the_end() {
    let mut lexer = Lexer::new(text("   "));
    lexer.skio_whitespace();
    assert_eq!(lexer.position(), 3);
    let mut empty = Lexer::new(String::new());
    empty.skio_whitespace();
    assert_eq!(empty.position(), 0);
}

#[test]
fn punctuation_tokens() {
    let mut lexer = Lexer::new(text("{}[]:,"));
    assert_eq!(lexer.next_token(), Token::LeftBrace);
    assert_eq!(lexer.position(), 1);
    assert_eq!(lexer.next_token(), Token::RightBrace);
    assert_eq!(lexer.next_token(), Token::LeftBracket);
    assert_eq!(lexer.next_token(), Token::RightBracket);
    assert_eq!(lexer.next_token(), Token::Colon);
    assert_eq!(lexer.next_token(), Token::Comma);
    assert_eq!(lexer.position(), 6);
    assert_eq!(lexer.next_token(), Token::EndOfInput);
}

#[test]
fn end_of_input_is_reported_again_and_again() {
    let mut lexer = Lexer::new(text("1  "));
    assert_eq!(lexer.next_token(), number("1"));
    assert_eq!(lexer.position(), 1);
    assert_eq!(lexer.next_token(), Token::EndOfInput);
    assert_eq!(lexer.position(), 3);
    assert_eq!(lexer.next_token(), Token::EndOfInput);
    assert_eq!(lexer.position(), 3);
}

#[test]
fn empty_input_is_end_of_input() {
    let mut lexer = Lexer::new(String::new());
    assert_eq!(lexer.next_token(), Token::EndOfInput);
    assert_eq!(lexer.position(), 0);
    assert_eq!(tokenize(String::new()), vec![]);
}

#[test]
fn position_never_goes_back() {
    let mut lexer = Lexer::new(text(" {\"k\" : [ -1.5 , tru , null ] } @ "));
    let mut last = lexer.position();
    loop {
        let token = lexer.next_token();
        assert!(lexer.position() >= last);
        last = lexer.position();
        if token == Token::EndOfInput {
            break;
        }
    }
    assert_eq!(last, 34);
}

#[test]
fn string_literal_is_taken_verbatim() {
    let mut lexer = Lexer::new(text("\"hello world\" \"\""));
    assert_eq!(lexer.next_token(), string("hello world"));
    assert_eq!(lexer.position(), 13);
    assert_eq!(lexer.next_token(), string(""));
    assert_eq!(lexer.position(), 16);
    assert_eq!(lexer.next_token(), Token::EndOfInput);
}

#[test]
fn string_literal_keeps_every_character() {
    assert_eq!(
        tokenize(text("\"{[ 1,2 ]}: tr\u{fc}e \u{8d8a}\n\"")),
        vec![string("{[ 1,2 ]}: tr\u{fc}e \u{8d8a}\n")]
    );
}

#[test]
fn unterminated_string_ends_with_the_input() {
    let mut lexer = Lexer::new(text("\"abc"));
    assert_eq!(lexer.next_token(), string("abc"));
    assert_eq!(lexer.position(), 4);
    assert_eq!(lexer.next_token(), Token::EndOfInput);
    assert_eq!(tokenize(text("\"")), vec![string("")]);
}

#[test]
fn backslash_is_an_ordinary_character() {
    assert_eq!(tokenize(text("\"a\\nb\"")), vec![string("a\\nb")]);
    assert_eq!(tokenize(text("\"a\\\"b\"")), vec![string("a\\"), string("")]);
}

#[test]
fn keywords() {
    assert_eq!(
        tokenize(text("true false null")),
        vec![Token::True, Token::False, Token::Null]
    );
    assert_eq!(
        tokenize(text("truefalsenull")),
        vec![Token::True, Token::False, Token::Null]
    );
    let mut lexer = Lexer::new(text("false"));
    assert_eq!(lexer.next_token(), Token::False);
    assert_eq!(lexer.position(), 5);
}

#[test]
fn broken_keyword_becomes_whitespace() {
    let mut lexer = Lexer::new(text("tru"));
    assert_eq!(lexer.next_token(), Token::Whitespace);
    assert_eq!(lexer.position(), 1);
    assert_eq!(lexer.next_token(), Token::Whitespace);
    assert_eq!(lexer.position(), 2);
    assert_eq!(lexer.next_token(), Token::Whitespace);
    assert_eq!(lexer.position(), 3);
    assert_eq!(lexer.next_token(), Token::EndOfInput);
    assert_eq!(tokenize(text("tru")), vec![]);
    assert_eq!(tokenize(text("nul")), vec![]);
    assert_eq!(tokenize(text("fals")), vec![]);
    assert_eq!(tokenize(text("True")), vec![]);
    assert_eq!(tokenize(text("nulL")), vec![]);
    assert_eq!(tokenize(text("t")), vec![]);
    assert_eq!(tokenize(text("f,")), vec![Token::Comma]);
    assert_eq!(tokenize(text("ntrue")), vec![Token::True]);
}

#[test]
fn unknown_characters_become_whitespace() {
    let mut lexer = Lexer::new(text("@"));
    assert_eq!(lexer.next_token(), Token::Whitespace);
    assert_eq!(lexer.position(), 1);
    assert_eq!(tokenize(text("@ # x + ;")), vec![]);
    assert_eq!(tokenize(text("[a]")), vec![Token::LeftBracket, Token::RightBracket]);
}

#[test]
fn number_literals_keep_their_text() {
    assert_eq!(tokenize(text("0")), vec![number("0")]);
    assert_eq!(tokenize(text("42")), vec![number("42")]);
    assert_eq!(tokenize(text("-12.5")), vec![number("-12.5")]);
    assert_eq!(tokenize(text("3.")), vec![number("3.")]);
    let mut lexer = Lexer::new(text("  123.25,"));
    assert_eq!(lexer.next_token(), number("123.25"));
    assert_eq!(lexer.position(), 8);
    assert_eq!(lexer.next_token(), Token::Comma);
}

#[test]
fn malformed_numbers_are_one_token() {
    assert_eq!(tokenize(text("1.2.3")), vec![number("1.2.3")]);
    assert_eq!(tokenize(text("-")), vec![number("-")]);
    assert_eq!(tokenize(text("-x")), vec![number("-")]);
    assert_eq!(tokenize(text("-.5")), vec![number("-.5")]);
    assert_eq!(tokenize(text("1..")), vec![number("1..")]);
}

#[test]
fn number_ends_at_first_other_character() {
    assert_eq!(tokenize(text("1e5")), vec![number("1"), number("5")]);
    assert_eq!(tokenize(text("1-2")), vec![number("1"), number("-2")]);
    assert_eq!(tokenize(text("--1")), vec![number("-"), number("-1")]);
    assert_eq!(tokenize(text("+1")), vec![number("1")]);
    assert_eq!(tokenize(text(".5")), vec![number("5")]);
    assert_eq!(tokenize(text("12 34")), vec![number("12"), number("34")]);
    assert_eq!(tokenize(text("1\u{0661}")), vec![number("1")]);
}

#[test]
fn tokenize_drops_whitespace_and_stops_at_the_end() {
    let tokens = tokenize(text(" {\n  \"a\" : 1.5 ,\t\"b\": [true, false , null]\r\n}\n"));
    assert_eq!(
        tokens,
        vec![
            Token::LeftBrace,
            string("a"),
            Token::Colon,
            number("1.5"),
            Token::Comma,
            string("b"),
            Token::Colon,
            Token::LeftBracket,
            Token::True,
            Token::Comma,
            Token::False,
            Token::Comma,
            Token::Null,
            Token::RightBracket,
            Token::RightBrace,
        ]
    );
    assert!(!tokens.contains(&Token::Whitespace));
    assert!(!tokens.contains(&Token::EndOfInput));
}

#[test]
fn unicode_whitespace_separates_tokens() {
    assert_eq!(
        tokenize(text("\u{A0}[\u{3000}1\u{2028},\u{85}2\u{0B}]\u{205F}")),
        vec![
            Token::LeftBracket,
            number("1"),
            Token::Comma,
            number("2"),
            Token::RightBracket,
        ]
    );
}

#[test]
fn written_tokens_are_read_back() {
    let tokens = vec![
        Token::LeftBrace,
        string("k"),
        Token::Colon,
        Token::LeftBracket,
        number("-1.5"),
        Token::Comma,
        Token::True,
        Token::Comma,
        Token::False,
        Token::Comma,
        Token::Null,
        Token::Comma,
        string(""),
        Token::RightBracket,
        Token::RightBrace,
    ];
    let compact = "{\"k\":[-1.5,true,false,null,\"\"]}";
    let spaced = " {\n\"k\" :\t[ -1.5 , true , false,\u{A0}null , \"\" ] } ";
    assert_eq!(tokenize(text(compact)), tokens);
    assert_eq!(tokenize(text(spaced)), tokens);
}
