//! The lexer: from characters to tokens.

use vstd::prelude::*;
use crate::chars::{char_is_digit, char_is_whitespace, is_digit, is_whitespace};
use crate::token::{Token, TokenModel, token_models};

verus! {

/// `String::push` of the standard library: the string afterwards is the
/// string before with `c` appended, and nothing else.
pub assume_specification[ String::push ](text: &mut String, c: char)
    ensures
        final(text)@ == old(text)@.push(c),
;

/// The classes of characters of which the lexer consumes whole runs.
pub enum CharClass {
    /// White space between tokens.
    Blank,
    /// Whatever may stand inside a string literal: anything but `"`.
    InString,
    /// Whatever continues a number literal: a digit or `.`.
    InNumber,
}

impl CharClass {
    /// Whether `c` belongs to the class.
    pub open spec fn holds(self, c: char) -> bool {
        match self {
            CharClass::Blank => is_whitespace(c),
            CharClass::InString => c != '"',
            CharClass::InNumber => is_digit(c) || c == '.',
        }
    }
}

/// Where the longest run of characters of `class` that starts at `pos` ends:
/// the first position from `pos` on that holds no character of the class.
pub open spec fn run_end(input: Seq<char>, pos: int, class: CharClass) -> int
    decreases input.len() - pos,
{
    if 0 <= pos < input.len() && class.holds(input[pos]) {
        run_end(input, pos + 1, class)
    } else {
        pos
    }
}

/// `run_end` is the one position that closes a run: everything before it
/// is of the class, and it is the end of the input or not of the class.
pub proof fn lemma_run_end(input: Seq<char>, pos: int, class: CharClass)
    requires
        0 <= pos <= input.len(),
    ensures
        pos <= run_end(input, pos, class) <= input.len(),
        forall|i: int| pos <= i < run_end(input, pos, class) ==> class.holds(#[trigger] input[i]),
        run_end(input, pos, class) < input.len() ==> !class.holds(
            input[run_end(input, pos, class)],
        ),
    decreases input.len() - pos,
{
    if pos < input.len() && class.holds(input[pos]) {
        lemma_run_end(input, pos + 1, class);
    }
}

/// Any position that closes a run is `run_end`.
pub proof fn lemma_run_end_unique(input: Seq<char>, pos: int, class: CharClass, end: int)
    requires
        0 <= pos <= end <= input.len(),
        forall|i: int| pos <= i < end ==> class.holds(#[trigger] input[i]),
        end < input.len() ==> !class.holds(input[end]),
    ensures
        run_end(input, pos, class) == end,
    decreases end - pos,
{
    if pos < end {
        lemma_run_end_unique(input, pos + 1, class, end);
    }
}

/// Whether `word` stands in `input` at `pos`.
pub open spec fn word_at(input: Seq<char>, pos: int, word: Seq<char>) -> bool {
    &&& 0 <= pos
    &&& pos + word.len() <= input.len()
    &&& input.subrange(pos, pos + word.len()) == word
}

/// The token that a keyword's first letter leads to, if the whole keyword
/// stands at `start`; white space, with only that letter consumed, if not.
pub open spec fn keyword_step(input: Seq<char>, start: int, word: Seq<char>, token: TokenModel) -> (
    TokenModel,
    int,
) {
    if word_at(input, start, word) {
        (token, start + word.len())
    } else {
        (TokenModel::Whitespace, start + 1)
    }
}

/// The string literal whose opening quote stands just before `from`: the
/// characters up to the next quote, which is consumed too. Where the input
/// ends first, the literal ends with it.
pub open spec fn string_step(input: Seq<char>, from: int) -> (TokenModel, int) {
    let end = run_end(input, from, CharClass::InString);
    (
        TokenModel::StringLiteral(input.subrange(from, end)),
        if end < input.len() {
            end + 1
        } else {
            end
        },
    )
}

/// The number literal whose first character stands at `start`: that
/// character and the digits and points that follow it.
pub open spec fn number_step(input: Seq<char>, start: int) -> (TokenModel, int) {
    let end = run_end(input, start + 1, CharClass::InNumber);
    (TokenModel::NumberLiteral(input.subrange(start, end)), end)
}

/// The token that starts with the character at `start`, and the position
/// behind it.
pub open spec fn token_at(input: Seq<char>, start: int) -> (TokenModel, int)
    recommends
        0 <= start < input.len(),
{
    let c = input[start];
    if c == '{' {
        (TokenModel::LeftBrace, start + 1)
    } else if c == '}' {
        (TokenModel::RightBrace, start + 1)
    } else if c == '[' {
        (TokenModel::LeftBracket, start + 1)
    } else if c == ']' {
        (TokenModel::RightBracket, start + 1)
    } else if c == ':' {
        (TokenModel::Colon, start + 1)
    } else if c == ',' {
        (TokenModel::Comma, start + 1)
    } else if c == '"' {
        string_step(input, start + 1)
    } else if c == 't' {
        keyword_step(input, start, seq!['t', 'r', 'u', 'e'], TokenModel::True)
    } else if c == 'f' {
        keyword_step(input, start, seq!['f', 'a', 'l', 's', 'e'], TokenModel::False)
    } else if c == 'n' {
        keyword_step(input, start, seq!['n', 'u', 'l', 'l'], TokenModel::Null)
    } else if is_digit(c) || c == '-' {
        number_step(input, start)
    } else {
        (TokenModel::Whitespace, start + 1)
    }
}

/// One step of the lexer from `pos`: white space is skipped, then the next
/// token is read. At the end of the input the token is `EndOfInput`.
pub open spec fn lex_step(input: Seq<char>, pos: int) -> (TokenModel, int) {
    let start = run_end(input, pos, CharClass::Blank);
    if 0 <= start < input.len() {
        token_at(input, start)
    } else {
        (TokenModel::EndOfInput, start)
    }
}

/// A step stays inside the input, never goes back, and moves forward
/// unless it reports the end of the input.
pub proof fn lemma_lex_step_bounds(input: Seq<char>, pos: int)
    requires
        0 <= pos <= input.len(),
    ensures
        pos <= lex_step(input, pos).1 <= input.len(),
        lex_step(input, pos).0 != TokenModel::EndOfInput ==> pos < lex_step(input, pos).1,
        lex_step(input, pos).0 == TokenModel::EndOfInput ==> lex_step(input, pos).1 == input.len(),
{
    let start = run_end(input, pos, CharClass::Blank);
    lemma_run_end(input, pos, CharClass::Blank);
    if start < input.len() {
        lemma_run_end(input, start + 1, CharClass::InString);
        lemma_run_end(input, start + 1, CharClass::InNumber);
    }
}

/// A cursor over the characters of one document.
#[derive(Debug)]
pub struct Lexer {
    input: Vec<char>,
    pos: usize,
}

impl Lexer {
    /// The characters of the document.
    pub closed spec fn chars(&self) -> Seq<char> {
        self.input@
    }

    /// The scan position: the number of characters consumed so far.
    pub closed spec fn cursor(&self) -> int {
        self.pos as int
    }

    /// The scan position lies inside the document or at its end.
    pub open spec fn wf(&self) -> bool {
        0 <= self.cursor() <= self.chars().len()
    }

    /// A lexer at the start of `input`.
    pub fn new(input: String) -> (lexer: Lexer)
        ensures
            lexer.wf(),
            lexer.chars() == input@,
            lexer.cursor() == 0,
    {
        let mut chars: Vec<char> = Vec::new();
        for c in it: input.as_str().chars()
            invariant
                it.seq() == input@,
                chars@ == input@.take(it.index()),
        {
            chars.push(c);
        }
        Lexer { input: chars, pos: 0 }
    }

    /// The number of characters consumed so far.
    pub fn position(&self) -> (pos: usize)
        ensures
            pos == self.cursor(),
    {
        self.pos
    }

    /// Moves past the white space at the scan position, if there is any.
    pub fn skio_whitespace(&mut self)
        requires
            old(self).wf(),
        ensures
            final(self).wf(),
            final(self).chars() == old(self).chars(),
            old(self).cursor() <= final(self).cursor(),
            final(self).cursor() == run_end(old(self).chars(), old(self).cursor(), CharClass::Blank),
    {
        while self.pos < self.input.len() && char_is_whitespace(self.input[self.pos])
            invariant
                self.input@ == old(self).input@,
                old(self).pos <= self.pos <= self.input.len(),
                run_end(self.input@, self.pos as int, CharClass::Blank) == run_end(
                    self.input@,
                    old(self).pos as int,
                    CharClass::Blank,
                ),
            decreases self.input.len() - self.pos,
        {
            self.pos += 1;
        }
    }

    /// Reads the next token and moves behind it. White space before the
    /// token is skipped; at the end of the input the token is `EndOfInput`.
    /// What is no token at all is reported as `Whitespace`.
    pub fn next_token(&mut self) -> (token: Token)
        requires
            old(self).wf(),
        ensures
            final(self).wf(),
            final(self).chars() == old(self).chars(),
            old(self).cursor() <= final(self).cursor(),
            (token@, final(self).cursor()) == lex_step(old(self).chars(), old(self).cursor()),
            old(self).cursor() == old(self).chars().len() ==> token@ == TokenModel::EndOfInput,
            token@ != TokenModel::EndOfInput ==> old(self).cursor() < final(self).cursor(),
    {
        proof {
            lemma_lex_step_bounds(self.input@, self.pos as int);
        }
        self.skio_whitespace();
        if self.pos >= self.input.len() {
            return Token::EndOfInput;
        }
        let ch = self.input[self.pos];
        self.pos += 1;
        if ch == '{' {
            Token::LeftBrace
        } else if ch == '}' {
            Token::RightBrace
        } else if ch == '[' {
            Token::LeftBracket
        } else if ch == ']' {
            Token::RightBracket
        } else if ch == ':' {
            Token::Colon
        } else if ch == ',' {
            Token::Comma
        } else if ch == '"' {
            self.read_string()
        } else if ch == 't' {
            self.read_true()
        } else if ch == 'f' {
            self.read_false()
        } else if ch == 'n' {
            self.read_null()
        } else if char_is_digit(ch) || ch == '-' {
            let ghost start = self.pos - 1;
            let token = self.read_number(ch);
            proof {
                lemma_run_end(self.input@, start + 1, CharClass::InNumber);
                assert(seq![ch] + self.input@.subrange(start + 1, self.pos as int)
                    =~= self.input@.subrange(start, self.pos as int));
            }
            token
        } else {
            Token::Whitespace
        }
    }

    /// Reads a string literal whose opening quote has been consumed.
    fn read_string(&mut self) -> (token: Token)
        requires
            old(self).wf(),
        ensures
            final(self).wf(),
            final(self).chars() == old(self).chars(),
            (token@, final(self).cursor()) == string_step(old(self).chars(), old(self).cursor()),
    {
        let mut result = String::new();
        let ghost from = self.pos as int;
        while self.pos < self.input.len() && self.input[self.pos] != '"'
            invariant
                self.input@ == old(self).input@,
                from == old(self).pos,
                from <= self.pos <= self.input.len(),
                result@ == self.input@.subrange(from, self.pos as int),
                run_end(self.input@, self.pos as int, CharClass::InString) == run_end(
                    self.input@,
                    from,
                    CharClass::InString,
                ),
            decreases self.input.len() - self.pos,
        {
            result.push(self.input[self.pos]);
            self.pos += 1;
            assert(self.input@.subrange(from, self.pos as int) =~= self.input@.subrange(
                from,
                self.pos - 1,
            ).push(self.input@[self.pos - 1]));
        }
        if self.pos < self.input.len() && self.input[self.pos] == '"' {
            self.pos += 1;
        }
        Token::StringLiteral(result)
    }

    /// Reads the rest of `true` where its first letter has been consumed.
    fn read_true(&mut self) -> (token: Token)
        requires
            old(self).wf(),
            old(self).cursor() >= 1,
        ensures
            final(self).wf(),
            final(self).chars() == old(self).chars(),
            (token@, final(self).cursor()) == keyword_step(
                old(self).chars(),
                old(self).cursor() - 1,
                seq!['t', 'r', 'u', 'e'],
                TokenModel::True,
            ),
    {
        let ghost word = seq!['t', 'r', 'u', 'e'];
        let ghost start = self.pos - 1;
        if self.input.len() - self.pos >= 3 && self.input[self.pos - 1] == 't'
            && self.input[self.pos] == 'r' && self.input[self.pos + 1] == 'u'
            && self.input[self.pos + 2] == 'e' {
            assert(self.input@.subrange(start, start + 4) =~= word);
            self.pos += 3;
            Token::True
        } else {
            assert(!word_at(self.input@, start, word)) by {
                if word_at(self.input@, start, word) {
                    let part = self.input@.subrange(start, start + 4);
                    assert(part[0] == 't' && part[1] == 'r' && part[2] == 'u' && part[3] == 'e');
                }
            }
            Token::Whitespace
        }
    }

    /// Reads the rest of `false` where its first letter has been consumed.
    fn read_false(&mut self) -> (token: Token)
        requires
            old(self).wf(),
            old(self).cursor() >= 1,
        ensures
            final(self).wf(),
            final(self).chars() == old(self).chars(),
            (token@, final(self).cursor()) == keyword_step(
                old(self).chars(),
                old(self).cursor() - 1,
                seq!['f', 'a', 'l', 's', 'e'],
                TokenModel::False,
            ),
    {
        let ghost word = seq!['f', 'a', 'l', 's', 'e'];
        let ghost start = self.pos - 1;
        if self.input.len() - self.pos >= 4 && self.input[self.pos - 1] == 'f'
            && self.input[self.pos] == 'a' && self.input[self.pos + 1] == 'l'
            && self.input[self.pos + 2] == 's' && self.input[self.pos + 3] == 'e' {
            assert(self.input@.subrange(start, start + 5) =~= word);
            self.pos += 4;
            Token::False
        } else {
            assert(!word_at(self.input@, start, word)) by {
                if word_at(self.input@, start, word) {
                    let part = self.input@.subrange(start, start + 5);
                    assert(part[0] == 'f' && part[1] == 'a' && part[2] == 'l' && part[3] == 's'
                        && part[4] == 'e');
                }
            }
            Token::Whitespace
        }
    }

    /// Reads the rest of `null` where its first letter has been consumed.
    fn read_null(&mut self) -> (token: Token)
        requires
            old(self).wf(),
            old(self).cursor() >= 1,
        ensures
            final(self).wf(),
            final(self).chars() == old(self).chars(),
            (token@, final(self).cursor()) == keyword_step(
                old(self).chars(),
                old(self).cursor() - 1,
                seq!['n', 'u', 'l', 'l'],
                TokenModel::Null,
            ),
    {
        let ghost word = seq!['n', 'u', 'l', 'l'];
        let ghost start = self.pos - 1;
        if self.input.len() - self.pos >= 3 && self.input[self.pos - 1] == 'n'
            && self.input[self.pos] == 'u' && self.input[self.pos + 1] == 'l'
            && self.input[self.pos + 2] == 'l' {
            assert(self.input@.subrange(start, start + 4) =~= word);
            self.pos += 3;
            Token::Null
        } else {
            assert(!word_at(self.input@, start, word)) by {
                if word_at(self.input@, start, word) {
                    let part = self.input@.subrange(start, start + 4);
                    assert(part[0] == 'n' && part[1] == 'u' && part[2] == 'l' && part[3] == 'l');
                }
            }
            Token::Whitespace
        }
    }

    /// Reads a number literal whose first character, `first`, has been
    /// consumed: the digits and points that follow belong to it.
    fn read_number(&mut self, first: char) -> (token: Token)
        requires
            old(self).wf(),
        ensures
            final(self).wf(),
            final(self).chars() == old(self).chars(),
            final(self).cursor() == run_end(
                old(self).chars(),
                old(self).cursor(),
                CharClass::InNumber,
            ),
            token@ == TokenModel::NumberLiteral(
                seq![first] + old(self).chars().subrange(old(self).cursor(), final(self).cursor()),
            ),
    {
        let mut number = String::new();
        number.push(first);
        let ghost from = self.pos as int;
        while self.pos < self.input.len() && (char_is_digit(self.input[self.pos])
            || self.input[self.pos] == '.')
            invariant
                self.input@ == old(self).input@,
                from == old(self).pos,
                from <= self.pos <= self.input.len(),
                number@ == seq![first] + self.input@.subrange(from, self.pos as int),
                run_end(self.input@, self.pos as int, CharClass::InNumber) == run_end(
                    self.input@,
                    from,
                    CharClass::InNumber,
                ),
            decreases self.input.len() - self.pos,
        {
            number.push(self.input[self.pos]);
            self.pos += 1;
            assert(self.input@.subrange(from, self.pos as int) =~= self.input@.subrange(
                from,
                self.pos - 1,
            ).push(self.input@[self.pos - 1]));
        }
        Token::NumberLiteral(number)
    }
}

/// The tokens from `pos` to the end of the input, those that are white
/// space left out.
pub open spec fn tokens_from(input: Seq<char>, pos: int) -> Seq<TokenModel>
    decreases input.len() - pos,
{
    if 0 <= pos <= input.len() {
        let step = lex_step(input, pos);
        if step.0 == TokenModel::EndOfInput {
            Seq::empty()
        } else {
            proof {
                lemma_lex_step_bounds(input, pos);
            }
            if step.0 == TokenModel::Whitespace {
                tokens_from(input, step.1)
            } else {
                seq![step.0] + tokens_from(input, step.1)
            }
        }
    } else {
        Seq::empty()
    }
}

/// Among the tokens of an input there is no white space and no end of
/// input.
pub proof fn lemma_tokens_from_plain(input: Seq<char>, pos: int)
    ensures
        forall|i: int|
            0 <= i < tokens_from(input, pos).len() ==> {
                &&& (#[trigger] tokens_from(input, pos)[i]) != TokenModel::Whitespace
                &&& tokens_from(input, pos)[i] != TokenModel::EndOfInput
            },
    decreases input.len() - pos,
{
    if 0 <= pos <= input.len() {
        let step = lex_step(input, pos);
        if step.0 != TokenModel::EndOfInput {
            lemma_lex_step_bounds(input, pos);
            lemma_tokens_from_plain(input, step.1);
        }
    }
}

/// The tokens of a whole document.
pub open spec fn lex(input: Seq<char>) -> Seq<TokenModel> {
    tokens_from(input, 0)
}

/// Reads all the tokens of `input`, up to its end, and leaves out those
/// that are white space.
pub fn tokenize(input: String) -> (tokens: Vec<Token>)
    ensures
        token_models(tokens@) == lex(input@),
        forall|i: int|
            0 <= i < tokens@.len() ==> {
                &&& (#[trigger] tokens@[i])@ != TokenModel::Whitespace
                &&& tokens@[i]@ != TokenModel::EndOfInput
            },
{
    proof {
        lemma_tokens_from_plain(input@, 0);
    }
    let mut lexer = Lexer::new(input);
    let mut tokens: Vec<Token> = Vec::new();
    loop
        invariant
            lexer.wf(),
            lexer.chars() == input@,
            lex(input@) == token_models(tokens@) + tokens_from(input@, lexer.cursor()),
        ensures
            token_models(tokens@) == lex(input@),
        decreases input@.len() - lexer.cursor(),
    {
        let ghost before = lexer.cursor();
        let ghost read = token_models(tokens@);
        let token = lexer.next_token();
        proof {
            lemma_lex_step_bounds(input@, before);
        }
        match token {
            Token::EndOfInput => {
                assert(read + Seq::<TokenModel>::empty() =~= read);
                break ;
            },
            Token::Whitespace => {},
            _ => {
                tokens.push(token);
                assert(token_models(tokens@) =~= read.push(token@));
                assert(read.push(token@) + tokens_from(input@, lexer.cursor()) =~= read + (
                seq![token@] + tokens_from(input@, lexer.cursor())));
            },
        }
    }
    assert forall|i: int| 0 <= i < tokens@.len() implies {
        &&& (#[trigger] tokens@[i])@ != TokenModel::Whitespace
        &&& tokens@[i]@ != TokenModel::EndOfInput
    } by {
        assert(token_models(tokens@)[i] == tokens@[i]@);
    }
    tokens
}

} // verus!
