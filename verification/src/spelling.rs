//! How tokens are written down as characters, and the proof that the
//! lexer reads them back.

use vstd::prelude::*;
use crate::chars::{is_digit, is_whitespace};
use crate::lexer::{
    CharClass,
    lemma_run_end_unique,
    lex,
    lex_step,
    run_end,
    tokens_from,
};
use crate::token::TokenModel;

verus! {

/// The characters that spell `token`. White space and the end of the
/// input are spelled by nothing.
pub open spec fn token_chars(token: TokenModel) -> Seq<char> {
    match token {
        TokenModel::LeftBrace => seq!['{'],
        TokenModel::RightBrace => seq!['}'],
        TokenModel::LeftBracket => seq!['['],
        TokenModel::RightBracket => seq![']'],
        TokenModel::Colon => seq![':'],
        TokenModel::Comma => seq![','],
        TokenModel::StringLiteral(text) => seq!['"'] + text + seq!['"'],
        TokenModel::NumberLiteral(text) => text,
        TokenModel::True => seq!['t', 'r', 'u', 'e'],
        TokenModel::False => seq!['f', 'a', 'l', 's', 'e'],
        TokenModel::Null => seq!['n', 'u', 'l', 'l'],
        TokenModel::Whitespace => Seq::empty(),
        TokenModel::EndOfInput => Seq::empty(),
    }
}

/// Whether `text` can stand inside a string literal: it holds no quote.
pub open spec fn is_string_text(text: Seq<char>) -> bool {
    forall|i: int| 0 <= i < text.len() ==> #[trigger] text[i] != '"'
}

/// Whether `text` is read as one number literal: a digit or a minus sign,
/// then digits and points.
pub open spec fn is_number_text(text: Seq<char>) -> bool {
    &&& text.len() >= 1
    &&& is_digit(text[0]) || text[0] == '-'
    &&& forall|i: int| 1 <= i < text.len() ==> CharClass::InNumber.holds(#[trigger] text[i])
}

/// Whether `token` can be written down and read back: it is no white
/// space and no end of input, and its text, if it has one, is well formed.
pub open spec fn spellable(token: TokenModel) -> bool {
    match token {
        TokenModel::StringLiteral(text) => is_string_text(text),
        TokenModel::NumberLiteral(text) => is_number_text(text),
        TokenModel::Whitespace => false,
        TokenModel::EndOfInput => false,
        _ => true,
    }
}

/// Whether `tokens` can be written down and read back: each of them can,
/// and no number literal follows another directly.
pub open spec fn lexable(tokens: Seq<TokenModel>) -> bool {
    &&& forall|i: int| 0 <= i < tokens.len() ==> spellable(#[trigger] tokens[i])
    &&& forall|i: int|
        0 <= i < tokens.len() - 1 && #[trigger] tokens[i] is NumberLiteral ==> !(tokens[i
            + 1] is NumberLiteral)
}

/// Whether `gap` is made of white space alone.
pub open spec fn is_blank(gap: Seq<char>) -> bool {
    forall|i: int| 0 <= i < gap.len() ==> is_whitespace(#[trigger] gap[i])
}

/// Whether `gaps` can stand around `count` tokens: one before each and one
/// behind the last, all of them blank.
pub open spec fn are_gaps(gaps: Seq<Seq<char>>, count: nat) -> bool {
    &&& gaps.len() == count + 1
    &&& forall|i: int| 0 <= i < gaps.len() ==> is_blank(#[trigger] gaps[i])
}

/// The text that spells the tokens from the one at `from` on, with
/// `gaps[i]` before token `i` and the last gap at the end.
pub open spec fn spelled(tokens: Seq<TokenModel>, gaps: Seq<Seq<char>>, from: int) -> Seq<char>
    decreases tokens.len() - from,
{
    if 0 <= from < tokens.len() {
        gaps[from] + token_chars(tokens[from]) + spelled(tokens, gaps, from + 1)
    } else {
        gaps[tokens.len() as int]
    }
}

/// The spelling of a token that can be read back begins with a character
/// that is no white space; unless the token is a number literal, that
/// character continues no number either.
pub proof fn lemma_token_chars_start(token: TokenModel)
    requires
        spellable(token),
    ensures
        token_chars(token).len() >= 1,
        !is_whitespace(token_chars(token)[0]),
        !(token is NumberLiteral) ==> !CharClass::InNumber.holds(token_chars(token)[0]),
{
}

/// Where a blank gap and the spelling of a token stand at `pos`, one step
/// of the lexer reads that token and stops behind it. A number literal
/// must end there: no digit and no point may follow it.
pub proof fn lemma_lex_step_spelled(input: Seq<char>, pos: int, gap: Seq<char>, token: TokenModel)
    requires
        is_blank(gap),
        spellable(token),
        0 <= pos,
        pos + gap.len() + token_chars(token).len() <= input.len(),
        input.subrange(pos, pos + gap.len() + token_chars(token).len()) == gap + token_chars(
            token,
        ),
        token is NumberLiteral ==> pos + gap.len() + token_chars(token).len() == input.len()
            || !CharClass::InNumber.holds(input[pos + gap.len() + token_chars(token).len()]),
    ensures
        lex_step(input, pos) == (token, pos + gap.len() + token_chars(token).len()),
{
    let word = token_chars(token);
    let whole = gap + word;
    let start = pos + gap.len();
    let end = start + word.len();
    lemma_token_chars_start(token);
    assert forall|i: int| 0 <= i < whole.len() implies input[pos + i] == whole[i] by {
        assert(input.subrange(pos, end)[i] == whole[i]);
    }
    assert forall|i: int| 0 <= i < word.len() implies input[start + i] == word[i] by {
        assert(whole[gap.len() + i] == word[i]);
    }
    assert forall|i: int| pos <= i < start implies CharClass::Blank.holds(
        #[trigger] input[i],
    ) by {
        assert(input[i] == whole[i - pos]);
        assert(whole[i - pos] == gap[i - pos]);
    }
    assert(input[start] == word[0]);
    lemma_run_end_unique(input, pos, CharClass::Blank, start);
    match token {
        TokenModel::StringLiteral(text) => {
            assert forall|i: int| start + 1 <= i < end - 1 implies CharClass::InString.holds(
                #[trigger] input[i],
            ) by {
                assert(input[i] == word[i - start]);
                assert(word[i - start] == text[i - start - 1]);
            }
            assert(input[end - 1] == word[word.len() - 1]);
            lemma_run_end_unique(input, start + 1, CharClass::InString, end - 1);
            assert forall|i: int| 0 <= i < text.len() implies input[start + 1 + i] == text[i] by {
                assert(input[start + (1 + i)] == word[1 + i]);
            }
            assert(input.subrange(start + 1, end - 1) =~= text);
        },
        TokenModel::NumberLiteral(text) => {
            assert forall|i: int| start + 1 <= i < end implies CharClass::InNumber.holds(
                #[trigger] input[i],
            ) by {
                assert(input[i] == text[i - start]);
            }
            lemma_run_end_unique(input, start + 1, CharClass::InNumber, end);
            assert(input.subrange(start, end) =~= text);
        },
        TokenModel::True => {
            assert(input.subrange(start, start + 4) =~= word);
        },
        TokenModel::False => {
            assert(input.subrange(start, start + 5) =~= word);
        },
        TokenModel::Null => {
            assert(input.subrange(start, start + 4) =~= word);
        },
        _ => {},
    }
}

/// Where what is left of the input from `pos` on is `first` and then
/// `second`, each of the two stands in its place.
pub proof fn lemma_rest_split(input: Seq<char>, pos: int, first: Seq<char>, second: Seq<char>)
    requires
        0 <= pos <= input.len(),
        input.subrange(pos, input.len() as int) == first + second,
    ensures
        pos + first.len() + second.len() == input.len(),
        input.subrange(pos, pos + first.len()) == first,
        input.subrange(pos + first.len(), input.len() as int) == second,
{
    let left = input.subrange(pos, input.len() as int);
    assert(left.len() == first.len() + second.len());
    assert forall|i: int| 0 <= i < first.len() implies input.subrange(pos, pos + first.len())[i]
        == first[i] by {
        assert(left[i] == first[i]);
    }
    assert forall|i: int| 0 <= i < second.len() implies input.subrange(
        pos + first.len(),
        input.len() as int,
    )[i] == second[i] by {
        assert(left[first.len() + i] == second[i]);
    }
    assert(input.subrange(pos, pos + first.len()) =~= first);
    assert(input.subrange(pos + first.len(), input.len() as int) =~= second);
}

/// What follows the spelling of a number literal continues no number.
proof fn lemma_number_ends(tokens: Seq<TokenModel>, gaps: Seq<Seq<char>>, from: int)
    requires
        lexable(tokens),
        are_gaps(gaps, tokens.len()),
        0 <= from < tokens.len(),
        tokens[from] is NumberLiteral,
        spelled(tokens, gaps, from + 1).len() > 0,
    ensures
        !CharClass::InNumber.holds(spelled(tokens, gaps, from + 1)[0]),
{
    let rest = spelled(tokens, gaps, from + 1);
    let after = gaps[from + 1];
    if after.len() > 0 {
        assert(is_whitespace(after[0]));
        if from + 1 < tokens.len() {
            assert(rest[0] == after[0]);
        }
    } else {
        let follower = tokens[from + 1];
        assert(!(follower is NumberLiteral));
        assert(spellable(follower));
        lemma_token_chars_start(follower);
        assert(rest[0] == token_chars(follower)[0]);
    }
}

/// Where the spelling of the tokens from `from` on is all that is left of
/// the input, the lexer reads exactly those tokens.
pub proof fn lemma_tokens_from_spelled(
    input: Seq<char>,
    pos: int,
    tokens: Seq<TokenModel>,
    gaps: Seq<Seq<char>>,
    from: int,
)
    requires
        lexable(tokens),
        are_gaps(gaps, tokens.len()),
        0 <= from <= tokens.len(),
        0 <= pos <= input.len(),
        input.subrange(pos, input.len() as int) == spelled(tokens, gaps, from),
    ensures
        tokens_from(input, pos) == tokens.subrange(from, tokens.len() as int),
    decreases tokens.len() - from,
{
    let len = input.len() as int;
    if from == tokens.len() {
        let gap = gaps[from];
        assert(is_blank(gap));
        assert forall|i: int| pos <= i < len implies CharClass::Blank.holds(
            #[trigger] input[i],
        ) by {
            assert(input.subrange(pos, len)[i - pos] == gap[i - pos]);
        }
        lemma_run_end_unique(input, pos, CharClass::Blank, len);
        assert(tokens.subrange(from, tokens.len() as int) =~= Seq::empty());
    } else {
        let gap = gaps[from];
        let token = tokens[from];
        let word = token_chars(token);
        let rest = spelled(tokens, gaps, from + 1);
        let next = pos + gap.len() + word.len();
        assert(is_blank(gap));
        assert(spellable(token));
        lemma_rest_split(input, pos, gap + word, rest);
        if token is NumberLiteral && next < len {
            lemma_number_ends(tokens, gaps, from);
            assert(input.subrange(next, len)[0] == rest[0]);
        }
        lemma_lex_step_spelled(input, pos, gap, token);
        lemma_tokens_from_spelled(input, next, tokens, gaps, from + 1);
        assert(tokens.subrange(from, tokens.len() as int) =~= seq![token] + tokens.subrange(
            from + 1,
            tokens.len() as int,
        ));
    }
}

/// The lexer reads back what was written down: the tokens of a text that
/// spells `tokens`, with any white space around them, are `tokens`.
pub proof fn lemma_lex_spelled(tokens: Seq<TokenModel>, gaps: Seq<Seq<char>>)
    requires
        lexable(tokens),
        are_gaps(gaps, tokens.len()),
    ensures
        lex(spelled(tokens, gaps, 0)) == tokens,
{
    let input = spelled(tokens, gaps, 0);
    assert(input.subrange(0, input.len() as int) =~= input);
    lemma_tokens_from_spelled(input, 0, tokens, gaps, 0);
    assert(tokens.subrange(0, tokens.len() as int) =~= tokens);
}

} // verus!
