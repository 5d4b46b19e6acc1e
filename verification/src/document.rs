//! Whole documents: from text to a value tree.

use vstd::prelude::*;
use crate::error::ParseError;
use crate::grammar::{
    element_tokens,
    lemma_parse_value_reads,
    member_tokens,
    stands_at,
    value_tokens,
};
use crate::lexer::{lex, tokenize};
use crate::parser::{Parser, parse_value};
use crate::spelling::{
    are_gaps,
    is_number_text,
    is_string_text,
    lemma_lex_spelled,
    lexable,
    spellable,
    spelled,
};
use crate::token::TokenModel;
use crate::value::{Value, ValueModel};

verus! {

/// What a parser hands back, by its view.
pub open spec fn outcome(result: Result<Value, ParseError>) -> Result<ValueModel, ParseError> {
    match result {
        Ok(value) => Ok(value@),
        Err(e) => Err(e),
    }
}

/// The value that a document holds: the first value among its tokens.
pub open spec fn document(input: Seq<char>) -> Result<ValueModel, ParseError> {
    match parse_value(lex(input), 0) {
        Ok((value, next)) => Ok(value),
        Err(e) => Err(e),
    }
}

/// Reads the value that `input` holds: its characters are turned into
/// tokens, and the first value among them is parsed. What follows that
/// value is not looked at.
pub fn parse_document(input: String) -> (result: Result<Value, ParseError>)
    ensures
        outcome(result) == document(input@),
{
    let tokens = tokenize(input);
    let mut parser = Parser::new(tokens);
    parser.parse()
}

/// Two readings of one text agree: both give the same tree, or both
/// fail with the same error.
pub proof fn lemma_reading_is_repeatable(
    input: Seq<char>,
    first: Result<Value, ParseError>,
    second: Result<Value, ParseError>,
)
    requires
        outcome(first) == document(input),
        outcome(second) == document(input),
    ensures
        outcome(first) == outcome(second),
        first is Ok ==> second is Ok && first->Ok_0@ == second->Ok_0@,
        first is Err ==> second == first,
{
}

/// Whether `value` can be written down and read back: no string in it,
/// key or value, holds a quote, and each of its numbers is a digit or a
/// minus sign followed by digits and points.
pub open spec fn well_formed(value: ValueModel) -> bool
    decreases value,
{
    match value {
        ValueModel::Object(members) => forall|i: int|
            0 <= i < members.len() ==> is_string_text((#[trigger] members[i]).0) && well_formed(
                members[i].1,
            ),
        ValueModel::Array(elements) => forall|i: int|
            0 <= i < elements.len() ==> well_formed(#[trigger] elements[i]),
        ValueModel::StringValue(text) => is_string_text(text),
        ValueModel::NumberValue(text) => is_number_text(text),
        ValueModel::BoolValue(b) => true,
        ValueModel::NullValue => true,
    }
}

/// Two sequences that can be read back can be read back when joined,
/// unless a number literal meets a number literal at the seam.
pub proof fn lemma_lexable_join(left: Seq<TokenModel>, right: Seq<TokenModel>)
    requires
        lexable(left),
        lexable(right),
        left.len() == 0 || right.len() == 0 || !(left.last() is NumberLiteral) || !(
        right[0] is NumberLiteral),
    ensures
        lexable(left + right),
{
    let whole = left + right;
    assert forall|i: int| 0 <= i < whole.len() implies spellable(#[trigger] whole[i]) by {
        if i < left.len() {
            assert(whole[i] == left[i]);
        } else {
            assert(whole[i] == right[i - left.len()]);
        }
    }
    assert forall|i: int|
        0 <= i < whole.len() - 1 && #[trigger] whole[i] is NumberLiteral implies !(whole[i
            + 1] is NumberLiteral) by {
        if i + 1 < left.len() {
            assert(whole[i] == left[i]);
            assert(whole[i + 1] == left[i + 1]);
        } else if i < left.len() {
            assert(whole[i] == left.last());
            assert(whole[i + 1] == right[0]);
        } else {
            assert(whole[i] == right[i - left.len()]);
            assert(whole[i + 1] == right[i - left.len() + 1]);
        }
    }
}

/// The tokens of a well-formed value can be read back.
pub proof fn lemma_value_tokens_lexable(value: ValueModel)
    requires
        well_formed(value),
    ensures
        lexable(value_tokens(value)),
        value_tokens(value).len() >= 1,
    decreases value, 0int,
{
    match value {
        ValueModel::Object(members) => {
            let open = seq![TokenModel::LeftBrace];
            let close = seq![TokenModel::RightBrace];
            lemma_member_tokens_lexable(members, 0);
            lemma_lexable_join(open, member_tokens(members, 0));
            lemma_lexable_join(open + member_tokens(members, 0), close);
        },
        ValueModel::Array(elements) => {
            let open = seq![TokenModel::LeftBracket];
            let close = seq![TokenModel::RightBracket];
            lemma_element_tokens_lexable(elements, 0);
            lemma_lexable_join(open, element_tokens(elements, 0));
            lemma_lexable_join(open + element_tokens(elements, 0), close);
        },
        _ => {},
    }
}

/// The tokens of the members of a well-formed object can be read back.
pub proof fn lemma_member_tokens_lexable(members: Seq<(Seq<char>, ValueModel)>, from: int)
    requires
        well_formed(ValueModel::Object(members)),
    ensures
        lexable(member_tokens(members, from)),
    decreases members, members.len() - from,
{
    if 0 <= from < members.len() {
        let head = seq![TokenModel::StringLiteral(members[from].0), TokenModel::Colon];
        let body = value_tokens(members[from].1);
        let comma = seq![TokenModel::Comma];
        assert(ValueModel::Object(members)->Object_0 == members);
        assert(is_string_text(members[from].0) && well_formed(members[from].1));
        lemma_value_tokens_lexable(members[from].1);
        lemma_lexable_join(head, body);
        if from + 1 < members.len() {
            lemma_member_tokens_lexable(members, from + 1);
            lemma_lexable_join(head + body, comma);
            lemma_lexable_join(head + body + comma, member_tokens(members, from + 1));
        }
    }
}

/// The tokens of the elements of a well-formed array can be read back.
pub proof fn lemma_element_tokens_lexable(elements: Seq<ValueModel>, from: int)
    requires
        well_formed(ValueModel::Array(elements)),
    ensures
        lexable(element_tokens(elements, from)),
    decreases elements, elements.len() - from,
{
    if 0 <= from < elements.len() {
        let body = value_tokens(elements[from]);
        let comma = seq![TokenModel::Comma];
        assert(ValueModel::Array(elements)->Array_0 == elements);
        assert(well_formed(elements[from]));
        lemma_value_tokens_lexable(elements[from]);
        if from + 1 < elements.len() {
            lemma_element_tokens_lexable(elements, from + 1);
            lemma_lexable_join(body, comma);
            lemma_lexable_join(body + comma, element_tokens(elements, from + 1));
        }
    }
}

/// A text that spells tokens that begin with the tokens of a value, with
/// any white space around the tokens, is read as that value. What
/// follows the value is not looked at.
pub proof fn lemma_document_starts_with_value(
    value: ValueModel,
    tokens: Seq<TokenModel>,
    gaps: Seq<Seq<char>>,
)
    requires
        lexable(tokens),
        are_gaps(gaps, tokens.len()),
        stands_at(tokens, 0, value_tokens(value)),
    ensures
        document(spelled(tokens, gaps, 0)) == Ok::<ValueModel, ParseError>(value),
{
    lemma_lex_spelled(tokens, gaps);
    lemma_parse_value_reads(tokens, 0, value);
}

/// Every well-formed document is read as the value it spells: a text
/// made of the tokens of a well-formed value, with any white space
/// around them, parses, and gives that value.
pub proof fn lemma_document_spelled(value: ValueModel, gaps: Seq<Seq<char>>)
    requires
        well_formed(value),
        are_gaps(gaps, value_tokens(value).len()),
    ensures
        document(spelled(value_tokens(value), gaps, 0)) == Ok::<ValueModel, ParseError>(value),
{
    let tokens = value_tokens(value);
    lemma_value_tokens_lexable(value);
    assert(tokens.subrange(0, tokens.len() as int) =~= tokens);
    lemma_document_starts_with_value(value, tokens, gaps);
}

} // verus!
