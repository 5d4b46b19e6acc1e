//! The grammar, written down as the tokens of each value, and the proof
//! that the parser reads exactly that grammar.

use vstd::prelude::*;
use crate::error::ParseError;
use crate::parser::{lemma_parse_value_bounds, parse_elements, parse_members, parse_value};
use crate::token::TokenModel;
use crate::value::ValueModel;

verus! {

/// The tokens that spell `value`.
pub open spec fn value_tokens(value: ValueModel) -> Seq<TokenModel>
    decreases value, 0int,
{
    match value {
        ValueModel::Object(members) => seq![TokenModel::LeftBrace] + member_tokens(members, 0)
            + seq![TokenModel::RightBrace],
        ValueModel::Array(elements) => seq![TokenModel::LeftBracket] + element_tokens(elements, 0)
            + seq![TokenModel::RightBracket],
        ValueModel::StringValue(text) => seq![TokenModel::StringLiteral(text)],
        ValueModel::NumberValue(text) => seq![TokenModel::NumberLiteral(text)],
        ValueModel::BoolValue(b) => if b {
            seq![TokenModel::True]
        } else {
            seq![TokenModel::False]
        },
        ValueModel::NullValue => seq![TokenModel::Null],
    }
}

/// The tokens that spell the members of an object from the one at `from`
/// on: key, colon and value of each, with a comma between two members.
pub open spec fn member_tokens(members: Seq<(Seq<char>, ValueModel)>, from: int) -> Seq<TokenModel>
    decreases members, members.len() - from,
{
    if 0 <= from < members.len() {
        let member = seq![TokenModel::StringLiteral(members[from].0), TokenModel::Colon]
            + value_tokens(members[from].1);
        if from + 1 < members.len() {
            member + seq![TokenModel::Comma] + member_tokens(members, from + 1)
        } else {
            member
        }
    } else {
        Seq::empty()
    }
}

/// The tokens that spell the elements of an array from the one at `from`
/// on, with a comma between two elements.
pub open spec fn element_tokens(elements: Seq<ValueModel>, from: int) -> Seq<TokenModel>
    decreases elements, elements.len() - from,
{
    if 0 <= from < elements.len() {
        if from + 1 < elements.len() {
            value_tokens(elements[from]) + seq![TokenModel::Comma] + element_tokens(
                elements,
                from + 1,
            )
        } else {
            value_tokens(elements[from])
        }
    } else {
        Seq::empty()
    }
}

/// Whether `part` stands in `tokens` at `pos`.
pub open spec fn stands_at(tokens: Seq<TokenModel>, pos: int, part: Seq<TokenModel>) -> bool {
    &&& 0 <= pos
    &&& pos + part.len() <= tokens.len()
    &&& tokens.subrange(pos, pos + part.len()) == part
}

/// Where a sequence stands, each of its two halves stands.
pub proof fn lemma_stands_split(
    tokens: Seq<TokenModel>,
    pos: int,
    left: Seq<TokenModel>,
    right: Seq<TokenModel>,
)
    requires
        stands_at(tokens, pos, left + right),
    ensures
        stands_at(tokens, pos, left),
        stands_at(tokens, pos + left.len(), right),
{
    let whole = left + right;
    let found = tokens.subrange(pos, pos + whole.len());
    assert forall|i: int| 0 <= i < whole.len() implies tokens[pos + i] == whole[i] by {
        assert(found[i] == whole[i]);
    }
    assert forall|i: int| 0 <= i < left.len() implies tokens[pos + i] == left[i] by {
        assert(whole[i] == left[i]);
    }
    assert forall|i: int| 0 <= i < right.len() implies tokens[pos + left.len() + i] == right[i] by {
        assert(whole[left.len() + i] == right[i]);
    }
    assert(tokens.subrange(pos, pos + left.len()) =~= left);
    assert(tokens.subrange(pos + left.len(), pos + left.len() + right.len()) =~= right);
}

/// Where the tokens of a value stand, the parser reads that value and
/// stops behind them.
pub proof fn lemma_parse_value_reads(tokens: Seq<TokenModel>, pos: int, value: ValueModel)
    requires
        stands_at(tokens, pos, value_tokens(value)),
    ensures
        parse_value(tokens, pos) == Ok::<(ValueModel, int), ParseError>(
            (value, pos + value_tokens(value).len()),
        ),
    decreases value, 0int,
{
    let part = value_tokens(value);
    assert(part.len() >= 1);
    assert(tokens[pos] == part[0]) by {
        assert(tokens.subrange(pos, pos + part.len())[0] == part[0]);
    }
    match value {
        ValueModel::Object(members) => {
            let inner = member_tokens(members, 0);
            let close = seq![TokenModel::RightBrace];
            assert(part =~= seq![TokenModel::LeftBrace] + (inner + close));
            lemma_stands_split(tokens, pos, seq![TokenModel::LeftBrace], inner + close);
            if members.len() == 0 {
                assert(members =~= Seq::empty());
                assert(tokens[pos + 1] == close[0]) by {
                    assert(tokens.subrange(pos + 1, pos + 2)[0] == (inner + close)[0]);
                }
            } else {
                assert(tokens[pos + 1] == inner[0]) by {
                    assert(tokens.subrange(pos + 1, pos + 1 + (inner + close).len())[0] == (inner
                        + close)[0]);
                }
                assert(members.take(0) =~= Seq::empty());
                lemma_parse_members_reads(tokens, pos + 1, members, 0);
            }
        },
        ValueModel::Array(elements) => {
            let inner = element_tokens(elements, 0);
            let close = seq![TokenModel::RightBracket];
            assert(part =~= seq![TokenModel::LeftBracket] + (inner + close));
            lemma_stands_split(tokens, pos, seq![TokenModel::LeftBracket], inner + close);
            if elements.len() == 0 {
                assert(elements =~= Seq::empty());
                assert(tokens[pos + 1] == close[0]) by {
                    assert(tokens.subrange(pos + 1, pos + 2)[0] == (inner + close)[0]);
                }
            } else {
                lemma_value_tokens_start(elements[0]);
                assert(tokens[pos + 1] == inner[0]) by {
                    assert(tokens.subrange(pos + 1, pos + 1 + (inner + close).len())[0] == (inner
                        + close)[0]);
                }
                assert(elements.take(0) =~= Seq::empty());
                lemma_parse_elements_reads(tokens, pos + 1, elements, 0);
            }
        },
        _ => {},
    }
}

/// The tokens of a value begin with a token that begins a value.
pub proof fn lemma_value_tokens_start(value: ValueModel)
    ensures
        value_tokens(value).len() >= 1,
        value_tokens(value)[0] != TokenModel::RightBracket,
        value_tokens(value)[0] != TokenModel::RightBrace,
{
}

/// Where the tokens of the members from `from` on stand before a closing
/// brace, the parser, having read the members before them, reads the
/// whole object.
pub proof fn lemma_parse_members_reads(
    tokens: Seq<TokenModel>,
    pos: int,
    members: Seq<(Seq<char>, ValueModel)>,
    from: int,
)
    requires
        0 <= from < members.len(),
        stands_at(tokens, pos, member_tokens(members, from) + seq![TokenModel::RightBrace]),
    ensures
        parse_members(tokens, pos, members.take(from)) == Ok::<(ValueModel, int), ParseError>(
            (ValueModel::Object(members), pos + member_tokens(members, from).len() + 1),
        ),
    decreases members, members.len() - from,
{
    let close = seq![TokenModel::RightBrace];
    let key = members[from].0;
    let value = members[from].1;
    let head = seq![TokenModel::StringLiteral(key), TokenModel::Colon];
    let body = value_tokens(value);
    let next = pos + 2 + body.len();
    let rest = if from + 1 < members.len() {
        seq![TokenModel::Comma] + member_tokens(members, from + 1) + close
    } else {
        close
    };
    assert(member_tokens(members, from) + close =~= head + (body + rest));
    lemma_stands_split(tokens, pos, head, body + rest);
    lemma_stands_split(tokens, pos + 2, body, rest);
    assert(tokens[pos] == head[0] && tokens[pos + 1] == head[1]) by {
        assert(tokens.subrange(pos, pos + 2)[0] == head[0]);
        assert(tokens.subrange(pos, pos + 2)[1] == head[1]);
    }
    lemma_parse_value_reads(tokens, pos + 2, value);
    assert(tokens[next] == rest[0]) by {
        assert(tokens.subrange(next, next + rest.len())[0] == rest[0]);
    }
    assert(members.take(from).push((key, value)) =~= members.take(from + 1));
    if from + 1 < members.len() {
        let tail = member_tokens(members, from + 1) + close;
        assert(rest =~= seq![TokenModel::Comma] + tail);
        lemma_stands_split(tokens, next, seq![TokenModel::Comma], tail);
        lemma_parse_members_reads(tokens, next + 1, members, from + 1);
    } else {
        assert(members.take(from + 1) =~= members);
    }
}

/// Where the tokens of the elements from `from` on stand before a closing
/// bracket, the parser, having read the elements before them, reads the
/// whole array.
pub proof fn lemma_parse_elements_reads(
    tokens: Seq<TokenModel>,
    pos: int,
    elements: Seq<ValueModel>,
    from: int,
)
    requires
        0 <= from < elements.len(),
        stands_at(tokens, pos, element_tokens(elements, from) + seq![TokenModel::RightBracket]),
    ensures
        parse_elements(tokens, pos, elements.take(from)) == Ok::<(ValueModel, int), ParseError>(
            (ValueModel::Array(elements), pos + element_tokens(elements, from).len() + 1),
        ),
    decreases elements, elements.len() - from,
{
    let close = seq![TokenModel::RightBracket];
    let value = elements[from];
    let body = value_tokens(value);
    let next = pos + body.len();
    let rest = if from + 1 < elements.len() {
        seq![TokenModel::Comma] + element_tokens(elements, from + 1) + close
    } else {
        close
    };
    assert(element_tokens(elements, from) + close =~= body + rest);
    lemma_stands_split(tokens, pos, body, rest);
    lemma_parse_value_reads(tokens, pos, value);
    assert(tokens[next] == rest[0]) by {
        assert(tokens.subrange(next, next + rest.len())[0] == rest[0]);
    }
    assert(elements.take(from).push(value) =~= elements.take(from + 1));
    if from + 1 < elements.len() {
        let tail = element_tokens(elements, from + 1) + close;
        assert(rest =~= seq![TokenModel::Comma] + tail);
        lemma_stands_split(tokens, next, seq![TokenModel::Comma], tail);
        lemma_parse_elements_reads(tokens, next + 1, elements, from + 1);
    } else {
        assert(elements.take(from + 1) =~= elements);
    }
}

/// Where two sequences stand one behind the other, the two together stand.
pub proof fn lemma_stands_join(
    tokens: Seq<TokenModel>,
    pos: int,
    left: Seq<TokenModel>,
    right: Seq<TokenModel>,
)
    requires
        stands_at(tokens, pos, left),
        stands_at(tokens, pos + left.len(), right),
    ensures
        stands_at(tokens, pos, left + right),
{
    let whole = left + right;
    assert forall|i: int| 0 <= i < whole.len() implies tokens[pos + i] == whole[i] by {
        if i < left.len() {
            assert(tokens.subrange(pos, pos + left.len())[i] == left[i]);
        } else {
            let j = i - left.len();
            assert(tokens.subrange(pos + left.len(), pos + left.len() + right.len())[j]
                == right[j]);
        }
    }
    assert(tokens.subrange(pos, pos + whole.len()) =~= whole);
}

/// The tokens that stand between two positions are the sequence that
/// stands at the first.
pub proof fn lemma_stands_range(tokens: Seq<TokenModel>, pos: int, end: int)
    requires
        0 <= pos <= end <= tokens.len(),
    ensures
        stands_at(tokens, pos, tokens.subrange(pos, end)),
{
}

/// What the parser reads as a value is spelled by the tokens it consumed.
pub proof fn lemma_parse_value_spelled(tokens: Seq<TokenModel>, pos: int)
    requires
        parse_value(tokens, pos) is Ok,
    ensures
        stands_at(tokens, pos, value_tokens(parse_value(tokens, pos)->Ok_0.0)),
        parse_value(tokens, pos)->Ok_0.1 == pos + value_tokens(
            parse_value(tokens, pos)->Ok_0.0,
        ).len(),
    decreases tokens.len() - pos, 1int,
{
    let value = parse_value(tokens, pos)->Ok_0.0;
    let one = tokens.subrange(pos, pos + 1);
    let two = tokens.subrange(pos, pos + 2);
    match tokens[pos] {
        TokenModel::LeftBrace => {
            if pos + 1 < tokens.len() && tokens[pos + 1] == TokenModel::RightBrace {
                assert(member_tokens(Seq::empty(), 0) =~= Seq::empty());
                assert(value_tokens(value) =~= two);
            } else {
                lemma_parse_members_spelled(tokens, pos + 1, Seq::empty());
                let members = value->Object_0;
                lemma_stands_range(tokens, pos, pos + 1);
                lemma_stands_join(
                    tokens,
                    pos,
                    one,
                    member_tokens(members, 0) + seq![TokenModel::RightBrace],
                );
                assert(one + (member_tokens(members, 0) + seq![TokenModel::RightBrace])
                    =~= value_tokens(value));
            }
        },
        TokenModel::LeftBracket => {
            if pos + 1 < tokens.len() && tokens[pos + 1] == TokenModel::RightBracket {
                assert(element_tokens(Seq::empty(), 0) =~= Seq::empty());
                assert(value_tokens(value) =~= two);
            } else {
                lemma_parse_elements_spelled(tokens, pos + 1, Seq::empty());
                let elements = value->Array_0;
                lemma_stands_range(tokens, pos, pos + 1);
                lemma_stands_join(
                    tokens,
                    pos,
                    one,
                    element_tokens(elements, 0) + seq![TokenModel::RightBracket],
                );
                assert(one + (element_tokens(elements, 0) + seq![TokenModel::RightBracket])
                    =~= value_tokens(value));
            }
        },
        _ => {
            assert(value_tokens(value) =~= one);
        },
    }
}

/// What the parser reads as the rest of an object is an object that
/// begins with the members read before, and the tokens consumed spell
/// its other members and the closing brace.
pub proof fn lemma_parse_members_spelled(
    tokens: Seq<TokenModel>,
    pos: int,
    read: Seq<(Seq<char>, ValueModel)>,
)
    requires
        parse_members(tokens, pos, read) is Ok,
    ensures
        ({
            let parsed = parse_members(tokens, pos, read)->Ok_0;
            &&& parsed.0 is Object
            &&& read.len() < parsed.0->Object_0.len()
            &&& parsed.0->Object_0.take(read.len() as int) == read
            &&& stands_at(
                tokens,
                pos,
                member_tokens(parsed.0->Object_0, read.len() as int) + seq![TokenModel::RightBrace],
            )
            &&& parsed.1 == pos + member_tokens(parsed.0->Object_0, read.len() as int).len() + 1
        }),
    decreases tokens.len() - pos, 0int,
{
    let parsed = parse_members(tokens, pos, read)->Ok_0;
    let members = parsed.0->Object_0;
    let from = read.len() as int;
    let key = tokens[pos]->StringLiteral_0;
    let value = parse_value(tokens, pos + 2)->Ok_0.0;
    let next = parse_value(tokens, pos + 2)->Ok_0.1;
    let close = seq![TokenModel::RightBrace];
    let head = tokens.subrange(pos, pos + 2);
    let body = value_tokens(value);
    lemma_parse_value_spelled(tokens, pos + 2);
    lemma_parse_value_bounds(tokens, pos + 2);
    lemma_stands_range(tokens, pos, pos + 2);
    lemma_stands_range(tokens, next, next + 1);
    assert(head =~= seq![TokenModel::StringLiteral(key), TokenModel::Colon]);
    lemma_stands_join(tokens, pos, head, body);
    if tokens[next] == TokenModel::RightBrace {
        assert(members.take(from) =~= read);
        assert(tokens.subrange(next, next + 1) =~= close);
        lemma_stands_join(tokens, pos, head + body, close);
    } else {
        lemma_parse_members_spelled(tokens, next + 1, read.push((key, value)));
        assert(members.take(from) =~= members.take(from + 1).take(from));
        assert(members[from] == members.take(from + 1)[from]);
        let tail = member_tokens(members, from + 1) + close;
        assert(tokens.subrange(next, next + 1) =~= seq![TokenModel::Comma]);
        lemma_stands_join(tokens, next, seq![TokenModel::Comma], tail);
        lemma_stands_join(tokens, pos, head + body, seq![TokenModel::Comma] + tail);
        assert((head + body) + (seq![TokenModel::Comma] + tail) =~= member_tokens(members, from)
            + close);
    }
}

/// What the parser reads as the rest of an array is an array that begins
/// with the elements read before, and the tokens consumed spell its
/// other elements and the closing bracket.
pub proof fn lemma_parse_elements_spelled(
    tokens: Seq<TokenModel>,
    pos: int,
    read: Seq<ValueModel>,
)
    requires
        parse_elements(tokens, pos, read) is Ok,
    ensures
        ({
            let parsed = parse_elements(tokens, pos, read)->Ok_0;
            &&& parsed.0 is Array
            &&& read.len() < parsed.0->Array_0.len()
            &&& parsed.0->Array_0.take(read.len() as int) == read
            &&& stands_at(
                tokens,
                pos,
                element_tokens(parsed.0->Array_0, read.len() as int) + seq![
                    TokenModel::RightBracket,
                ],
            )
            &&& parsed.1 == pos + element_tokens(parsed.0->Array_0, read.len() as int).len() + 1
        }),
    decreases tokens.len() - pos, 2int,
{
    let parsed = parse_elements(tokens, pos, read)->Ok_0;
    let elements = parsed.0->Array_0;
    let from = read.len() as int;
    let value = parse_value(tokens, pos)->Ok_0.0;
    let next = parse_value(tokens, pos)->Ok_0.1;
    let close = seq![TokenModel::RightBracket];
    let body = value_tokens(value);
    lemma_parse_value_spelled(tokens, pos);
    lemma_parse_value_bounds(tokens, pos);
    lemma_stands_range(tokens, next, next + 1);
    if tokens[next] == TokenModel::RightBracket {
        assert(elements.take(from) =~= read);
        assert(tokens.subrange(next, next + 1) =~= close);
        lemma_stands_join(tokens, pos, body, close);
    } else {
        lemma_parse_elements_spelled(tokens, next + 1, read.push(value));
        assert(elements.take(from) =~= elements.take(from + 1).take(from));
        assert(elements[from] == elements.take(from + 1)[from]);
        let tail = element_tokens(elements, from + 1) + close;
        assert(tokens.subrange(next, next + 1) =~= seq![TokenModel::Comma]);
        lemma_stands_join(tokens, next, seq![TokenModel::Comma], tail);
        lemma_stands_join(tokens, pos, body, seq![TokenModel::Comma] + tail);
        assert(body + (seq![TokenModel::Comma] + tail) =~= element_tokens(elements, from)
            + close);
    }
}

/// The parser reads a value at `pos` exactly where the tokens of that
/// value stand at `pos`, and it stops right behind them.
pub proof fn lemma_parse_value_iff(tokens: Seq<TokenModel>, pos: int, value: ValueModel, next: int)
    ensures
        parse_value(tokens, pos) == Ok::<(ValueModel, int), ParseError>((value, next)) <==> {
            &&& stands_at(tokens, pos, value_tokens(value))
            &&& next == pos + value_tokens(value).len()
        },
{
    if parse_value(tokens, pos) == Ok::<(ValueModel, int), ParseError>((value, next)) {
        lemma_parse_value_spelled(tokens, pos);
    }
    if stands_at(tokens, pos, value_tokens(value)) {
        lemma_parse_value_reads(tokens, pos, value);
    }
}

} // verus!
