//! Parsed values.

use vstd::prelude::*;

verus! {

/// One parsed entity.
///
/// An object keeps its pairs in the order they were read, and keeps every
/// pair: a key that occurs twice occurs twice here. A number carries the
/// characters it was written with.
#[derive(Debug, PartialEq, Eq)]
pub enum Value {
    Object(Vec<(String, Value)>),
    Array(Vec<Value>),
    StringValue(String),
    NumberValue(String),
    BoolValue(bool),
    NullValue,
}

/// The mathematical value of a [`Value`].
pub enum ValueModel {
    Object(Seq<(Seq<char>, ValueModel)>),
    Array(Seq<ValueModel>),
    StringValue(Seq<char>),
    NumberValue(Seq<char>),
    BoolValue(bool),
    NullValue,
}

impl View for Value {
    type V = ValueModel;

    open spec fn view(&self) -> ValueModel
        decreases self,
    {
        match self {
            Value::Object(pairs) => ValueModel::Object(
                Seq::new(
                    pairs@.len(),
                    |i: int|
                        (
                            pairs@[i].0@,
                            if 0 <= i < pairs@.len() {
                                pairs@[i].1@
                            } else {
                                ValueModel::NullValue
                            },
                        ),
                ),
            ),
            Value::Array(items) => ValueModel::Array(
                Seq::new(
                    items@.len(),
                    |i: int|
                        if 0 <= i < items@.len() {
                            items@[i]@
                        } else {
                            ValueModel::NullValue
                        },
                ),
            ),
            Value::StringValue(s) => ValueModel::StringValue(s@),
            Value::NumberValue(s) => ValueModel::NumberValue(s@),
            Value::BoolValue(b) => ValueModel::BoolValue(*b),
            Value::NullValue => ValueModel::NullValue,
        }
    }
}

/// The views of the members of an object, in order.
pub open spec fn pair_models(pairs: Seq<(String, Value)>) -> Seq<(Seq<char>, ValueModel)> {
    Seq::new(pairs.len(), |i: int| (pairs[i].0@, pairs[i].1@))
}

/// The views of the elements of an array, in order.
pub open spec fn value_models(items: Seq<Value>) -> Seq<ValueModel> {
    Seq::new(items.len(), |i: int| items[i]@)
}

/// The view of an object is made of the views of its members.
pub proof fn lemma_object_view(pairs: Vec<(String, Value)>)
    ensures
        Value::Object(pairs)@ == ValueModel::Object(pair_models(pairs@)),
{
    assert(Value::Object(pairs)@->Object_0 =~= pair_models(pairs@));
}

/// The view of an array is made of the views of its elements.
pub proof fn lemma_array_view(items: Vec<Value>)
    ensures
        Value::Array(items)@ == ValueModel::Array(value_models(items@)),
{
    assert(Value::Array(items)@->Array_0 =~= value_models(items@));
}

} // verus!
