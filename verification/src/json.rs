//! JSON values, and what is read from them.

use crate::text::{char_list, read_whole_number, same_text, whole_number};
use vstd::prelude::*;

verus! {

/// A JSON value. A number is held as its text, an object as its fields in order.
#[derive(Debug)]
pub enum Json {
    Null,
    Bool(bool),
    Number(String),
    Text(String),
    Array(Vec<Json>),
    Object(Vec<(String, Json)>),
}

/// Mathematical view of a [`Json`] value.
pub enum JsonView {
    Null,
    Bool(bool),
    Number(Seq<char>),
    Text(Seq<char>),
    Array(Seq<JsonView>),
    Object(Seq<(Seq<char>, JsonView)>),
}

impl View for Json {
    type V = JsonView;

    open spec fn view(&self) -> JsonView {
        json_view(*self)
    }
}

/// The view of a value.
pub open spec fn json_view(value: Json) -> JsonView
    decreases value,
{
    match value {
        Json::Null => JsonView::Null,
        Json::Bool(flag) => JsonView::Bool(flag),
        Json::Number(text) => JsonView::Number(text@),
        Json::Text(text) => JsonView::Text(text@),
        Json::Array(items) => JsonView::Array(
            Seq::new(
                items@.len(),
                |i: int|
                    if 0 <= i < items@.len() {
                        json_view(items@[i])
                    } else {
                        JsonView::Null
                    },
            ),
        ),
        Json::Object(fields) => JsonView::Object(
            Seq::new(
                fields@.len(),
                |i: int|
                    if 0 <= i < fields@.len() {
                        (fields@[i].0@, json_view(fields@[i].1))
                    } else {
                        (Seq::<char>::empty(), JsonView::Null)
                    },
            ),
        ),
    }
}

/// The first of the fields from position `n` on that has the given name.
pub open spec fn field_from(fields: Seq<(Seq<char>, JsonView)>, name: Seq<char>, n: nat) -> Option<JsonView>
    decreases fields.len() - n,
{
    if n >= fields.len() {
        None
    } else if fields[n as int].0 == name {
        Some(fields[n as int].1)
    } else {
        field_from(fields, name, n + 1)
    }
}

impl JsonView {
    /// A field of an object.
    pub open spec fn field(self, name: Seq<char>) -> Option<JsonView> {
        match self {
            JsonView::Object(fields) => field_from(fields, name, 0),
            _ => None,
        }
    }

    /// A field of a field.
    pub open spec fn inner(self, outer: Seq<char>, name: Seq<char>) -> Option<JsonView> {
        match self.field(outer) {
            Some(value) => value.field(name),
            None => None,
        }
    }

    /// The value as a whole number.
    pub open spec fn whole(self) -> Option<u64> {
        match self {
            JsonView::Number(text) => whole_number(text),
            _ => None,
        }
    }
}

pub proof fn lemma_field_is_smaller(value: JsonView, name: Seq<char>)
    ensures
        value.field(name) matches Some(inner) ==> decreases_to!(value => inner),
{
    match value {
        JsonView::Object(fields) => {
            lemma_field_from_is_smaller(fields, name, 0);
            assert(decreases_to!(value => value->Object_0));
        },
        _ => {},
    }
}

proof fn lemma_field_from_is_smaller(fields: Seq<(Seq<char>, JsonView)>, name: Seq<char>, n: nat)
    ensures
        field_from(fields, name, n) matches Some(inner) ==> decreases_to!(fields => inner),
    decreases fields.len() - n,
{
    if n < fields.len() {
        assert(decreases_to!(fields => fields[n as int]));
        assert(decreases_to!(fields[n as int] => fields[n as int].1));
        lemma_field_from_is_smaller(fields, name, n + 1);
    }
}

impl Json {
    /// A field of an object.
    pub fn get(&self, name: &str) -> (result: Option<&Json>)
        ensures
            match result {
                Some(value) => self@.field(name@) == Some(value@),
                None => self@.field(name@) is None,
            },
            result is Some ==> decreases_to!(*self => *result->0),
    {
        match self {
            Json::Object(fields) => {
                let mut i: usize = 0;
                let ghost views = self@->Object_0;
                while i < fields.len()
                    invariant
                        i <= fields@.len(),
                        *self == Json::Object(*fields),
                        self@ == JsonView::Object(views),
                        views.len() == fields@.len(),
                        self@.field(name@) == field_from(views, name@, i as nat),
                    decreases fields@.len() - i,
                {
                    assert(views[i as int] == (fields@[i as int].0@, fields@[i as int].1@));
                    if same_text(fields[i].0.as_str(), name) {
                        assert(decreases_to!(*self => fields@[i as int].1));
                        return Some(&fields[i].1);
                    }
                    i += 1;
                }
                None
            },
            _ => None,
        }
    }

    /// The value as a whole number.
    pub fn as_u64(&self) -> (result: Option<u64>)
        ensures
            result == self@.whole(),
    {
        match self {
            Json::Number(text) => read_whole_number(&char_list(text.as_str())),
            _ => None,
        }
    }

    /// The text of a string.
    pub fn as_str(&self) -> (result: Option<&str>)
        ensures
            match result {
                Some(text) => self@ == JsonView::Text(text@),
                None => !(self@ is Text),
            },
    {
        match self {
            Json::Text(text) => Some(text.as_str()),
            _ => None,
        }
    }

    /// The items of an array.
    pub fn as_array(&self) -> (result: Option<&Vec<Json>>)
        ensures
            match result {
                Some(items) => *self == Json::Array(*items) && self@ == JsonView::Array(json_views(items@)),
                None => !(self@ is Array),
            },
    {
        match self {
            Json::Array(items) => {
                assert(self@->Array_0 =~= json_views(items@));
                Some(items)
            },
            _ => None,
        }
    }
}

// ---------------------------------------------------------------------------------------------
// Reading
// ---------------------------------------------------------------------------------------------

/// `serde_json::Value`.
#[verifier::external_type_specification]
#[verifier::external_body]
pub struct ExValue(serde_json::Value);

/// What a value of `serde_json` holds: its fields in their order, its numbers as `serde_json`
/// prints them.
pub uninterp spec fn value_view(value: serde_json::Value) -> JsonView;

/// The value that JSON bytes stand for, or nothing where they are not JSON.
pub uninterp spec fn json_value(bytes: Seq<u8>) -> Option<JsonView>;

/// The value that JSON5 text stands for, or nothing where it is not JSON5.
pub uninterp spec fn json5_value(text: Seq<char>) -> Option<JsonView>;

/// Takes a `serde_json::Value` over, part by part; a number by `serde_json::Number::to_string`.
#[verifier::external_body]
pub(crate) fn json_of(value: serde_json::Value) -> (json: Json)
    ensures
        json@ == value_view(value),
{
    match value {
        serde_json::Value::Null => Json::Null,
        serde_json::Value::Bool(flag) => Json::Bool(flag),
        serde_json::Value::Number(number) => Json::Number(number.to_string()),
        serde_json::Value::String(text) => Json::Text(text),
        serde_json::Value::Array(items) => Json::Array(items.into_iter().map(json_of).collect()),
        serde_json::Value::Object(fields) => Json::Object(
            fields.into_iter().map(|(name, value)| (name, json_of(value))).collect(),
        ),
    }
}

/// `serde_json::from_slice` into a `serde_json::Value`: what comes back depends on the bytes alone.
/// Nothing is said of the words of an error.
#[verifier::external_body]
pub(crate) fn read_json(bytes: &[u8]) -> (result: Result<serde_json::Value, String>)
    ensures
        match result {
            Ok(value) => json_value(bytes@) == Some(value_view(value)),
            Err(_) => json_value(bytes@) is None,
        },
{
    serde_json::from_slice(bytes).map_err(|error| error.to_string())
}

/// `json_five::from_str` into a `serde_json::Value`: what comes back depends on the text alone.
/// Nothing is said of the words of an error. The reader descends into nested values, signs and
/// comments on the stack of the calling thread.
#[verifier::external_body]
fn read_json5(text: &str) -> (result: Result<serde_json::Value, String>)
    ensures
        match result {
            Ok(value) => json5_value(text@) == Some(value_view(value)),
            Err(_) => json5_value(text@) is None,
        },
{
    json_five::from_str(text).map_err(|error| error.to_string())
}

/// Reads a JSON value.
pub fn parse_json(bytes: &[u8]) -> (result: Result<Json, String>)
    ensures
        match result {
            Ok(value) => json_value(bytes@) == Some(value@),
            Err(_) => json_value(bytes@) is None,
        },
{
    match read_json(bytes) {
        Ok(value) => Ok(json_of(value)),
        Err(error) => Err(error),
    }
}

/// Reads a JSON5 value.
pub fn parse_json5(text: &str) -> (result: Result<Json, String>)
    ensures
        match result {
            Ok(value) => json5_value(text@) == Some(value@),
            Err(_) => json5_value(text@) is None,
        },
{
    match read_json5(text) {
        Ok(value) => Ok(json_of(value)),
        Err(error) => Err(error),
    }
}

/// The views of values.
pub open spec fn json_views(values: Seq<Json>) -> Seq<JsonView> {
    Seq::new(values.len(), |i: int| values[i]@)
}

// ---------------------------------------------------------------------------------------------
// Values as they were read
// ---------------------------------------------------------------------------------------------

/// The compact text of a value.
pub uninterp spec fn printed(value: JsonView) -> Seq<char>;

/// A value as reports show it.
pub uninterp spec fn debugged(value: JsonView) -> Seq<char>;

/// The text of a number that is zero, as a fraction.
pub open spec fn is_zero_fraction(text: Seq<char>) -> bool {
    text == "0.0"@ || text == "-0.0"@
}

/// Two values are the same: their parts are, and a zero is the same with either sign.
pub open spec fn same_json(a: JsonView, b: JsonView) -> bool
    decreases a,
{
    match (a, b) {
        (JsonView::Number(x), JsonView::Number(y)) => x == y || is_zero_fraction(x) && is_zero_fraction(y),
        (JsonView::Array(x), JsonView::Array(y)) => x.len() == y.len() && forall|i: int|
            0 <= i < x.len() ==> same_json(#[trigger] x[i], y[i]),
        (JsonView::Object(x), JsonView::Object(y)) => x.len() == y.len() && forall|i: int|
            0 <= i < x.len() ==> (#[trigger] x[i]).0 == y[i].0 && same_json(x[i].1, y[i].1),
        _ => a == b,
    }
}

/// `serde_json::Value::get` with a text: the field of that name, where the value is an object and
/// has one.
#[verifier::external_body]
pub(crate) fn field_of<'a>(value: &'a serde_json::Value, name: &str) -> (result: Option<&'a serde_json::Value>)
    ensures
        match result {
            Some(inner) => value_view(*value).field(name@) == Some(value_view(*inner)),
            None => value_view(*value).field(name@) is None,
        },
{
    value.get(name)
}

/// `serde_json::Value::to_string`: the text depends on what the value holds alone.
#[verifier::external_body]
pub(crate) fn print_value(value: &serde_json::Value) -> (text: String)
    ensures
        text@ == printed(value_view(*value)),
{
    value.to_string()
}

/// The `Debug` form of a `serde_json::Value`: the text depends on what the value holds alone.
#[verifier::external_body]
pub(crate) fn debug_value(value: &serde_json::Value) -> (text: String)
    ensures
        text@ == debugged(value_view(*value)),
{
    format!("{value:?}")
}

/// `==` of two `serde_json::Value`s: it compares them part by part. Numbers are printed differently
/// where they are different, but for zeroes of different sign.
#[verifier::external_body]
pub(crate) fn same_values(a: &serde_json::Value, b: &serde_json::Value) -> (same: bool)
    ensures
        same == same_json(value_view(*a), value_view(*b)),
{
    a == b
}

/// `serde_json::Value::String` of a text.
#[verifier::external_body]
pub(crate) fn string_value(text: &str) -> (value: serde_json::Value)
    ensures
        value_view(value) == JsonView::Text(text@),
{
    serde_json::Value::String(text.to_string())
}

} // verus!
