use vstd::prelude::*;

use crate::chars::chars_of;
use crate::number::{i64_of, parse_i64};

verus! {

/// A JSON value, as the metric and panel readers see a document that `serde_json` parsed
/// (see [`json_document`]). Object entries keep the order in which `serde_json` hands them
/// out (sorted by key).
pub enum JsonValue {
    Null,
    Bool(bool),
    /// A number that `as_i64` gives: an integer within `i64`'s range.
    Int(i64),
    /// Any other number (a fraction, or an integer beyond `i64`): the payload is its `f64`
    /// value converted with `as i64`, which truncates toward zero and saturates.
    Wide(i64),
    Str(String),
    Array(Vec<JsonValue>),
    Object(Vec<(String, JsonValue)>),
}

/// The value stored under `key` in the entries of an object: the first entry with that key.
pub open spec fn lookup(entries: Seq<(String, JsonValue)>, key: Seq<char>) -> Option<JsonValue>
    decreases entries.len(),
{
    if entries.len() == 0 {
        None
    } else if entries[0].0@ == key {
        Some(entries[0].1)
    } else {
        lookup(entries.drop_first(), key)
    }
}

/// `value.get(key)`: the field `key` of an object; `None` for anything else.
pub open spec fn field(v: JsonValue, key: Seq<char>) -> Option<JsonValue> {
    match v {
        JsonValue::Object(entries) => lookup(entries@, key),
        _ => None,
    }
}

/// `value[key]`: the field `key` of an object, `null` where there is none.
pub open spec fn index(v: JsonValue, key: Seq<char>) -> JsonValue {
    match field(v, key) {
        Some(x) => x,
        None => JsonValue::Null,
    }
}

/// `value.as_i64()`.
pub open spec fn as_i64(v: JsonValue) -> Option<i64> {
    match v {
        JsonValue::Int(n) => Some(n),
        _ => None,
    }
}

/// `value.as_bool()`.
pub open spec fn as_bool(v: JsonValue) -> Option<bool> {
    match v {
        JsonValue::Bool(b) => Some(b),
        _ => None,
    }
}

/// `value.as_str()`, by the string's characters.
pub open spec fn as_text(v: JsonValue) -> Option<Seq<char>> {
    match v {
        JsonValue::Str(s) => Some(s@),
        _ => None,
    }
}

/// `value.as_array()`, by the elements.
pub open spec fn as_items(v: JsonValue) -> Option<Seq<JsonValue>> {
    match v {
        JsonValue::Array(items) => Some(items@),
        _ => None,
    }
}

/// The integer a JSON value stands for in a metric: an integer as itself, any other number
/// truncated, a string read as an `i64`; nothing for anything else.
pub open spec fn integer_reading(v: JsonValue) -> Option<i64> {
    match v {
        JsonValue::Int(n) => Some(n),
        JsonValue::Wide(t) => Some(t),
        JsonValue::Str(s) => i64_of(s@),
        _ => None,
    }
}

/// Whether two strings hold the same characters.
pub fn same_text(a: &str, b: &str) -> (res: bool)
    ensures
        res == (a@ == b@),
{
    let x = chars_of(a);
    let y = chars_of(b);
    if x.len() != y.len() {
        return false;
    }
    let mut i: usize = 0;
    while i < x.len()
        invariant
            x.len() == y.len(),
            i <= x.len(),
            x@ == a@,
            y@ == b@,
            forall|k: int| 0 <= k < i ==> x@[k] == y@[k],
        decreases x.len() - i,
    {
        if x[i] != y[i] {
            return false;
        }
        i = i + 1;
    }
    assert(x@ =~= y@);
    true
}

/// The field `key` of `v` (`Value::get`).
pub fn get_field<'a>(v: &'a JsonValue, key: &str) -> (res: Option<&'a JsonValue>)
    ensures
        match res {
            Some(r) => field(*v, key@) == Some(*r),
            None => field(*v, key@) is None,
        },
{
    match v {
        JsonValue::Object(entries) => {
            let mut i: usize = 0;
            assert(entries@.skip(0) =~= entries@);
            while i < entries.len()
                invariant
                    i <= entries.len(),
                    field(*v, key@) == lookup(entries@, key@),
                    lookup(entries@, key@) == lookup(entries@.skip(i as int), key@),
                decreases entries.len() - i,
            {
                let ghost rest = entries@.skip(i as int);
                assert(rest[0] == entries@[i as int]);
                assert(rest.drop_first() =~= entries@.skip(i + 1));
                if same_text(entries[i].0.as_str(), key) {
                    return Some(&entries[i].1);
                }
                i = i + 1;
            }
            None
        },
        _ => None,
    }
}

/// The integer a JSON value stands for in a metric (see [`integer_reading`]).
pub fn value_to_i64(v: &JsonValue) -> (res: Option<i64>)
    ensures
        res == integer_reading(*v),
{
    match v {
        JsonValue::Int(n) => Some(*n),
        JsonValue::Wide(t) => Some(*t),
        JsonValue::Str(s) => parse_i64(s.as_str()),
        _ => None,
    }
}

/// `serde_json`'s own JSON value.
#[verifier::external_type_specification]
#[verifier::external_body]
pub struct ExSerdeValue(serde_json::Value);

/// What `serde_json::from_str::<serde_json::Value>` makes of `text`: the document in the
/// library's terms (see [`JsonValue`]), or the message of the parser's error. It depends on
/// `text` alone.
pub uninterp spec fn json_document(text: Seq<char>) -> Result<JsonValue, Seq<char>>;

/// The library's value for a `serde_json` value, variant by variant: `null`, booleans and
/// strings as they are, a number as `Int` where `as_i64` gives it and else as `Wide` with its
/// `as_f64` value cast to `i64`, arrays and objects element by element, in `serde_json`'s
/// order. It is the conversion step of [`parse_json_document`], its only caller.
#[verifier::external_body]
fn json_value_of(v: &serde_json::Value) -> JsonValue {
    match v {
        serde_json::Value::Null => JsonValue::Null,
        serde_json::Value::Bool(b) => JsonValue::Bool(*b),
        serde_json::Value::Number(n) => match n.as_i64() {
            Some(i) => JsonValue::Int(i),
            None => JsonValue::Wide(n.as_f64().map_or(0, |f| f as i64)),
        },
        serde_json::Value::String(t) => JsonValue::Str(t.clone()),
        serde_json::Value::Array(a) => JsonValue::Array(a.iter().map(json_value_of).collect()),
        serde_json::Value::Object(o) => JsonValue::Object(
            o.iter().map(|(k, x)| (k.clone(), json_value_of(x))).collect(),
        ),
    }
}

/// `serde_json::from_str::<serde_json::Value>(text)`: the document, converted by
/// [`json_value_of`], or the error's message (`to_string`). The result is named by
/// [`json_document`].
#[verifier::external_body]
fn parse_json_document(text: &str) -> (res: Result<JsonValue, String>)
    ensures
        match res {
            Ok(v) => json_document(text@) == Ok::<JsonValue, Seq<char>>(v),
            Err(e) => json_document(text@) == Err::<JsonValue, Seq<char>>(e@),
        },
{
    match serde_json::from_str::<serde_json::Value>(text) {
        Ok(v) => Ok(json_value_of(&v)),
        Err(e) => Err(e.to_string()),
    }
}

/// The JSON document `text` holds, if it holds one.
pub open spec fn parsed_json(text: Seq<char>) -> Option<JsonValue> {
    match json_document(text) {
        Ok(v) => Some(v),
        Err(_) => None,
    }
}

/// The JSON document `text` holds, or the parser's message where it holds none (see
/// [`json_document`]).
pub fn read_json(text: &str) -> (res: Result<JsonValue, String>)
    ensures
        match res {
            Ok(v) => json_document(text@) == Ok::<JsonValue, Seq<char>>(v),
            Err(e) => json_document(text@) == Err::<JsonValue, Seq<char>>(e@),
        },
{
    parse_json_document(text)
}

} // verus!
