//! JSON values, as the serde_json crate reads them.
use serde_json::Value;
use vstd::prelude::*;

verus! {

#[verifier::external_type_specification]
#[verifier::external_body]
pub struct ExValue(Value);

/// The JSON value that a text holds. Nothing, where it is no JSON.
pub uninterp spec fn json_parsed(text: Seq<char>) -> Option<Value>;

/// `serde_json::from_str`: the value that a text holds depends on the text alone.
/// Nothing, where the text is no JSON.
#[verifier::external_body]
pub(crate) fn parse_json(text: &str) -> (r: Option<Value>)
    ensures
        r == json_parsed(text@),
{
    serde_json::from_str::<Value>(text).ok()
}

/// The value under a key of an object. Nothing, where the key is not there, or the value
/// is no object.
pub uninterp spec fn json_member(v: Value, key: Seq<char>) -> Option<Value>;

/// `serde_json::Value::get` with a text: the value under that key, which depends on the
/// object and the key alone.
#[verifier::external_body]
fn json_get<'a>(v: &'a Value, key: &str) -> (r: Option<&'a Value>)
    ensures
        match r {
            Some(x) => json_member(*v, key@) == Some(*x),
            None => json_member(*v, key@) is None,
        },
{
    v.get(key)
}

/// The text that a value is, if it is one.
pub uninterp spec fn json_text(v: Value) -> Option<Seq<char>>;

/// `serde_json::Value::as_str`: the text that a value is, if it is one.
#[verifier::external_body]
fn json_str<'a>(v: &'a Value) -> (r: Option<&'a str>)
    ensures
        match r {
            Some(s) => json_text(*v) == Some(s@),
            None => json_text(*v) is None,
        },
{
    v.as_str()
}

/// The number that a value is, if it is a whole one from 0 to 2^64 - 1.
pub uninterp spec fn json_number(v: Value) -> Option<u64>;

/// `serde_json::Value::as_u64`: the number that a value is, if it is a whole one from 0 to
/// 2^64 - 1.
#[verifier::external_body]
fn json_u64(v: &Value) -> (r: Option<u64>)
    ensures
        r == json_number(*v),
{
    v.as_u64()
}

/// The truth value that a value is, if it is one.
pub uninterp spec fn json_truth(v: Value) -> Option<bool>;

/// `serde_json::Value::as_bool`: the truth value that a value is, if it is one.
#[verifier::external_body]
fn json_bool(v: &Value) -> (r: Option<bool>)
    ensures
        r == json_truth(*v),
{
    v.as_bool()
}

/// The items of the array that a value is, if it is one.
pub uninterp spec fn json_items(v: Value) -> Option<Seq<Value>>;

/// `serde_json::Value::as_array`: the items of the array that a value is, if it is one.
#[verifier::external_body]
fn json_array<'a>(v: &'a Value) -> (r: Option<&'a Vec<Value>>)
    ensures
        match r {
            Some(items) => json_items(*v) == Some(items@),
            None => json_items(*v) is None,
        },
{
    v.as_array()
}

/// The value under a key, where there is an object.
pub open spec fn member(v: Option<Value>, key: Seq<char>) -> Option<Value> {
    match v {
        Some(o) => json_member(o, key),
        None => None,
    }
}

/// The text under a key.
pub open spec fn text_under(v: Option<Value>, key: Seq<char>) -> Option<Seq<char>> {
    match member(v, key) {
        Some(x) => json_text(x),
        None => None,
    }
}

/// The number under a key.
pub open spec fn number_under(v: Option<Value>, key: Seq<char>) -> Option<u64> {
    match member(v, key) {
        Some(x) => json_number(x),
        None => None,
    }
}

/// The truth value under a key.
pub open spec fn truth_under(v: Option<Value>, key: Seq<char>) -> Option<bool> {
    match member(v, key) {
        Some(x) => json_truth(x),
        None => None,
    }
}

/// The texts among some values, in their order.
pub open spec fn texts_among(items: Seq<Value>) -> Seq<Seq<char>>
    decreases items.len(),
{
    if items.len() == 0 {
        Seq::empty()
    } else {
        let before = texts_among(items.drop_last());
        match json_text(items.last()) {
            Some(s) => before.push(s),
            None => before,
        }
    }
}

/// The texts in the array under a key; none, where there is no array.
pub open spec fn texts_under(v: Option<Value>, key: Seq<char>) -> Seq<Seq<char>> {
    match member(v, key) {
        Some(x) => match json_items(x) {
            Some(items) => texts_among(items),
            None => Seq::empty(),
        },
        None => Seq::empty(),
    }
}

/// A text that may be missing, as a value.
pub open spec fn text_view(t: Option<String>) -> Option<Seq<char>> {
    match t {
        Some(s) => Some(s@),
        None => None,
    }
}

/// A value that may be missing, without its reference.
pub open spec fn value_at(v: Option<&Value>) -> Option<Value> {
    match v {
        Some(x) => Some(*x),
        None => None,
    }
}

/// The value under a key, where there is an object.
pub fn get_member<'a>(v: Option<&'a Value>, key: &str) -> (r: Option<&'a Value>)
    ensures
        value_at(r) == member(value_at(v), key@),
{
    match v {
        Some(o) => json_get(o, key),
        None => None,
    }
}

/// The text under a key.
pub fn get_text(v: Option<&Value>, key: &str) -> (r: Option<String>)
    ensures
        text_view(r) == text_under(value_at(v), key@),
{
    match get_member(v, key) {
        Some(x) => match json_str(x) {
            Some(s) => Some(s.to_string()),
            None => None,
        },
        None => None,
    }
}

/// The number under a key.
pub fn get_number(v: Option<&Value>, key: &str) -> (r: Option<u64>)
    ensures
        r == number_under(value_at(v), key@),
{
    match get_member(v, key) {
        Some(x) => json_u64(x),
        None => None,
    }
}

/// The truth value under a key.
pub fn get_truth(v: Option<&Value>, key: &str) -> (r: Option<bool>)
    ensures
        r == truth_under(value_at(v), key@),
{
    match get_member(v, key) {
        Some(x) => json_bool(x),
        None => None,
    }
}

/// The texts in the array under a key; none, where there is no array.
pub fn get_texts(v: Option<&Value>, key: &str) -> (r: Vec<String>)
    ensures
        r@.map_values(|s: String| s@) == texts_under(value_at(v), key@),
{
    let mut r: Vec<String> = Vec::new();
    let items: &Vec<Value> = match get_member(v, key) {
        Some(x) => match json_array(x) {
            Some(items) => items,
            None => {
                assert(r@.map_values(|s: String| s@) =~= Seq::empty());
                return r;
            },
        },
        None => {
            assert(r@.map_values(|s: String| s@) =~= Seq::empty());
            return r;
        },
    };
    let mut i: usize = 0;
    assert(items@.subrange(0, 0) =~= Seq::empty());
    assert(r@.map_values(|s: String| s@) =~= Seq::empty());
    while i < items.len()
        invariant
            i <= items@.len(),
            r@.map_values(|s: String| s@) == texts_among(items@.subrange(0, i as int)),
        decreases items@.len() - i,
    {
        let ghost before = r@.map_values(|s: String| s@);
        proof {
            let next = items@.subrange(0, i + 1);
            assert(next.drop_last() =~= items@.subrange(0, i as int));
            assert(next.last() == items@[i as int]);
        }
        match json_str(&items[i]) {
            Some(s) => {
                r.push(s.to_string());
                assert(r@.map_values(|s: String| s@) =~= before.push(s@));
            },
            None => {},
        }
        i = i + 1;
    }
    assert(items@.subrange(0, i as int) =~= items@);
    r
}

} // verus!
