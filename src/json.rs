use vstd::prelude::*;
use crate::text::str_eq;

verus! {

/// A JSON document as plain values.
///
/// Numbers keep their value as a signed 64-bit integer where they have one
/// (`Number(None)` stands for a float or an integer out of that range).
/// An object keeps its members in the order the parser gave them; keys are unique.
#[derive(Debug)]
pub enum Json {
    Null,
    Bool(bool),
    Number(Option<i64>),
    Str(String),
    Array(Vec<Json>),
    Object(Vec<(String, Json)>),
}

#[verifier::external_type_specification]
#[verifier::external_body]
pub struct ExJsonValue(serde_json::Value);

/// What a JSON parser reads from a text: `None` where the text is not one JSON value.
pub uninterp spec fn parsed_json(text: Seq<char>) -> Option<Json>;

/// Relies on `serde_json::from_str`: the value it reads from the text depends on
/// the text alone; the body turns it into a `Json`, member by member.
#[verifier::external_body]
pub(crate) fn parse_json(text: &[char]) -> (r: Option<Json>)
    ensures
        r == parsed_json(text@),
{
    let s: String = text.iter().collect();
    serde_json::from_str::<serde_json::Value>(&s).ok().map(json_from_value)
}

/// The conversion in `parse_json`'s body, recursive over nested values. Relies on the
/// variants of `serde_json::Value` and on `serde_json::Number::as_i64`: moves each
/// variant into its counterpart; it states nothing of its own.
#[verifier::external_body]
fn json_from_value(v: serde_json::Value) -> Json {
    match v {
        serde_json::Value::Null => Json::Null,
        serde_json::Value::Bool(b) => Json::Bool(b),
        serde_json::Value::Number(n) => Json::Number(n.as_i64()),
        serde_json::Value::String(s) => Json::Str(s),
        serde_json::Value::Array(a) => Json::Array(a.into_iter().map(json_from_value).collect()),
        serde_json::Value::Object(m) => Json::Object(m.into_iter().map(|(k, x)| (k, json_from_value(x))).collect()),
    }
}

/// The value of the first member named `key` among `fields`.
pub open spec fn member(fields: Seq<(String, Json)>, key: Seq<char>) -> Option<Json>
    decreases fields.len(),
{
    if fields.len() == 0 {
        None
    } else if fields[0].0@ == key {
        Some(fields[0].1)
    } else {
        member(fields.drop_first(), key)
    }
}

/// The member `key` of an object; `None` for any other value.
pub open spec fn field_of(v: Json, key: Seq<char>) -> Option<Json> {
    match v {
        Json::Object(fields) => member(fields@, key),
        _ => None,
    }
}

/// A number that fits in `i64`.
pub open spec fn int_of(v: Json) -> Option<i64> {
    match v {
        Json::Number(n) => n,
        _ => None,
    }
}

pub open spec fn text_of(v: Json) -> Option<Seq<char>> {
    match v {
        Json::Str(s) => Some(s@),
        _ => None,
    }
}

pub open spec fn flag_of(v: Json) -> Option<bool> {
    match v {
        Json::Bool(b) => Some(b),
        _ => None,
    }
}

pub open spec fn items_of(v: Json) -> Option<Seq<Json>> {
    match v {
        Json::Array(a) => Some(a@),
        _ => None,
    }
}

/// `field_of` on a member that may be absent.
pub open spec fn field_in(v: Option<Json>, key: Seq<char>) -> Option<Json> {
    match v {
        Some(x) => field_of(x, key),
        None => None,
    }
}

pub open spec fn int_in(v: Option<Json>) -> Option<i64> {
    match v {
        Some(x) => int_of(x),
        None => None,
    }
}

pub open spec fn text_in(v: Option<Json>) -> Option<Seq<char>> {
    match v {
        Some(x) => text_of(x),
        None => None,
    }
}

/// Whether a member that may be absent is the boolean `true`.
pub open spec fn is_true(v: Option<Json>) -> bool {
    match v {
        Some(x) => flag_of(x) == Some(true),
        None => false,
    }
}

pub open spec fn items_in(v: Option<Json>) -> Option<Seq<Json>> {
    match v {
        Some(x) => items_of(x),
        None => None,
    }
}

/// Whether `r` points at the value `s` (both absent, or both present and equal).
pub open spec fn same_ref(r: Option<&Json>, s: Option<Json>) -> bool {
    match r {
        Some(x) => s == Some(*x),
        None => s is None,
    }
}

impl Json {
    /// The member named `key`, where `self` is an object that has one.
    pub fn get(&self, key: &str) -> (r: Option<&Json>)
        ensures
            same_ref(r, field_of(*self, key@)),
    {
        match self {
            Json::Object(fields) => {
                let mut i: usize = 0;
                assert(fields@.subrange(0, fields@.len() as int) =~= fields@);
                while i < fields.len()
                    invariant
                        field_of(*self, key@) == member(fields@, key@),
                        i <= fields@.len(),
                        member(fields@, key@) == member(
                            fields@.subrange(i as int, fields@.len() as int),
                            key@,
                        ),
                    decreases fields.len() - i,
                {
                    let entry = &fields[i];
                    assert(fields@.subrange(i as int, fields@.len() as int).drop_first()
                        =~= fields@.subrange(i + 1, fields@.len() as int));
                    if str_eq(entry.0.as_str(), key) {
                        return Some(&entry.1);
                    }
                    i += 1;
                }
                None
            },
            _ => None,
        }
    }

    pub fn as_i64(&self) -> (r: Option<i64>)
        ensures
            r == int_of(*self),
    {
        match self {
            Json::Number(n) => *n,
            _ => None,
        }
    }

    pub fn as_str(&self) -> (r: Option<&str>)
        ensures
            r is Some == text_of(*self) is Some,
            r is Some ==> r->0@ == text_of(*self)->0,
    {
        match self {
            Json::Str(s) => Some(s.as_str()),
            _ => None,
        }
    }

    pub fn as_bool(&self) -> (r: Option<bool>)
        ensures
            r == flag_of(*self),
    {
        match self {
            Json::Bool(b) => Some(*b),
            _ => None,
        }
    }

    pub fn as_array(&self) -> (r: Option<&Vec<Json>>)
        ensures
            r is Some == items_of(*self) is Some,
            r is Some ==> r->0@ == items_of(*self)->0,
    {
        match self {
            Json::Array(a) => Some(a),
            _ => None,
        }
    }
}

} // verus!
