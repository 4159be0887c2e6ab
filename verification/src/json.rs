//! JSON values as plain data, read from text by `serde_json`.

use serde_json::Value;
use vstd::prelude::*;

use crate::textmap::TextMap;

verus! {

/// A JSON value. Numbers keep the text `serde_json` prints for them; object
/// keys are kept in ascending order, each once.
#[derive(Debug)]
pub enum Json {
    Null,
    Bool(bool),
    Number(String),
    Str(String),
    Array(Vec<Json>),
    Object(TextMap<Json>),
}

/// `serde_json::Value`, carried opaquely while it is turned into a [`Json`].
#[verifier::external_type_specification]
#[verifier::external_body]
pub struct ExValue(serde_json::Value);

/// The variant of a `serde_json::Value`.
pub enum ValueKind {
    Null,
    Bool,
    Number,
    Str,
    Array,
    Object,
}

/// Which variant of `serde_json::Value` `v` is. Trusted: no claim is made of
/// the opaque value.
#[verifier::external_body]
fn value_kind(v: &Value) -> ValueKind {
    match v {
        Value::Null => ValueKind::Null,
        Value::Bool(_) => ValueKind::Bool,
        Value::Number(_) => ValueKind::Number,
        Value::String(_) => ValueKind::Str,
        Value::Array(_) => ValueKind::Array,
        Value::Object(_) => ValueKind::Object,
    }
}

/// The boolean held by a `Value::Bool` (`Value::as_bool`), `false` otherwise.
#[verifier::external_body]
fn value_bool(v: &Value) -> bool {
    v.as_bool().unwrap_or(false)
}

/// The printed text of a `Value::Number` (`Number::to_string`), empty
/// otherwise.
#[verifier::external_body]
fn value_number_text(v: &Value) -> String {
    match v {
        Value::Number(n) => n.to_string(),
        _ => String::new(),
    }
}

/// The text held by a `Value::String` (`Value::as_str`), empty otherwise.
#[verifier::external_body]
fn value_text(v: &Value) -> String {
    v.as_str().unwrap_or("").to_string()
}

/// The items of a `Value::Array` (`Value::as_array`), none otherwise.
#[verifier::external_body]
fn value_items(v: &Value) -> &[Value] {
    match v.as_array() {
        Some(items) => items.as_slice(),
        None => &[],
    }
}

/// The keys of a `Value::Object` in the map's order (`Map::keys`), none
/// otherwise.
#[verifier::external_body]
fn value_keys(v: &Value) -> Vec<String> {
    match v.as_object() {
        Some(map) => map.keys().cloned().collect(),
        None => Vec::new(),
    }
}

/// The values of a `Value::Object` in the map's order (`Map::values`), none
/// otherwise.
#[verifier::external_body]
fn value_fields(v: &Value) -> Vec<&Value> {
    match v.as_object() {
        Some(map) => map.values().collect(),
        None => Vec::new(),
    }
}

/// The nesting depth that `serde_json` accepts when it parses text, plus one.
pub const PARSE_DEPTH: u32 = 129;

/// Whether `j` nests arrays and objects at most `d` levels deep.
pub open spec fn within_depth(j: Json, d: nat) -> bool
    decreases d,
{
    match j {
        Json::Array(items) => d > 0 && forall|i: int|
            0 <= i < items@.len() ==> within_depth(#[trigger] items@[i], (d - 1) as nat),
        Json::Object(m) => d > 0 && forall|k: Seq<char>|
            #[trigger] m@.dom().contains(k) ==> within_depth(m@[k], (d - 1) as nat),
        _ => true,
    }
}

/// Turns a `serde_json::Value` into a [`Json`], down to `depth` levels of
/// nesting (deeper values, which `serde_json` never produces from text,
/// become `Null`). What the opaque value holds is read through the trusted
/// accessors above, of which nothing is claimed; what is stated is the shape
/// of the result: `Null` at depth zero, and never nested deeper than `depth`.
fn json_from_value(v: &Value, depth: u32) -> (r: Json)
    ensures
        depth == 0 ==> r is Null,
        within_depth(r, depth as nat),
    decreases depth,
{
    if depth == 0 {
        return Json::Null;
    }
    match value_kind(v) {
        ValueKind::Null => Json::Null,
        ValueKind::Bool => Json::Bool(value_bool(v)),
        ValueKind::Number => Json::Number(value_number_text(v)),
        ValueKind::Str => Json::Str(value_text(v)),
        ValueKind::Array => {
            let items = value_items(v);
            let mut out: Vec<Json> = Vec::new();
            let mut i: usize = 0;
            while i < items.len()
                invariant
                    i <= items@.len(),
                    depth > 0,
                    forall|j: int| 0 <= j < out@.len() ==> within_depth(#[trigger] out@[j], (depth - 1) as nat),
                decreases items@.len() - i,
            {
                out.push(json_from_value(&items[i], depth - 1));
                i = i + 1;
            }
            let r = Json::Array(out);
            assert(within_depth(r, depth as nat));
            r
        },
        ValueKind::Object => {
            let keys = value_keys(v);
            let fields = value_fields(v);
            let mut map: TextMap<Json> = TextMap::new();
            let mut i: usize = 0;
            while i < keys.len() && i < fields.len()
                invariant
                    i <= keys@.len(),
                    depth > 0,
                    forall|k: Seq<char>| #[trigger] map@.dom().contains(k) ==> within_depth(map@[k], (depth - 1) as nat),
                decreases keys@.len() - i,
            {
                map.insert(keys[i].clone(), json_from_value(fields[i], depth - 1));
                i = i + 1;
            }
            let r = Json::Object(map);
            assert(within_depth(r, depth as nat));
            r
        },
    }
}

/// The value that `serde_json` reads from a text, if the text is JSON.
pub uninterp spec fn json_parse(text: Seq<char>) -> Option<Json>;

/// Reads `text` as one JSON value (`serde_json::from_str::<Value>`, then
/// [`json_from_value`]); `None` when it is not JSON. Trusted: the result is
/// named `json_parse` of the text, a function of the text alone.
#[verifier::external_body]
pub(crate) fn parse_json(text: &str) -> (r: Option<Json>)
    ensures
        r == json_parse(text@),
{
    serde_json::from_str::<Value>(text).ok().map(|v| json_from_value(&v, PARSE_DEPTH))
}

/// The member `key` of an object.
pub open spec fn json_get(j: Json, key: Seq<char>) -> Option<Json> {
    match j {
        Json::Object(m) => if m@.dom().contains(key) {
            Some(m@[key])
        } else {
            None
        },
        _ => None,
    }
}

impl Json {
    /// The member `key` of an object (`None` for other values or absent keys).
    pub fn get(&self, key: &str) -> (r: Option<&Json>)
        ensures
            match json_get(*self, key@) {
                Some(j) => r.is_some() && *r.unwrap() == j,
                None => r.is_none(),
            },
    {
        match self {
            Json::Object(m) => m.get(key),
            _ => None,
        }
    }

    /// The text of a string value.
    pub fn as_str(&self) -> (r: Option<&str>)
        ensures
            match *self {
                Json::Str(s) => r.is_some() && r.unwrap()@ == s@,
                _ => r.is_none(),
            },
    {
        match self {
            Json::Str(s) => Some(s.as_str()),
            _ => None,
        }
    }

    /// The items of an array value.
    pub fn as_array(&self) -> (r: Option<&Vec<Json>>)
        ensures
            match *self {
                Json::Array(v) => r == Some(&v),
                _ => r.is_none(),
            },
    {
        match self {
            Json::Array(v) => Some(v),
            _ => None,
        }
    }

    /// Whether this is an object value.
    pub fn is_object(&self) -> (r: bool)
        ensures
            r == (*self is Object),
    {
        match self {
            Json::Object(_) => true,
            _ => false,
        }
    }
}

} // verus!
