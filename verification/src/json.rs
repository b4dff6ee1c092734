//! A plain tree model of a JSON document.
//!
//! The normalization engine inspects the structure of the service's JSON
//! responses: which keys are present, which values are strings, which are
//! arrays.  It works over this tree, so every traversal step is verified;
//! only the initial text-to-tree parse is delegated to `serde_json`.

use vstd::prelude::*;

verus! {

/// A JSON value as the dictionary logic sees it.
///
/// Numeric values never matter to the dictionary model (a number where a
/// string was expected simply makes the field absent), so the `Number`
/// variant does not retain the digits.  An object is an ordered list of
/// key/value pairs: the order of the service's response is preserved.
pub enum JsonValue {
    Null,
    Bool(bool),
    Number,
    Str(String),
    Array(Vec<JsonValue>),
    Object(Vec<(String, JsonValue)>),
}

/// The value under `key` in an ordered pair list: the first match wins.
pub open spec fn lookup_pairs(pairs: Seq<(String, JsonValue)>, key: Seq<char>) -> Option<
    JsonValue,
>
    decreases pairs.len(),
{
    if pairs.len() == 0 {
        None
    } else if pairs[0].0@ == key {
        Some(pairs[0].1)
    } else {
        lookup_pairs(pairs.drop_first(), key)
    }
}

/// The value under `key` in a JSON object; `None` on any other shape.
pub open spec fn lookup(v: JsonValue, key: Seq<char>) -> Option<JsonValue> {
    match v {
        JsonValue::Object(pairs) => lookup_pairs(pairs@, key),
        _ => None,
    }
}

#[verifier::external_type_specification]
#[verifier::external_body]
pub struct ExSerdeValue(serde_json::Value);

/// The value that `serde_json` parses the text to, if the text is JSON.
pub uninterp spec fn parsed_json(text: Seq<char>) -> Option<serde_json::Value>;

/// The plain tree behind a `serde_json` value.
pub uninterp spec fn json_model(v: serde_json::Value) -> JsonValue;

/// The plain tree that the text parses to, if it is JSON.
pub open spec fn json_of(text: Seq<char>) -> Option<JsonValue> {
    match parsed_json(text) {
        Some(v) => Some(json_model(v)),
        None => None,
    }
}

/// Relies on `serde_json::from_str`: what a text parses to is a function
/// of the text alone.
#[verifier::external_body]
fn parse_serde(text: &Vec<char>) -> (r: Option<serde_json::Value>)
    ensures
        r == parsed_json(text@),
{
    let s: String = text.iter().collect();
    serde_json::from_str(&s).ok()
}

/// Relies on `serde_json::Value` being a finite tree of nulls, booleans,
/// numbers, strings, arrays and string-keyed maps, walked here pair by
/// pair and element by element.  With `serde_json`'s `preserve_order`
/// feature on, the maps iterate in the order the document gave its keys,
/// so that order survives into the tree.
#[verifier::external_body]
fn tree_of_serde(v: serde_json::Value) -> (r: JsonValue)
    ensures
        r == json_model(v),
{
    match v {
        serde_json::Value::Null => JsonValue::Null,
        serde_json::Value::Bool(b) => JsonValue::Bool(b),
        serde_json::Value::Number(_) => JsonValue::Number,
        serde_json::Value::String(s) => JsonValue::Str(s),
        serde_json::Value::Array(a) => JsonValue::Array(a.into_iter().map(tree_of_serde).collect()),
        serde_json::Value::Object(o) => JsonValue::Object(
            o.into_iter().map(|(k, inner)| (k, tree_of_serde(inner))).collect(),
        ),
    }
}

/// Parses the text into the plain tree model, `None` if it is not JSON.
pub fn parse_text(text: &Vec<char>) -> (r: Option<JsonValue>)
    ensures
        r == json_of(text@),
{
    match parse_serde(text) {
        Some(v) => Some(tree_of_serde(v)),
        None => None,
    }
}

impl JsonValue {
    /// Looks a key up in an object, as the engine's extraction steps do.
    pub fn get<'a>(&'a self, key: &str) -> (r: Option<&'a JsonValue>)
        ensures
            match r {
                Some(v) => lookup(*self, key@) == Some(*v),
                None => lookup(*self, key@) is None,
            },
    {
        match self {
            JsonValue::Object(pairs) => {
                let k = key.to_owned();
                let n = pairs.len();
                let mut i: usize = 0;
                proof {
                    assert(pairs@.skip(0) =~= pairs@);
                }
                while i < n
                    invariant
                        0 <= i <= n,
                        n == pairs@.len(),
                        k@ == key@,
                        *self == JsonValue::Object(*pairs),
                        lookup_pairs(pairs@, key@) == lookup_pairs(pairs@.skip(i as int), key@),
                    decreases n - i,
                {
                    proof {
                        assert(pairs@.skip(i as int).len() > 0);
                        assert(pairs@.skip(i as int)[0] == pairs@[i as int]);
                    }
                    if pairs[i].0 == k {
                        proof {
                            assert(pairs@.skip(i as int)[0].0@ == key@);
                            assert(lookup_pairs(pairs@.skip(i as int), key@) == Some(
                                pairs@[i as int].1,
                            ));
                            assert(lookup(*self, key@) == lookup_pairs(pairs@, key@));
                        }
                        return Some(&pairs[i].1);
                    }
                    proof {
                        assert(pairs@.skip(i as int).drop_first() =~= pairs@.skip(i as int + 1));
                        assert(lookup_pairs(pairs@.skip(i as int), key@) == lookup_pairs(
                            pairs@.skip(i as int + 1),
                            key@,
                        ));
                    }
                    i = i + 1;
                }
                proof {
                    assert(pairs@.skip(n as int).len() == 0);
                }
                None
            },
            _ => None,
        }
    }
}

} // verus!
