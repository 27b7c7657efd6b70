//! JSON documents as the library reads them: `serde_json` parses the bytes,
//! and the parsed value is carried, node for node, as a `JsonTree`.

use vstd::prelude::*;
use crate::text::str_eq;

verus! {

/// A JSON value. A number keeps its text and, when it is a non-negative
/// integer that fits, its `u64` value; an object keeps its members in the
/// order `serde_json` gives them (each key once).
#[derive(Debug)]
pub enum JsonTree {
    /// `null`.
    Null,
    /// `true` or `false`.
    Bool(bool),
    /// A number: its text and its `u64` value, if it has one.
    Number(String, Option<u64>),
    /// A string.
    Text(String),
    /// An array.
    Array(Vec<JsonTree>),
    /// An object's members.
    Object(Vec<(String, JsonTree)>),
}

#[verifier::external_type_specification]
#[verifier::external_body]
pub struct ExJsonValue(serde_json::Value);

/// What `serde_json` makes of `bytes`: the document, or the text of its
/// error.
pub uninterp spec fn json_of(bytes: Seq<u8>) -> Result<JsonTree, Seq<char>>;

/// Carries a parsed `serde_json::Value` over as a `JsonTree`, node for
/// node (a number as its text and `as_u64`): the conversion step of
/// `parse_json`, which alone calls it. It states nothing; `parse_json`'s
/// contract covers the parse and this conversion together.
#[verifier::external_body]
fn tree_of(v: serde_json::Value) -> JsonTree {
    match v {
        serde_json::Value::Null => JsonTree::Null,
        serde_json::Value::Bool(b) => JsonTree::Bool(b),
        serde_json::Value::Number(n) => JsonTree::Number(n.to_string(), n.as_u64()),
        serde_json::Value::String(s) => JsonTree::Text(s),
        serde_json::Value::Array(a) => JsonTree::Array(a.into_iter().map(tree_of).collect()),
        serde_json::Value::Object(m) => JsonTree::Object(m.into_iter().map(|(k, x)| (k, tree_of(x))).collect()),
    }
}

/// `serde_json::from_slice::<serde_json::Value>`: the parsed document, or
/// the error's text. The contract names the outcome (`json_of`), a function
/// of the bytes alone; what JSON the bytes hold is not restated.
#[verifier::external_body]
pub(crate) fn parse_json(bytes: &[u8]) -> (r: Result<JsonTree, String>)
    ensures
        match r {
            Ok(t) => json_of(bytes@) == Ok::<JsonTree, Seq<char>>(t),
            Err(e) => json_of(bytes@) == Err::<JsonTree, Seq<char>>(e@),
        },
{
    serde_json::from_slice::<serde_json::Value>(bytes).map(tree_of).map_err(|e| e.to_string())
}

/// The value of the first member named `key` among `es[k..]`.
pub open spec fn member_from(es: Seq<(String, JsonTree)>, key: Seq<char>, k: int) -> Option<JsonTree>
    decreases es.len() - k,
{
    if k < 0 || k >= es.len() {
        None
    } else if es[k].0@ == key {
        Some(es[k].1)
    } else {
        member_from(es, key, k + 1)
    }
}

/// The member `key` of an object (`Value::get` with a string); `None` for
/// anything but an object.
pub open spec fn member(t: JsonTree, key: Seq<char>) -> Option<JsonTree> {
    match t {
        JsonTree::Object(es) => member_from(es@, key, 0),
        _ => None,
    }
}

/// The text of a string value.
pub open spec fn text_of(t: Option<JsonTree>) -> Option<Seq<char>> {
    match t {
        Some(JsonTree::Text(s)) => Some(s@),
        _ => None,
    }
}

/// The `u64` value of a number.
pub open spec fn u64_of(t: Option<JsonTree>) -> Option<u64> {
    match t {
        Some(JsonTree::Number(_, n)) => n,
        _ => None,
    }
}

/// The first element of an array (`Value::get(0)`).
pub open spec fn first_element(t: Option<JsonTree>) -> Option<JsonTree> {
    match t {
        Some(JsonTree::Array(a)) => if a@.len() > 0 { Some(a@[0]) } else { None },
        _ => None,
    }
}

/// The member `key` of `t` (see `member`).
pub fn get_member<'a>(t: &'a JsonTree, key: &str) -> (r: Option<&'a JsonTree>)
    ensures
        match r {
            Some(x) => member(*t, key@) == Some(*x),
            None => member(*t, key@) is None,
        },
{
    match t {
        JsonTree::Object(es) => {
            let mut k: usize = 0;
            assert(member(*t, key@) == member_from(es@, key@, 0));
            while k < es.len()
                invariant
                    member(*t, key@) == member_from(es@, key@, 0),
                    k <= es@.len(),
                    member_from(es@, key@, 0) == member_from(es@, key@, k as int),
                decreases es@.len() - k,
            {
                if str_eq(es[k].0.as_str(), key) {
                    proof {
                        assert(member_from(es@, key@, k as int) == Some(es@[k as int].1));
                    }
                    return Some(&es[k].1);
                }
                k = k + 1;
            }
            proof {
                assert(member(*t, key@) == member_from(es@, key@, 0));
            }
            None
        },
        _ => None,
    }
}

/// The text of a string value (see `text_of`).
pub fn get_text(t: Option<&JsonTree>) -> (r: Option<&str>)
    ensures
        match r {
            Some(s) => text_of(match t { Some(x) => Some(*x), None => None }) == Some(s@),
            None => text_of(match t { Some(x) => Some(*x), None => None }) is None,
        },
{
    match t {
        Some(JsonTree::Text(s)) => Some(s.as_str()),
        _ => None,
    }
}

/// The `u64` value of a number (see `u64_of`).
pub fn get_u64(t: Option<&JsonTree>) -> (r: Option<u64>)
    ensures
        r == u64_of(match t { Some(x) => Some(*x), None => None }),
{
    match t {
        Some(JsonTree::Number(_, n)) => *n,
        _ => None,
    }
}

/// The first element of an array (see `first_element`).
pub fn get_first(t: Option<&JsonTree>) -> (r: Option<&JsonTree>)
    ensures
        match r {
            Some(x) => first_element(match t { Some(y) => Some(*y), None => None }) == Some(*x),
            None => first_element(match t { Some(y) => Some(*y), None => None }) is None,
        },
{
    match t {
        Some(JsonTree::Array(a)) => if a.len() > 0 { Some(&a[0]) } else { None },
        _ => None,
    }
}

} // verus!
