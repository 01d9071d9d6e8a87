//! JSON documents, read by `serde_json` and held as a tree of plain values.

use vstd::prelude::*;
use crate::error::RestError;
use crate::table::{lemma_position, position};

verus! {

/// A JSON document, as far as this library reads it.
#[derive(Debug)]
pub enum Json {
    Null,
    Bool(bool),
    /// A number; its value where it is a non-negative integer below 2^64.
    Number(Option<u64>),
    Text(String),
    Array(Vec<Json>),
    /// The members of an object, each key with its value.
    Object(Vec<(String, Json)>),
}

/// `serde_json::Value`: a parsed document on its way from the parser to
/// `Json`. Nothing is known of a value but the tree that it holds.
#[verifier::external_type_specification]
#[verifier::external_body]
pub struct ExValue(serde_json::Value);

/// `serde_json::Error`: why bytes are no document. Nothing is read from it.
#[verifier::external_type_specification]
#[verifier::external_body]
pub struct ExJsonError(serde_json::Error);

/// The tree that a parsed `serde_json::Value` holds.
pub uninterp spec fn json_tree(value: serde_json::Value) -> Json;

/// The document that a sequence of bytes spells, if it spells one.
pub uninterp spec fn json_document(bytes: Seq<u8>) -> Option<Json>;

/// `serde_json::from_slice` at the type `serde_json::Value`: the bytes either
/// spell one JSON document, which is returned, or the parser's error is.
/// Nothing is claimed of which bytes spell which document.
#[verifier::external_body]
fn parse_value(bytes: &[u8]) -> (r: Result<serde_json::Value, serde_json::Error>)
    ensures
        match r {
            Ok(value) => json_document(bytes@) == Some(json_tree(value)),
            Err(_) => json_document(bytes@).is_none(),
        },
{
    serde_json::from_slice::<serde_json::Value>(bytes)
}

/// Moves a `serde_json::Value` into a `Json`, variant by variant: a number by
/// `serde_json::Number::as_u64`, the members of an object in the order in
/// which `serde_json::Map::into_iter` hands them out.
#[verifier::external_body]
fn json_from_value(value: serde_json::Value) -> (r: Json)
    ensures
        r == json_tree(value),
{
    match value {
        serde_json::Value::Null => Json::Null,
        serde_json::Value::Bool(b) => Json::Bool(b),
        serde_json::Value::Number(n) => Json::Number(n.as_u64()),
        serde_json::Value::String(s) => Json::Text(s),
        serde_json::Value::Array(a) => Json::Array(a.into_iter().map(json_from_value).collect()),
        serde_json::Value::Object(o) => Json::Object(
            o.into_iter().map(|(k, v)| (k, json_from_value(v))).collect(),
        ),
    }
}

impl Json {
    /// The value of the member `key`, where `self` is an object that has one.
    pub open spec fn member(self, key: Seq<char>) -> Option<Json> {
        match self {
            Json::Object(members) => match position(
                members@.map_values(|m: (String, Json)| m.0@),
                key,
            ) {
                Some(i) => Some(members@[i].1),
                None => None,
            },
            _ => None,
        }
    }

    /// The text, where `self` is a string.
    pub open spec fn text(self) -> Option<String> {
        match self {
            Json::Text(s) => Some(s),
            _ => None,
        }
    }

    /// The number, where `self` is a non-negative integer that fits 32 bits.
    pub open spec fn count(self) -> Option<u32> {
        match self {
            Json::Number(Some(n)) => if n <= u32::MAX {
                Some(n as u32)
            } else {
                None
            },
            _ => None,
        }
    }

    /// Reads a document from the bytes of a response body.
    pub fn parse(bytes: &[u8]) -> (r: Result<Json, RestError>)
        ensures
            match r {
                Ok(doc) => json_document(bytes@) == Some(doc),
                Err(e) => e == RestError::Decode && json_document(bytes@).is_none(),
            },
    {
        match parse_value(bytes) {
            Ok(value) => Ok(json_from_value(value)),
            Err(_) => Err(RestError::Decode),
        }
    }

    /// The value of the member `key`, where `self` is an object that has
    /// one.
    pub fn get(&self, key: &str) -> (r: Option<&Json>)
        ensures
            match r {
                Some(j) => self.member(key@) == Some(*j),
                None => self.member(key@).is_none(),
            },
    {
        match self {
            Json::Object(members) => {
                let wanted = String::from_str(key);
                let ghost keys = members@.map_values(|m: (String, Json)| m.0@);
                let mut i: usize = 0;
                while i < members.len()
                    invariant
                        i <= members.len(),
                        *self == Json::Object(*members),
                        wanted@ == key@,
                        keys == members@.map_values(|m: (String, Json)| m.0@),
                        forall|j: int| 0 <= j < i ==> keys[j] != key@,
                    decreases members.len() - i,
                {
                    if members[i].0 == wanted {
                        proof {
                            assert(keys[i as int] == key@);
                            lemma_position(keys, key@);
                        }
                        return Some(&members[i].1);
                    }
                    assert(keys[i as int] != key@);
                    i += 1;
                }
                proof {
                    lemma_position(keys, key@);
                }
                None
            },
            _ => None,
        }
    }

    /// The text, where `self` is a string.
    pub fn as_text(&self) -> (r: Option<&String>)
        ensures
            match r {
                Some(s) => self.text() == Some(*s),
                None => self.text().is_none(),
            },
    {
        match self {
            Json::Text(s) => Some(s),
            _ => None,
        }
    }

    /// The number, where `self` is a non-negative integer that fits 32 bits.
    pub fn as_count(&self) -> (r: Option<u32>)
        ensures
            r == self.count(),
    {
        match self {
            Json::Number(Some(n)) => if *n <= u32::MAX as u64 {
                Some(*n as u32)
            } else {
                None
            },
            _ => None,
        }
    }
}

} // verus!
