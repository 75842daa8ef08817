//! JSON values as plain data, and the lookups that the parsers make.

use crate::text::same_text;
use vstd::prelude::*;

verus! {

/// A JSON value. A number that is no `i64` keeps no digits: nothing here reads
/// one.
#[derive(Debug)]
pub enum Json {
    Null,
    Bool(bool),
    Int(i64),
    OtherNumber,
    Str(String),
    Array(Vec<Json>),
    /// Members in iteration order.
    Object(Vec<(String, Json)>),
}

/// What a JSON value says.
#[verifier::ext_equal]
pub enum JsonV {
    Null,
    Bool(bool),
    Int(i64),
    OtherNumber,
    Str(Seq<char>),
    Array(Seq<JsonV>),
    Object(Seq<(Seq<char>, JsonV)>),
}

pub open spec fn json_view(j: Json) -> JsonV
    decreases j,
{
    match j {
        Json::Null => JsonV::Null,
        Json::Bool(b) => JsonV::Bool(b),
        Json::Int(i) => JsonV::Int(i),
        Json::OtherNumber => JsonV::OtherNumber,
        Json::Str(s) => JsonV::Str(s@),
        Json::Array(items) => JsonV::Array(
            Seq::new(
                items@.len(),
                |i: int|
                    if 0 <= i < items@.len() {
                        json_view(items@[i])
                    } else {
                        JsonV::Null
                    },
            ),
        ),
        Json::Object(members) => JsonV::Object(
            Seq::new(
                members@.len(),
                |i: int|
                    if 0 <= i < members@.len() {
                        (members@[i].0@, json_view(members@[i].1))
                    } else {
                        (Seq::empty(), JsonV::Null)
                    },
            ),
        ),
    }
}

impl View for Json {
    type V = JsonV;

    open spec fn view(&self) -> JsonV {
        json_view(*self)
    }
}

/// A parsed document of `serde_json`.
#[verifier::external_type_specification]
#[verifier::external_body]
pub struct ExValue(serde_json::Value);

/// What a parsed document says.
pub uninterp spec fn value_view(v: serde_json::Value) -> JsonV;

/// What `serde_json::from_str` makes of a text, if the text is JSON.
pub uninterp spec fn json_text(text: Seq<char>) -> Option<serde_json::Value>;

/// Calls `serde_json::from_str`: the document that the text writes, or `None`
/// where it writes none.
#[verifier::external_body]
pub(crate) fn text_value(text: &str) -> (res: Option<serde_json::Value>)
    ensures
        match res {
            Some(v) => json_text(text@) == Some(v),
            None => json_text(text@) is None,
        },
{
    serde_json::from_str(text).ok()
}

/// Takes a `serde_json::Value` apart: each value of it becomes the same value
/// here, with members in the order that the map is walked in.
#[verifier::external_body]
fn value_json(value: serde_json::Value) -> (res: Json)
    ensures
        res@ == value_view(value),
{
    match value {
        serde_json::Value::Null => Json::Null,
        serde_json::Value::Bool(b) => Json::Bool(b),
        serde_json::Value::Number(n) => n.as_i64().map_or(Json::OtherNumber, Json::Int),
        serde_json::Value::String(s) => Json::Str(s),
        serde_json::Value::Array(a) => Json::Array(a.into_iter().map(value_json).collect()),
        serde_json::Value::Object(m) => Json::Object(
            m.into_iter().map(|(k, v)| (k, value_json(v))).collect(),
        ),
    }
}

/// Whether `serde_json` holds two documents equal.
pub uninterp spec fn values_equal(a: serde_json::Value, b: serde_json::Value) -> bool;

/// Calls `==` on two documents of `serde_json`. A document equals itself.
#[verifier::external_body]
fn value_equal(a: &serde_json::Value, b: &serde_json::Value) -> (res: bool)
    ensures
        res == values_equal(*a, *b),
        *a == *b ==> res,
{
    a == b
}

/// What a text says, if it is JSON.
pub open spec fn document(text: Seq<char>) -> Option<JsonV> {
    match json_text(text) {
        Some(v) => Some(value_view(v)),
        None => None,
    }
}

/// Parses a JSON text.
pub fn parse_json(text: &str) -> (res: Option<Json>)
    ensures
        match res {
            Some(j) => document(text@) == Some(j@),
            None => document(text@) is None,
        },
{
    match text_value(text) {
        Some(v) => Some(value_json(v)),
        None => None,
    }
}

/// Whether two texts say the same: the same document, or, where one of them
/// is no JSON, the same characters.
pub open spec fn same_document(a: Seq<char>, b: Seq<char>) -> bool {
    match (json_text(a), json_text(b)) {
        (Some(x), Some(y)) => values_equal(x, y),
        _ => a == b,
    }
}

/// Compares two response bodies by what they say, so that key order and white
/// space do not matter.
pub fn json_equal(a: &str, b: &str) -> (res: bool)
    ensures
        res == same_document(a@, b@),
        a@ == b@ ==> res,
{
    match (text_value(a), text_value(b)) {
        (Some(x), Some(y)) => value_equal(&x, &y),
        _ => same_text(a, b),
    }
}

/// The first member with a key, from `i` on.
pub open spec fn find_member(members: Seq<(Seq<char>, JsonV)>, key: Seq<char>, i: int) -> Option<
    JsonV,
>
    decreases members.len() - i,
{
    if i < 0 || i >= members.len() {
        None
    } else if members[i].0 == key {
        Some(members[i].1)
    } else {
        find_member(members, key, i + 1)
    }
}

/// The member of an object; other values have none.
pub open spec fn member(v: JsonV, key: Seq<char>) -> Option<JsonV> {
    match v {
        JsonV::Object(members) => find_member(members, key, 0),
        _ => None,
    }
}

/// The elements of an array member.
pub open spec fn array_member(v: JsonV, key: Seq<char>) -> Option<Seq<JsonV>> {
    match member(v, key) {
        Some(JsonV::Array(items)) => Some(items),
        _ => None,
    }
}

/// The integer value of a member; booleans count as 0 and 1, all else as 0.
pub open spec fn number(v: JsonV, key: Seq<char>) -> int {
    match member(v, key) {
        Some(JsonV::Int(i)) => i as int,
        Some(JsonV::Bool(b)) => if b {
            1
        } else {
            0
        },
        _ => 0,
    }
}

/// The text of a member, or the empty text.
pub open spec fn text_member(v: JsonV, key: Seq<char>) -> Seq<char> {
    match member(v, key) {
        Some(JsonV::Str(s)) => s,
        _ => Seq::empty(),
    }
}

pub open spec fn json_views(items: Seq<Json>) -> Seq<JsonV> {
    items.map_values(|j: Json| j@)
}

pub fn get<'a>(v: &'a Json, key: &str) -> (res: Option<&'a Json>)
    ensures
        match res {
            Some(j) => member(v@, key@) == Some(j@),
            None => member(v@, key@) is None,
        },
{
    match v {
        Json::Object(members) => {
            let ghost all = v@->Object_0;
            let mut i: usize = 0;
            while i < members.len()
                invariant
                    i <= members@.len(),
                    v@ == JsonV::Object(all),
                    all.len() == members@.len(),
                    forall|j: int|
                        0 <= j < members@.len() ==> #[trigger] all[j] == (
                            members@[j].0@,
                            members@[j].1@,
                        ),
                    find_member(all, key@, 0) == find_member(all, key@, i as int),
                decreases members@.len() - i,
            {
                assert(all[i as int] == (members@[i as int].0@, members@[i as int].1@));
                if same_text(members[i].0.as_str(), key) {
                    return Some(&members[i].1);
                }
                i = i + 1;
            }
            None
        },
        _ => None,
    }
}

pub fn get_array<'a>(v: &'a Json, key: &str) -> (res: Option<&'a Vec<Json>>)
    ensures
        match res {
            Some(items) => array_member(v@, key@) == Some(json_views(items@)),
            None => array_member(v@, key@) is None,
        },
{
    match get(v, key) {
        Some(j) => match j {
            Json::Array(items) => {
                assert(j@->Array_0 =~= json_views(items@));
                Some(items)
            },
            _ => None,
        },
        None => None,
    }
}

pub fn get_number(v: &Json, key: &str) -> (res: i64)
    ensures
        res as int == number(v@, key@),
{
    match get(v, key) {
        Some(j) => match j {
            Json::Int(i) => *i,
            Json::Bool(b) => if *b {
                1
            } else {
                0
            },
            _ => 0,
        },
        None => 0,
    }
}

pub fn get_text<'a>(v: &'a Json, key: &str) -> (res: &'a str)
    ensures
        res@ == text_member(v@, key@),
{
    proof {
        reveal_strlit("");
        assert(""@ =~= Seq::<char>::empty());
    }
    match get(v, key) {
        Some(j) => match j {
            Json::Str(s) => s.as_str(),
            _ => "",
        },
        None => "",
    }
}

} // verus!
