//! JSON values, as `serde_json` reads and writes them.
//!
//! Reading and writing JSON text is left to `serde_json`. What it reads is
//! handed over as a [`Json`], a tree of plain values that verified code can
//! take apart. Which value a text stands for is named by [`json_parsed`],
//! and the JSON form of a string by [`json_quoted`]: the contracts of this
//! module say no more of either than that `serde_json` computes it from its
//! argument alone, failure included.

use crate::text::str_equal;
use vstd::prelude::*;
use vstd::utf8::*;

verus! {

/// `serde_json::Value`: a JSON value as `serde_json` holds it. Nothing
/// inside it is seen.
#[verifier::external_type_specification]
#[verifier::external_body]
pub struct ExJsonValue(serde_json::Value);

/// A JSON value.
#[derive(Debug)]
pub enum Json {
    Null,
    Bool(bool),
    /// A number: the number itself where it is an integer from 0 to
    /// 2^64 - 1, nothing otherwise.
    Number(Option<u64>),
    Text(String),
    Array(Vec<Json>),
    /// An object: its members, each name once.
    Object(Vec<(String, Json)>),
}

/// What a JSON value is, apart from how its parts are stored.
pub enum JsonModel {
    Null,
    Bool(bool),
    Number(Option<u64>),
    Text(Seq<char>),
    Array(Seq<JsonModel>),
    Object(Seq<(Seq<char>, JsonModel)>),
}

/// What `json` is, apart from how its parts are stored.
pub open spec fn json_model(json: Json) -> JsonModel
    decreases json, 0nat,
{
    match json {
        Json::Null => JsonModel::Null,
        Json::Bool(b) => JsonModel::Bool(b),
        Json::Number(n) => JsonModel::Number(n),
        Json::Text(s) => JsonModel::Text(s@),
        Json::Array(items) => JsonModel::Array(json_models(items@, items@.len())),
        Json::Object(members) => JsonModel::Object(json_members(members@, members@.len())),
    }
}

/// The models of the first `n` values of `items`.
pub open spec fn json_models(items: Seq<Json>, n: nat) -> Seq<JsonModel>
    decreases items, n,
{
    if n == 0 || n > items.len() {
        Seq::<JsonModel>::empty()
    } else {
        json_models(items, (n - 1) as nat).push(json_model(items[n - 1]))
    }
}

/// The models of the first `n` members of `members`.
pub open spec fn json_members(members: Seq<(String, Json)>, n: nat) -> Seq<(Seq<char>, JsonModel)>
    decreases members, n,
{
    if n == 0 || n > members.len() {
        Seq::<(Seq<char>, JsonModel)>::empty()
    } else {
        json_members(members, (n - 1) as nat).push(
            (members[n - 1].0@, json_model(members[n - 1].1)),
        )
    }
}

impl View for Json {
    type V = JsonModel;

    open spec fn view(&self) -> JsonModel {
        json_model(*self)
    }
}

/// The models of the members of an object are those of its members, one
/// for one.
pub proof fn lemma_json_members(members: Seq<(String, Json)>, n: nat)
    requires
        n <= members.len(),
    ensures
        json_members(members, n).len() == n,
        forall|i: int|
            0 <= i < n ==> #[trigger] json_members(members, n)[i] == (
                members[i].0@,
                members[i].1@,
            ),
    decreases n,
{
    if n > 0 {
        lemma_json_members(members, (n - 1) as nat);
    }
}

/// The value of the first member of `members` at or after `from` whose
/// name is `name`.
pub open spec fn member_from(members: Seq<(Seq<char>, JsonModel)>, name: Seq<char>, from: int) -> Option<
    JsonModel,
>
    decreases members.len() - from,
{
    if from < 0 || from >= members.len() {
        None
    } else if members[from].0 == name {
        Some(members[from].1)
    } else {
        member_from(members, name, from + 1)
    }
}

/// The value of the member of an object whose name is `name`.
pub open spec fn member(members: Seq<(Seq<char>, JsonModel)>, name: Seq<char>) -> Option<JsonModel> {
    member_from(members, name, 0)
}

/// The JSON value that a text stands for, as `serde_json` reads it; nothing
/// where `serde_json` rejects the text.
pub uninterp spec fn json_parsed(text: Seq<u8>) -> Option<JsonModel>;

/// The JSON value that a `serde_json::Value` holds.
pub uninterp spec fn json_value_model(value: serde_json::Value) -> JsonModel;

/// The JSON text of a string, as `serde_json` writes it: the string in
/// double quotes, with escapes where JSON asks for them; nothing where
/// `serde_json` does not write it.
pub uninterp spec fn json_quoted(s: Seq<char>) -> Option<Seq<char>>;

/// The JSON text of a string that `serde_json` writes.
pub open spec fn json_string_text(s: Seq<char>) -> Seq<char>
    recommends
        json_quoted(s) is Some,
{
    json_quoted(s)->Some_0
}

/// `serde_json::from_slice` reads a JSON text, or fails. What it gives
/// depends on the text alone.
#[verifier::external_body]
pub(crate) fn json_from_slice(text: &[u8]) -> (r: Option<serde_json::Value>)
    ensures
        r matches Some(value) ==> json_parsed(text@) == Some(json_value_model(value)),
        r is None ==> json_parsed(text@) is None,
{
    serde_json::from_slice::<serde_json::Value>(text).ok()
}

/// Hands over what a `serde_json::Value` holds, variant by variant. Of a
/// number `Number::as_u64` is kept.
#[verifier::external_body]
pub(crate) fn json_from_value(value: serde_json::Value) -> (json: Json)
    ensures
        json@ == json_value_model(value),
{
    match value {
        serde_json::Value::Null => Json::Null,
        serde_json::Value::Bool(b) => Json::Bool(b),
        serde_json::Value::Number(n) => Json::Number(n.as_u64()),
        serde_json::Value::String(s) => Json::Text(s),
        serde_json::Value::Array(a) => Json::Array(a.into_iter().map(json_from_value).collect()),
        serde_json::Value::Object(o) => Json::Object(
            o.into_iter().map(|(k, v)| (k, json_from_value(v))).collect(),
        ),
    }
}

/// Whether `bytes` hold no line feed.
pub open spec fn no_line_feed(bytes: Seq<u8>) -> bool {
    forall|i: int| 0 <= i < bytes.len() ==> bytes[i] != 10
}

/// `serde_json::to_string` on a string writes its JSON text. It writes
/// into a vector of its own, which cannot fail, and it writes every line
/// feed of the string as an escape: the text holds no line feed. What it
/// writes depends on the string alone.
#[verifier::external_body]
pub(crate) fn json_quote(s: &str) -> (r: Option<String>)
    ensures
        r is Some,
        r matches Some(text) ==> json_quoted(s@) == Some(text@),
        r matches Some(text) ==> no_line_feed(encode_utf8(text@)),
{
    serde_json::to_string(s).ok()
}

impl Json {
    /// Reads a JSON text.
    pub fn parse(text: &[u8]) -> (r: Option<Json>)
        ensures
            match json_parsed(text@) {
                Some(model) => r matches Some(json) && json@ == model,
                None => r is None,
            },
    {
        match json_from_slice(text) {
            Some(value) => Some(json_from_value(value)),
            None => None,
        }
    }

    /// The value of the member called `name`, where `self` is an object
    /// that has one.
    pub fn get(&self, name: &str) -> (r: Option<&Json>)
        ensures
            match self@ {
                JsonModel::Object(members) => match member(members, name@) {
                    Some(value) => r matches Some(found) && found@ == value,
                    None => r is None,
                },
                _ => r is None,
            },
    {
        match self {
            Json::Object(members) => {
                proof {
                    lemma_json_members(members@, members@.len());
                }
                let ghost models = json_members(members@, members@.len());
                let mut i: usize = 0;
                while i < members.len()
                    invariant
                        0 <= i <= members@.len(),
                        self@ == JsonModel::Object(models),
                        models == json_members(members@, members@.len()),
                        models.len() == members@.len(),
                        forall|k: int|
                            0 <= k < members@.len() ==> #[trigger] models[k] == (
                                members@[k].0@,
                                members@[k].1@,
                            ),
                        member(models, name@) == member_from(models, name@, i as int),
                    decreases members@.len() - i,
                {
                    proof {
                        assert(models[i as int] == (members@[i as int].0@, members@[i as int].1@));
                    }
                    if str_equal(members[i].0.as_str(), name) {
                        return Some(&members[i].1);
                    }
                    i = i + 1;
                }
                None
            },
            _ => None,
        }
    }
}

} // verus!
