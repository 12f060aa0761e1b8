//! JSON documents as plain trees.

use vstd::prelude::*;

use crate::error::{MirrorError, MirrorResult};
use crate::text::same_text;

verus! {

/// `serde_json::Value`, carried from the parse to where it is canonicalized or verified.
#[verifier::external_type_specification]
#[verifier::external_body]
pub struct ExValue(serde_json::Value);

/// A JSON document. A number keeps its shortest text and, where it is one, its `u64` value;
/// the members of an object keep distinct names.
#[derive(Debug)]
pub enum Json {
    /// `null`.
    Null,
    /// `true` or `false`.
    Bool(bool),
    /// A number.
    Number {
        /// Its text.
        text: String,
        /// Its value, where it is an unsigned 64-bit integer.
        unsigned: Option<u64>,
    },
    /// A string.
    Text(String),
    /// An array.
    Array(Vec<Json>),
    /// An object, member by member.
    Object(Vec<(String, Json)>),
}

/// A [`Json`] document with its texts and lists as sequences.
pub ghost enum JsonTree {
    Null,
    Bool(bool),
    Number { text: Seq<char>, unsigned: Option<u64> },
    Text(Seq<char>),
    Array(Seq<JsonTree>),
    Object(Seq<(Seq<char>, JsonTree)>),
}

impl View for Json {
    type V = JsonTree;

    open spec fn view(&self) -> JsonTree {
        tree_of(*self)
    }
}

/// The tree of a document.
pub open spec fn tree_of(json: Json) -> JsonTree
    decreases json,
{
    match json {
        Json::Null => JsonTree::Null,
        Json::Bool(flag) => JsonTree::Bool(flag),
        Json::Number { text, unsigned } => JsonTree::Number { text: text@, unsigned },
        Json::Text(text) => JsonTree::Text(text@),
        Json::Array(items) => JsonTree::Array(
            Seq::new(
                items@.len(),
                |i: int|
                    if 0 <= i < items@.len() {
                        tree_of(items@[i])
                    } else {
                        JsonTree::Null
                    },
            ),
        ),
        Json::Object(members) => JsonTree::Object(
            Seq::new(
                members@.len(),
                |i: int|
                    if 0 <= i < members@.len() {
                        (members@[i].0@, tree_of(members@[i].1))
                    } else {
                        (Seq::empty(), JsonTree::Null)
                    },
            ),
        ),
    }
}

/// The tree a parsed value holds.
pub uninterp spec fn json_tree(value: serde_json::Value) -> JsonTree;

/// The tree of the JSON document a byte string holds, if it holds one.
pub uninterp spec fn json_parsed(bytes: Seq<u8>) -> Option<JsonTree>;

/// `serde_json::from_slice` into a `serde_json::Value`, named by [`json_parsed`].
#[verifier::external_body]
pub(crate) fn parse_value(bytes: &[u8]) -> (value: Result<serde_json::Value, serde_json::Error>)
    ensures
        match value {
            Ok(v) => json_parsed(bytes@) == Some(json_tree(v)),
            Err(_) => json_parsed(bytes@) is None,
        },
{
    serde_json::from_slice(bytes)
}

/// A `serde_json::Value` as a [`Json`] document: one variant for one, a number by its
/// `to_string` and `as_u64`, the members of an object in the order `serde_json` walks them.
#[verifier::external_body]
pub(crate) fn json_of(value: &serde_json::Value) -> (json: Json)
    ensures
        json@ == json_tree(*value),
{
    match value {
        serde_json::Value::Null => Json::Null,
        serde_json::Value::Bool(b) => Json::Bool(*b),
        serde_json::Value::Number(n) => Json::Number { text: n.to_string(), unsigned: n.as_u64() },
        serde_json::Value::String(text) => Json::Text(text.clone()),
        serde_json::Value::Array(items) => Json::Array(items.iter().map(json_of).collect()),
        serde_json::Value::Object(members) => Json::Object(
            members.iter().map(|(name, member)| (name.clone(), json_of(member))).collect(),
        ),
    }
}

/// Parse `bytes` as a JSON document.
pub(crate) fn parse_json(bytes: &[u8]) -> (value: MirrorResult<serde_json::Value>)
    ensures
        match value {
            Ok(v) => json_parsed(bytes@) == Some(json_tree(v)),
            Err(error) => json_parsed(bytes@) is None && error is Json,
        },
{
    match parse_value(bytes) {
        Ok(value) => Ok(value),
        Err(error) => Err(MirrorError::Json(error)),
    }
}

/// The first member of `members` from `from` on that is named `name`.
pub open spec fn member_from(
    members: Seq<(Seq<char>, JsonTree)>,
    name: Seq<char>,
    from: int,
) -> Option<JsonTree>
    decreases members.len() - from,
{
    if from < 0 || from >= members.len() {
        None
    } else if members[from].0 == name {
        Some(members[from].1)
    } else {
        member_from(members, name, from + 1)
    }
}

impl JsonTree {
    /// The member of an object that is named `name`.
    pub open spec fn member(self, name: Seq<char>) -> Option<JsonTree> {
        match self {
            JsonTree::Object(members) => member_from(members, name, 0),
            _ => None,
        }
    }

    /// The string a member named `name` holds, where it holds one.
    pub open spec fn text_member(self, name: Seq<char>) -> Option<Seq<char>> {
        match self.member(name) {
            Some(JsonTree::Text(text)) => Some(text),
            _ => None,
        }
    }
}

impl Json {
    /// The member of an object that is named `name`.
    pub fn member(&self, name: &str) -> (found: Option<&Json>)
        ensures
            match found {
                Some(json) => self@.member(name@) == Some(json@),
                None => self@.member(name@) is None,
            },
    {
        match self {
            Json::Object(members) => {
                let ghost listed = self@->Object_0;
                let mut i: usize = 0;
                while i < members.len()
                    invariant
                        i <= members@.len(),
                        *self == Json::Object(*members),
                        listed == self@->Object_0,
                        self@.member(name@) == member_from(listed, name@, i as int),
                    decreases members.len() - i,
                {
                    assert(listed[i as int] == (members@[i as int].0@, members@[i as int].1@));
                    if same_text(members[i].0.as_str(), name) {
                        return Some(&members[i].1);
                    }
                    i += 1;
                }
                None
            },
            _ => None,
        }
    }

    /// The string a member named `name` holds, where it holds one.
    pub fn text_member(&self, name: &str) -> (found: Option<&String>)
        ensures
            match found {
                Some(text) => self@.text_member(name@) == Some(text@),
                None => self@.text_member(name@) is None,
            },
    {
        match self.member(name) {
            Some(Json::Text(text)) => Some(text),
            _ => None,
        }
    }
}

/// A member is found wherever there is one of the name, and it is the first.
proof fn a_member_is_found(members: Seq<(Seq<char>, JsonTree)>, name: Seq<char>, from: int)
    requires
        0 <= from <= members.len(),
    ensures
        match member_from(members, name, from) {
            Some(value) => exists|i: int|
                from <= i < members.len() && #[trigger] members[i] == (name, value) && forall|
                    j: int,
                |
                    from <= j < i ==> (#[trigger] members[j]).0 != name,
            None => forall|i: int| from <= i < members.len() ==> (#[trigger] members[i]).0 != name,
        },
    decreases members.len() - from,
{
    if from < members.len() {
        a_member_is_found(members, name, from + 1);
        if members[from].0 == name {
            assert(members[from] == (name, members[from].1));
        } else if let Some(value) = member_from(members, name, from + 1) {
            let i = choose|i: int|
                from + 1 <= i < members.len() && #[trigger] members[i] == (name, value) && forall|
                    j: int,
                |
                    from + 1 <= j < i ==> (#[trigger] members[j]).0 != name;
            assert(members[i] == (name, value));
        }
    }
}

/// An object has a member of a name exactly where one is listed, and it is the first so named; no
/// other document has any. Its text is what it holds where it is a string, and nothing else.
pub proof fn a_member_is_the_first_of_its_name(document: JsonTree, name: Seq<char>)
    ensures
        match document {
            JsonTree::Object(members) => match document.member(name) {
                Some(value) => exists|i: int|
                    0 <= i < members.len() && #[trigger] members[i] == (name, value) && forall|
                        j: int,
                    |
                        0 <= j < i ==> (#[trigger] members[j]).0 != name,
                None => forall|i: int| 0 <= i < members.len() ==> (#[trigger] members[i]).0 != name,
            },
            _ => document.member(name) is None,
        },
        match document.member(name) {
            Some(JsonTree::Text(text)) => document.text_member(name) == Some(text),
            _ => document.text_member(name) is None,
        },
{
    if let JsonTree::Object(members) = document {
        a_member_is_found(members, name, 0);
    }
}

} // verus!
