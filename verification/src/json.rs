//! JSON values.
use crate::binary::Binary64;
use crate::text::same_text;
use serde_json::Number;
use serde_json::Value;
use vstd::prelude::*;

verus! {

/// A JSON number.
#[derive(Clone, Copy, Debug, PartialEq, Eq, Structural)]
pub enum Numeral {
    /// An integer that is not negative.
    Unsigned(u64),
    /// A negative integer.
    Negative(i64),
    /// Any other number.
    Float(Binary64),
}

/// A JSON value.
#[derive(Debug)]
pub enum Json {
    /// Nothing.
    Null,
    /// A truth value.
    Bool(bool),
    /// A number.
    Number(Numeral),
    /// A text.
    Text(String),
    /// A list.
    Array(Vec<Json>),
    /// Named members, each name once.
    Object(Vec<(String, Json)>),
}

/// What a JSON value is.
pub enum JsonModel {
    /// Nothing.
    Null,
    /// A truth value.
    Bool(bool),
    /// A number.
    Number(Numeral),
    /// A text.
    Text(Seq<char>),
    /// A list.
    Array(Seq<JsonModel>),
    /// Named members.
    Object(Seq<(Seq<char>, JsonModel)>),
}

impl Json {
    /// What the value is.
    pub open spec fn model(self) -> JsonModel
        decreases self,
    {
        match self {
            Json::Null => JsonModel::Null,
            Json::Bool(b) => JsonModel::Bool(b),
            Json::Number(n) => JsonModel::Number(n),
            Json::Text(t) => JsonModel::Text(t@),
            Json::Array(items) => JsonModel::Array(
                Seq::new(
                    items@.len(),
                    |i: int|
                        if 0 <= i < items@.len() {
                            items@[i].model()
                        } else {
                            JsonModel::Null
                        },
                ),
            ),
            Json::Object(members) => JsonModel::Object(
                Seq::new(
                    members@.len(),
                    |i: int|
                        if 0 <= i < members@.len() {
                            (members@[i].0@, members@[i].1.model())
                        } else {
                            (Seq::empty(), JsonModel::Null)
                        },
                ),
            ),
        }
    }
}

impl View for Json {
    type V = JsonModel;

    open spec fn view(&self) -> JsonModel {
        self.model()
    }
}

/// A JSON value as the parser of `serde_json` holds it.
#[verifier::external_type_specification]
#[verifier::external_body]
pub struct ExValue(Value);

/// What `serde_json::from_str` makes of a text: the value that it writes, or the
/// parser's message where it writes none.
pub uninterp spec fn parsed_json(text: Seq<char>) -> Result<JsonModel, Seq<char>>;

/// A JSON number as the parser of `serde_json` holds it.
#[verifier::external_type_specification]
#[verifier::external_body]
pub struct ExNumber(Number);

/// Takes a parsed number of `serde_json` apart by `Number::as_u64`, `as_i64` and
/// `as_f64`, which tell its three forms. Nothing is claimed of it here; what the
/// parser's result is, `parse_json` says by name.
#[verifier::external_body]
fn numeral_of(n: &Number) -> Numeral {
    match (n.as_u64(), n.as_i64()) {
        (Some(u), _) => Numeral::Unsigned(u),
        (None, Some(i)) => Numeral::Negative(i),
        (None, None) => Numeral::Float(
            Binary64 { bits: n.as_f64().unwrap_or_default().to_bits() },
        ),
    }
}

/// Takes a parsed value of `serde_json` apart: null, truth values, numbers, texts,
/// lists and objects each keep their contents. Nothing is claimed of it here; what
/// the parser's result is, `parse_json` says by name.
#[verifier::external_body]
fn json_of(value: Value) -> Json {
    match value {
        Value::Null => Json::Null,
        Value::Bool(b) => Json::Bool(b),
        Value::Number(n) => Json::Number(numeral_of(&n)),
        Value::String(t) => Json::Text(t),
        Value::Array(items) => Json::Array(items.into_iter().map(json_of).collect()),
        Value::Object(members) => Json::Object(
            members.into_iter().map(|(k, v)| (k, json_of(v))).collect(),
        ),
    }
}

/// Parses a JSON text by `serde_json::from_str`. The contract claims that the
/// result depends on the text alone: its value, or the parser's message.
#[verifier::external_body]
fn parse_json(text: &str) -> (r: Result<Json, String>)
    ensures
        match (r, parsed_json(text@)) {
            (Ok(value), Ok(model)) => value@ == model,
            (Err(message), Err(expected)) => message@ == expected,
            _ => false,
        },
{
    serde_json::from_str::<Value>(text).map(json_of).map_err(|e| e.to_string())
}

/// The value that a JSON text writes, or the parser's message.
pub fn read_json(text: &str) -> (r: Result<Json, String>)
    ensures
        match (r, parsed_json(text@)) {
            (Ok(value), Ok(model)) => value@ == model,
            (Err(message), Err(expected)) => message@ == expected,
            _ => false,
        },
{
    parse_json(text)
}

/// The value of the first member called `key`, from member `i` on.
pub open spec fn member_from(
    members: Seq<(Seq<char>, JsonModel)>,
    key: Seq<char>,
    i: nat,
) -> Option<JsonModel>
    decreases members.len() - i,
{
    if i >= members.len() {
        None
    } else if members[i as int].0 == key {
        Some(members[i as int].1)
    } else {
        member_from(members, key, i + 1)
    }
}

/// The value of the member called `key`.
pub open spec fn member(value: JsonModel, key: Seq<char>) -> Option<JsonModel> {
    match value {
        JsonModel::Object(members) => member_from(members, key, 0),
        _ => None,
    }
}

/// The text that a value is.
pub open spec fn text_in(value: JsonModel) -> Option<Seq<char>> {
    match value {
        JsonModel::Text(t) => Some(t),
        _ => None,
    }
}

/// The text of the member called `key`.
pub open spec fn member_text(value: JsonModel, key: Seq<char>) -> Option<Seq<char>> {
    match member(value, key) {
        Some(found) => text_in(found),
        None => None,
    }
}

impl Json {
    /// The value of the member called `key`.
    pub fn get(&self, key: &str) -> (r: Option<&Json>)
        ensures
            match (r, member(self@, key@)) {
                (Some(value), Some(model)) => value@ == model,
                (None, None) => true,
                _ => false,
            },
    {
        match self {
            Json::Object(members) => {
                let ghost models = self@->Object_0;
                let mut i: usize = 0;
                while i < members.len()
                    invariant
                        i <= members@.len(),
                        models.len() == members@.len(),
                        forall|j: int|
                            0 <= j < members@.len() ==> (#[trigger] models[j]) == (
                                members@[j].0@,
                                members@[j].1@,
                            ),
                        member_from(models, key@, i as nat) == member_from(models, key@, 0),
                        self@ == JsonModel::Object(models),
                    decreases members@.len() - i,
                {
                    assert(models[i as int] == (members@[i as int].0@, members@[i as int].1@));
                    if same_text(members[i].0.as_str(), key) {
                        return Some(&members[i].1);
                    }
                    i = i + 1;
                }
                None
            },
            _ => None,
        }
    }

    /// The text that the value is.
    pub fn as_text(&self) -> (r: Option<&str>)
        ensures
            match (r, text_in(self@)) {
                (Some(t), Some(model)) => t@ == model,
                (None, None) => true,
                _ => false,
            },
    {
        match self {
            Json::Text(t) => Some(t.as_str()),
            _ => None,
        }
    }

    /// The text of the member called `key`.
    pub fn get_text(&self, key: &str) -> (r: Option<&str>)
        ensures
            match (r, member_text(self@, key@)) {
                (Some(t), Some(model)) => t@ == model,
                (None, None) => true,
                _ => false,
            },
    {
        match self.get(key) {
            Some(value) => value.as_text(),
            None => None,
        }
    }

    /// Whether the value is an object.
    pub fn is_object(&self) -> (r: bool)
        ensures
            r == self@ is Object,
    {
        match self {
            Json::Object(_) => true,
            _ => false,
        }
    }

    /// The first item of a list.
    pub fn first_item(&self) -> (r: Option<&Json>)
        ensures
            match (r, self@) {
                (Some(value), JsonModel::Array(items)) => items.len() > 0 && value@ == items[0],
                (None, JsonModel::Array(items)) => items.len() == 0,
                (Some(_), _) => false,
                (None, _) => true,
            },
    {
        match self {
            Json::Array(items) => if items.len() > 0 {
                Some(&items[0])
            } else {
                None
            },
            _ => None,
        }
    }
}

// ---------------------------------------------------------------------------
// Laws
// ---------------------------------------------------------------------------
/// A member is found by its name: the first one that has it, and none where none has it
/// or the value is no object.
pub proof fn law_member_is_found_by_name(
    members: Seq<(Seq<char>, JsonModel)>,
    key: Seq<char>,
    i: int,
)
    ensures
        0 <= i < members.len() && members[i].0 == key && (forall|j: int|
            0 <= j < i ==> (#[trigger] members[j]).0 != key) ==> member(
            JsonModel::Object(members),
            key,
        ) == Some(members[i].1),
        (forall|j: int| 0 <= j < members.len() ==> (#[trigger] members[j]).0 != key) ==> member(
            JsonModel::Object(members),
            key,
        ) is None,
        forall|value: JsonModel| !(value is Object) ==> #[trigger] member(value, key) is None,
{
    if forall|j: int| 0 <= j < members.len() ==> (#[trigger] members[j]).0 != key {
        lemma_member_from(members, key, 0, members.len());
    }
    if 0 <= i < members.len() && members[i].0 == key && (forall|j: int|
        0 <= j < i ==> (#[trigger] members[j]).0 != key) {
        lemma_member_from(members, key, 0, i as nat);
    }
}

proof fn lemma_member_from(
    members: Seq<(Seq<char>, JsonModel)>,
    key: Seq<char>,
    from: nat,
    i: nat,
)
    requires
        from <= i <= members.len(),
        forall|j: int| from <= j < i ==> (#[trigger] members[j]).0 != key,
        i < members.len() ==> members[i as int].0 == key,
    ensures
        member_from(members, key, from) == if i < members.len() {
            Some(members[i as int].1)
        } else {
            None
        },
    decreases i - from,
{
    if from < i {
        assert(members[from as int].0 != key);
        lemma_member_from(members, key, from + 1, i);
    }
}

} // verus!
