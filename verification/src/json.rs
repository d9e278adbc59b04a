//! JSON documents as plain values.
//!
//! Manifests and registry answers are read leniently: what is asked of a
//! document is whether a field is there and has the expected shape. Numbers are
//! never looked at, so they are kept without their value.

use vstd::prelude::*;
use crate::text;

verus! {

/// A JSON value. The entries of an object are in the order in which the
/// document has them.
#[derive(PartialEq, Eq, Debug)]
pub enum Json {
    Null,
    Bool(bool),
    Number,
    Text(String),
    Array(Vec<Json>),
    Object(Vec<(String, Json)>),
}

/// What a `Json` stands for.
#[verifier::ext_equal]
pub enum JsonModel {
    Null,
    Bool(bool),
    Number,
    Text(Seq<char>),
    Array(Seq<JsonModel>),
    Object(Seq<(Seq<char>, JsonModel)>),
}

/// What a value stands for.
pub open spec fn json_model(json: Json) -> JsonModel
    decreases json,
{
    match json {
        Json::Null => JsonModel::Null,
        Json::Bool(value) => JsonModel::Bool(value),
        Json::Number => JsonModel::Number,
        Json::Text(value) => JsonModel::Text(value@),
        Json::Array(items) => JsonModel::Array(
            Seq::new(
                items@.len(),
                |i: int|
                    if 0 <= i < items@.len() {
                        json_model(items@[i])
                    } else {
                        JsonModel::Null
                    },
            ),
        ),
        Json::Object(entries) => JsonModel::Object(
            Seq::new(
                entries@.len(),
                |i: int|
                    if 0 <= i < entries@.len() {
                        (entries@[i].0@, json_model(entries@[i].1))
                    } else {
                        (Seq::empty(), JsonModel::Null)
                    },
            ),
        ),
    }
}

impl View for Json {
    type V = JsonModel;

    open spec fn view(&self) -> JsonModel {
        json_model(*self)
    }
}

/// The value of the first entry with a given name.
pub open spec fn entry_of(entries: Seq<(Seq<char>, JsonModel)>, name: Seq<char>) -> Option<
    JsonModel,
>
    decreases entries.len(),
{
    if entries.len() == 0 {
        None
    } else if entries[0].0 == name {
        Some(entries[0].1)
    } else {
        entry_of(entries.skip(1), name)
    }
}

/// The field of a value; only objects have fields.
pub open spec fn field(json: JsonModel, name: Seq<char>) -> Option<JsonModel> {
    match json {
        JsonModel::Object(entries) => entry_of(entries, name),
        _ => None,
    }
}

/// The text of a field that is a text.
pub open spec fn text_field(json: JsonModel, name: Seq<char>) -> Option<Seq<char>> {
    match field(json, name) {
        Some(JsonModel::Text(value)) => Some(value),
        _ => None,
    }
}

/// The entries of a field that is an object; none where it is not.
pub open spec fn object_field(json: JsonModel, name: Seq<char>) -> Seq<(Seq<char>, JsonModel)> {
    match field(json, name) {
        Some(JsonModel::Object(entries)) => entries,
        _ => Seq::empty(),
    }
}

/// The model of an object's entries.
pub open spec fn entry_models(entries: Seq<(String, Json)>) -> Seq<(Seq<char>, JsonModel)> {
    Seq::new(entries.len(), |i: int| (entries[i].0@, entries[i].1@))
}

/// The model of an array's items.
pub open spec fn item_models(items: Seq<Json>) -> Seq<JsonModel> {
    Seq::new(items.len(), |i: int| items[i]@)
}

/// What an object's model is made of.
pub proof fn lemma_object_model(entries: Vec<(String, Json)>)
    ensures
        json_model(Json::Object(entries)) == JsonModel::Object(entry_models(entries@)),
{
    let model = json_model(Json::Object(entries));
    assert(model->Object_0 =~= entry_models(entries@));
}

/// What an array's model is made of.
pub proof fn lemma_array_model(items: Vec<Json>)
    ensures
        json_model(Json::Array(items)) == JsonModel::Array(item_models(items@)),
{
    let model = json_model(Json::Array(items));
    assert(model->Array_0 =~= item_models(items@));
}

impl Json {
    /// The field with a given name; only objects have fields.
    pub fn get(&self, name: &str) -> (r: Option<&Json>)
        ensures
            r is Some <==> field(self@, name@) is Some,
            r matches Some(value) ==> field(self@, name@) == Some(value@),
    {
        match self {
            Json::Object(entries) => {
                proof {
                    lemma_object_model(*entries);
                }
                let ghost all = entry_models(entries@);
                let mut i: usize = 0;
                assert(all.skip(0) =~= all);
                while i < entries.len()
                    invariant
                        i <= entries@.len(),
                        all == entry_models(entries@),
                        entry_of(all, name@) == entry_of(all.skip(i as int), name@),
                        field(self@, name@) == entry_of(all, name@),
                    decreases entries@.len() - i,
                {
                    assert(all.skip(i as int)[0] == all[i as int]);
                    if text::same_text(entries[i].0.as_str(), name) {
                        return Some(&entries[i].1);
                    }
                    assert(all.skip(i as int).skip(1) =~= all.skip(i + 1));
                    i += 1;
                }
                None
            },
            _ => None,
        }
    }

    /// The text, where this is one.
    pub fn as_text(&self) -> (r: Option<&String>)
        ensures
            match r {
                Some(value) => self@ == JsonModel::Text(value@),
                None => !(self@ is Text),
            },
    {
        match self {
            Json::Text(value) => Some(value),
            _ => None,
        }
    }

    /// The entries, where this is an object.
    pub fn as_object(&self) -> (r: Option<&Vec<(String, Json)>>)
        ensures
            match r {
                Some(entries) => self@ == JsonModel::Object(entry_models(entries@)),
                None => !(self@ is Object),
            },
    {
        match self {
            Json::Object(entries) => {
                proof {
                    lemma_object_model(*entries);
                }
                Some(entries)
            },
            _ => None,
        }
    }

    /// The text of a field that is a text.
    pub fn get_text(&self, name: &str) -> (r: Option<&String>)
        ensures
            match r {
                Some(value) => text_field(self@, name@) == Some(value@),
                None => text_field(self@, name@) is None,
            },
    {
        match self.get(name) {
            Some(value) => value.as_text(),
            None => None,
        }
    }

    /// The entries of a field that is an object.
    pub fn get_object(&self, name: &str) -> (r: Option<&Vec<(String, Json)>>)
        ensures
            match r {
                Some(entries) => object_field(self@, name@) == entry_models(entries@),
                None => object_field(self@, name@) == Seq::<(Seq<char>, JsonModel)>::empty(),
            },
    {
        match self.get(name) {
            Some(value) => value.as_object(),
            None => None,
        }
    }
}

/// Whether a value is an object that has an entry of a name, with a given value and
/// with no other.
pub open spec fn says(value: JsonModel, name: Seq<char>, given: JsonModel) -> bool {
    &&& value is Object
    &&& exists|i: int|
        0 <= i < value->Object_0.len() && #[trigger] value->Object_0[i] == (name, given)
    &&& forall|i: int|
        0 <= i < value->Object_0.len() && (#[trigger] value->Object_0[i]).0 == name
            ==> value->Object_0[i].1 == given
}

/// Whether a value has no entry of a name.
pub open spec fn is_silent(value: JsonModel, name: Seq<char>) -> bool {
    value is Object ==> forall|i: int|
        0 <= i < value->Object_0.len() ==> (#[trigger] value->Object_0[i]).0 != name
}

/// A field is the value of an entry of that name, the first one; there is none only
/// where no entry has the name.
pub proof fn fields_are_entries(value: JsonModel, name: Seq<char>)
    ensures
        field(value, name) is None <==> is_silent(value, name),
        field(value, name) matches Some(given) ==> value is Object && exists|i: int|
            0 <= i < value->Object_0.len() && #[trigger] value->Object_0[i] == (name, given),
        forall|given: JsonModel| #[trigger]
            says(value, name, given) ==> field(value, name) == Some(given),
{
    if let JsonModel::Object(entries) = value {
        lemma_entry_of(entries, name);
        if let Some(i) = first_named(entries, name) {
            assert(entries[i].0 == name);
            assert(entries[i] == (name, entries[i].1));
        }
    }
}

spec fn first_named(entries: Seq<(Seq<char>, JsonModel)>, name: Seq<char>) -> Option<int> {
    if exists|i: int| 0 <= i < entries.len() && (#[trigger] entries[i]).0 == name {
        Some(
            choose|i: int|
                0 <= i < entries.len() && (#[trigger] entries[i]).0 == name && entry_of(
                    entries,
                    name,
                ) == Some(entries[i].1),
        )
    } else {
        None
    }
}

proof fn lemma_entry_of(entries: Seq<(Seq<char>, JsonModel)>, name: Seq<char>)
    ensures
        entry_of(entries, name) is None <==> forall|i: int|
            0 <= i < entries.len() ==> (#[trigger] entries[i]).0 != name,
        entry_of(entries, name) matches Some(given) ==> exists|i: int|
            0 <= i < entries.len() && (#[trigger] entries[i]).0 == name && entries[i].1 == given,
    decreases entries.len(),
{
    if entries.len() > 0 && entries[0].0 != name {
        let rest = entries.skip(1);
        lemma_entry_of(rest, name);
        assert forall|i: int| 0 < i < entries.len() implies #[trigger] entries[i] == rest[i - 1] by {}
        if entry_of(entries, name) is None {
            assert forall|i: int| 0 <= i < entries.len() implies (#[trigger] entries[i]).0
                != name by {
                if i > 0 {
                    assert(rest[i - 1].0 != name);
                }
            }
        } else {
            let i = choose|i: int|
                0 <= i < rest.len() && (#[trigger] rest[i]).0 == name && rest[i].1 == entry_of(
                    rest,
                    name,
                )->0;
            assert(entries[i + 1].0 == name);
        }
    }
}

// ---------------------------------------------------------------------------
// Reading documents.

/// What `serde_json::from_str` makes of a text: a value, or its complaint.
pub uninterp spec fn json_in_text(document: Seq<char>) -> Result<JsonModel, Seq<char>>;

/// What `serde_json::from_slice` makes of some bytes: a value, or its complaint.
pub uninterp spec fn json_in_bytes(document: Seq<u8>) -> Result<JsonModel, Seq<char>>;

/// A value of the `serde_json` crate.
#[verifier::external_type_specification]
#[verifier::external_body]
pub struct ExValue(serde_json::Value);

/// What a `serde_json::Value` holds.
pub uninterp spec fn value_model(value: serde_json::Value) -> JsonModel;

/// Takes a `serde_json::Value` apart, variant by variant, without looking at
/// what it holds. Numbers lose their value.
#[verifier::external_body]
fn plain(value: serde_json::Value) -> (r: Json)
    ensures
        r@ == value_model(value),
{
    match value {
        serde_json::Value::Null => Json::Null,
        serde_json::Value::Bool(value) => Json::Bool(value),
        serde_json::Value::Number(_) => Json::Number,
        serde_json::Value::String(value) => Json::Text(value),
        serde_json::Value::Array(items) => Json::Array(items.into_iter().map(plain).collect()),
        serde_json::Value::Object(entries) => {
            Json::Object(entries.into_iter().map(|(name, value)| (name, plain(value))).collect())
        },
    }
}

/// Whether two readings of a document are the same.
pub open spec fn same_reading(
    reading: Result<serde_json::Value, String>,
    model: Result<JsonModel, Seq<char>>,
) -> bool {
    match reading {
        Ok(value) => model == Ok::<JsonModel, Seq<char>>(value_model(value)),
        Err(message) => model == Err::<JsonModel, Seq<char>>(message@),
    }
}

/// `serde_json::from_str` on a text: the value that it holds, or the message of
/// the error. Both depend on the text alone.
#[verifier::external_body]
fn from_str(document: &str) -> (r: Result<serde_json::Value, String>)
    ensures
        same_reading(r, json_in_text(document@)),
{
    serde_json::from_str(document).map_err(|error| error.to_string())
}

/// `serde_json::from_slice` on bytes: the value that they hold, or the message of
/// the error. Both depend on the bytes alone.
#[verifier::external_body]
fn from_slice(document: &[u8]) -> (r: Result<serde_json::Value, String>)
    ensures
        same_reading(r, json_in_bytes(document@)),
{
    serde_json::from_slice(document).map_err(|error| error.to_string())
}

/// Whether a reading is the given one.
pub open spec fn reads(
    reading: Result<Json, String>,
    model: Result<JsonModel, Seq<char>>,
) -> bool {
    match reading {
        Ok(value) => model == Ok::<JsonModel, Seq<char>>(value@),
        Err(message) => model == Err::<JsonModel, Seq<char>>(message@),
    }
}

/// Reads a document from text.
pub fn parse_text(document: &str) -> (r: Result<Json, String>)
    ensures
        reads(r, json_in_text(document@)),
{
    match from_str(document) {
        Ok(value) => Ok(plain(value)),
        Err(message) => Err(message),
    }
}

/// Reads a document from bytes.
pub fn parse_bytes(document: &[u8]) -> (r: Result<Json, String>)
    ensures
        reads(r, json_in_bytes(document@)),
{
    match from_slice(document) {
        Ok(value) => Ok(plain(value)),
        Err(message) => Err(message),
    }
}

} // verus!
