//! A JSON document model: the values that locale files hold.
use vstd::prelude::*;

verus! {

/// A JSON value.  Object members keep their order; a number is held as text.
pub enum JsonValue {
    Null,
    Bool(bool),
    /// A number, as text (for a parsed document, the text `serde_json`
    /// writes for the number it read, e.g. `1.5` for `1.50`).
    Number(String),
    String(String),
    Array(Vec<JsonValue>),
    /// Members in order; a well-formed object names each key once.
    Object(Vec<(String, JsonValue)>),
}

/// Mathematical model of [`JsonValue`].
pub enum JsonView {
    Null,
    Bool(bool),
    Number(Seq<char>),
    String(Seq<char>),
    Array(Seq<JsonView>),
    Object(Seq<(Seq<char>, JsonView)>),
}

/// The model of a JSON value.
pub open spec fn json_view(v: JsonValue) -> JsonView
    decreases v,
{
    match v {
        JsonValue::Null => JsonView::Null,
        JsonValue::Bool(b) => JsonView::Bool(b),
        JsonValue::Number(n) => JsonView::Number(n@),
        JsonValue::String(s) => JsonView::String(s@),
        JsonValue::Array(items) => JsonView::Array(
            Seq::new(
                items@.len(),
                |i: int|
                    if 0 <= i < items@.len() {
                        json_view(items@[i])
                    } else {
                        JsonView::Null
                    },
            ),
        ),
        JsonValue::Object(entries) => JsonView::Object(
            Seq::new(
                entries@.len(),
                |i: int|
                    if 0 <= i < entries@.len() {
                        (entries@[i].0@, json_view(entries@[i].1))
                    } else {
                        (Seq::empty(), JsonView::Null)
                    },
            ),
        ),
    }
}

/// The models of object members.
pub open spec fn members_view(es: Seq<(String, JsonValue)>) -> Seq<(Seq<char>, JsonView)> {
    Seq::new(
        es.len(),
        |i: int|
            if 0 <= i < es.len() {
                (es[i].0@, json_view(es[i].1))
            } else {
                (Seq::empty(), JsonView::Null)
            },
    )
}

/// The model of an object is the object of its members' models.
pub proof fn lemma_object_view(entries: Vec<(String, JsonValue)>)
    ensures
        json_view(JsonValue::Object(entries)) == JsonView::Object(members_view(entries@)),
{
    assert(members_view(entries@) =~= match json_view(JsonValue::Object(entries)) {
        JsonView::Object(ms) => ms,
        _ => Seq::empty(),
    });
}

/// Whether `v` is an object without members.
pub open spec fn is_empty_object_view(v: JsonView) -> bool {
    match v {
        JsonView::Object(ms) => ms.len() == 0,
        _ => false,
    }
}

/// Whether `v` is an object without members.
pub fn is_empty_object(v: &JsonValue) -> (r: bool)
    ensures
        r == is_empty_object_view(json_view(*v)),
{
    match v {
        JsonValue::Object(entries) => {
            proof {
                lemma_object_view(*entries);
            }
            entries.len() == 0
        },
        _ => false,
    }
}

// ---------------------------------------------------------------------------
// JSON text, through `serde_json`
// ---------------------------------------------------------------------------

#[verifier::external_type_specification]
#[verifier::external_body]
pub struct ExSerdeValue(serde_json::Value);

/// The document that `serde_json` reads from `text` (as `serde_json::Value`,
/// whose objects keep one member per name, in name order), or `None` where
/// `serde_json` refuses the text.
pub uninterp spec fn spec_parse_json(text: Seq<char>) -> Option<JsonView>;

/// The text that `serde_json::to_string_pretty` writes for `v`, or `None`
/// where it fails.
pub uninterp spec fn spec_render_json(v: JsonView) -> Option<Seq<char>>;

/// The library model of a `serde_json::Value`, converted one for one
/// (a number becomes the text `serde_json` writes for it); the conversion
/// half of [`parse_json`].
#[verifier::external_body]
fn value_to_json(value: &serde_json::Value) -> JsonValue {
    match value {
        serde_json::Value::Null => JsonValue::Null,
        serde_json::Value::Bool(b) => JsonValue::Bool(*b),
        serde_json::Value::Number(n) => JsonValue::Number(n.to_string()),
        serde_json::Value::String(s) => JsonValue::String(s.clone()),
        serde_json::Value::Array(items) => JsonValue::Array(items.iter().map(value_to_json).collect()),
        serde_json::Value::Object(map) => JsonValue::Object(
            map.iter().map(|(k, v)| (k.clone(), value_to_json(v))).collect(),
        ),
    }
}

/// The `serde_json::Value` of a library JSON value, converted one for one (a
/// number whose text `serde_json` does not read as a number becomes a
/// string); the conversion half of [`render_json`].
#[verifier::external_body]
fn json_to_value(value: &JsonValue) -> serde_json::Value {
    match value {
        JsonValue::Null => serde_json::Value::Null,
        JsonValue::Bool(b) => serde_json::Value::Bool(*b),
        JsonValue::Number(text) => match text.parse::<serde_json::Number>() {
            Ok(n) => serde_json::Value::Number(n),
            Err(_) => serde_json::Value::String(text.clone()),
        },
        JsonValue::String(s) => serde_json::Value::String(s.clone()),
        JsonValue::Array(items) => serde_json::Value::Array(items.iter().map(json_to_value).collect()),
        JsonValue::Object(members) => serde_json::Value::Object(
            members.iter().map(|(k, v)| (k.clone(), json_to_value(v))).collect(),
        ),
    }
}

/// Reads a JSON document with `serde_json::from_str` into a
/// `serde_json::Value`.  Claimed: the result is the document that
/// [`spec_parse_json`] names for `text`, and `None` exactly where
/// `serde_json` refuses the text.  Nothing is claimed of what that document
/// is.
#[verifier::external_body]
pub fn parse_json(text: &str) -> (r: Option<JsonValue>)
    ensures
        match r {
            Some(v) => spec_parse_json(text@) == Some(json_view(v)),
            None => spec_parse_json(text@) is None,
        },
{
    match serde_json::from_str::<serde_json::Value>(text) {
        Ok(value) => Some(value_to_json(&value)),
        Err(_) => None,
    }
}

/// Writes a JSON document with `serde_json::to_string_pretty`.  Claimed:
/// the result is the text that [`spec_render_json`] names for the document
/// (so equal documents give equal text), `None` where `serde_json` fails.
#[verifier::external_body]
pub fn render_json(v: &JsonValue) -> (r: Option<String>)
    ensures
        match r {
            Some(s) => spec_render_json(json_view(*v)) == Some(s@),
            None => spec_render_json(json_view(*v)) is None,
        },
{
    match serde_json::to_string_pretty(&json_to_value(v)) {
        Ok(text) => Some(text),
        Err(_) => None,
    }
}

} // verus!
