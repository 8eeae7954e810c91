//! JSON values as plain data.

use crate::text;
use vstd::prelude::*;

verus! {

/// A JSON value.
#[derive(Debug)]
pub enum JsonValue {
    Null,
    Bool(bool),
    /// A number, written out.
    Number(String),
    Text(String),
    Array(Vec<JsonValue>),
    Object(Vec<JsonField>),
}

/// A member of a JSON object.
#[derive(Debug)]
pub struct JsonField {
    pub key: String,
    pub value: JsonValue,
}

pub ghost enum JsonView {
    Null,
    Bool(bool),
    Number(Seq<char>),
    Text(Seq<char>),
    Array(Seq<JsonView>),
    Object(Seq<(Seq<char>, JsonView)>),
}

/// What a value says.
pub open spec fn json_view(value: JsonValue) -> JsonView
    decreases value,
{
    match value {
        JsonValue::Null => JsonView::Null,
        JsonValue::Bool(b) => JsonView::Bool(b),
        JsonValue::Number(n) => JsonView::Number(n@),
        JsonValue::Text(s) => JsonView::Text(s@),
        JsonValue::Array(items) => JsonView::Array(json_views(items@)),
        JsonValue::Object(fields) => JsonView::Object(field_views(fields@)),
    }
}

/// What the items of an array say.
pub open spec fn json_views(items: Seq<JsonValue>) -> Seq<JsonView>
    decreases items,
{
    if items.len() == 0 {
        Seq::empty()
    } else {
        json_views(items.drop_last()).push(json_view(items[items.len() - 1]))
    }
}

/// What the members of an object say.
pub open spec fn field_views(fields: Seq<JsonField>) -> Seq<(Seq<char>, JsonView)>
    decreases fields,
{
    if fields.len() == 0 {
        Seq::empty()
    } else {
        let last = fields[fields.len() - 1];
        field_views(fields.drop_last()).push((last.key@, json_view(last.value)))
    }
}

impl View for JsonValue {
    type V = JsonView;

    open spec fn view(&self) -> JsonView {
        json_view(*self)
    }
}

pub proof fn lemma_json_views(items: Seq<JsonValue>)
    ensures
        json_views(items).len() == items.len(),
        forall|i: int|
            0 <= i < items.len() ==> #[trigger] json_views(items)[i] == json_view(items[i]),
    decreases items.len(),
{
    if items.len() > 0 {
        lemma_json_views(items.drop_last());
    }
}

pub proof fn lemma_field_views(fields: Seq<JsonField>)
    ensures
        field_views(fields).len() == fields.len(),
        forall|i: int|
            0 <= i < fields.len() ==> #[trigger] field_views(fields)[i] == (
                fields[i].key@,
                json_view(fields[i].value),
            ),
    decreases fields.len(),
{
    if fields.len() > 0 {
        lemma_field_views(fields.drop_last());
    }
}

/// The first member with this key, from the member at `i` on.
pub open spec fn member_from(
    fields: Seq<(Seq<char>, JsonView)>,
    key: Seq<char>,
    i: int,
) -> Option<JsonView>
    decreases fields.len() - i,
{
    if i < 0 || i >= fields.len() {
        None
    } else if fields[i].0 == key {
        Some(fields[i].1)
    } else {
        member_from(fields, key, i + 1)
    }
}

/// The member of an object with this key.
pub open spec fn member(value: JsonView, key: Seq<char>) -> Option<JsonView> {
    match value {
        JsonView::Object(fields) => member_from(fields, key, 0),
        _ => None,
    }
}

/// The member of the member of an object.
pub open spec fn inner_member(value: JsonView, outer: Seq<char>, inner: Seq<char>) -> Option<
    JsonView,
> {
    match member(value, outer) {
        Some(found) => member(found, inner),
        None => None,
    }
}

/// The text of a value that is one.
pub open spec fn text_of(value: Option<JsonView>) -> Option<Seq<char>> {
    match value {
        Some(JsonView::Text(s)) => Some(s),
        _ => None,
    }
}

/// What an optional value says.
pub open spec fn optional_view(value: Option<&JsonValue>) -> Option<JsonView> {
    match value {
        Some(v) => Some(json_view(*v)),
        None => None,
    }
}

impl JsonValue {
    /// The member with this key, where the value is an object that has one.
    pub fn get(&self, key: &str) -> (r: Option<&JsonValue>)
        ensures
            optional_view(r) == member(self@, key@),
    {
        match self {
            JsonValue::Object(fields) => {
                proof {
                    lemma_field_views(fields@);
                }
                let mut i: usize = 0;
                while i < fields.len()
                    invariant
                        i <= fields@.len(),
                        self@ == JsonView::Object(field_views(fields@)),
                        field_views(fields@).len() == fields@.len(),
                        forall|k: int|
                            0 <= k < fields@.len() ==> #[trigger] field_views(fields@)[k] == (
                                fields@[k].key@,
                                json_view(fields@[k].value),
                            ),
                        member_from(field_views(fields@), key@, 0) == member_from(
                            field_views(fields@),
                            key@,
                            i as int,
                        ),
                    decreases fields@.len() - i,
                {
                    assert(field_views(fields@)[i as int].0 == fields@[i as int].key@);
                    if text::same_text(fields[i].key.as_str(), key) {
                        return Some(&fields[i].value);
                    }
                    i = i + 1;
                }
                None
            },
            _ => None,
        }
    }

    /// The member of the member with these keys.
    pub fn get_inner(&self, outer: &str, inner: &str) -> (r: Option<&JsonValue>)
        ensures
            optional_view(r) == inner_member(self@, outer@, inner@),
    {
        match self.get(outer) {
            Some(found) => found.get(inner),
            None => None,
        }
    }

    /// The text, where the value is one.
    pub fn as_str(&self) -> (r: Option<&str>)
        ensures
            text::optional_str(r) == text_of(Some(self@)),
    {
        match self {
            JsonValue::Text(s) => Some(s.as_str()),
            _ => None,
        }
    }
}

/// The text of a member, where it is one.
pub fn member_text<'a>(value: &'a JsonValue, key: &str) -> (r: Option<&'a str>)
    ensures
        text::optional_str(r) == text_of(member(value@, key@)),
{
    match value.get(key) {
        Some(found) => found.as_str(),
        None => None,
    }
}

/// Whether a value is just this text.
pub fn is_text(value: Option<&JsonValue>, expected: &str) -> (r: bool)
    ensures
        r == (text_of(optional_view(value)) == Some(expected@)),
{
    match value {
        Some(found) => match found.as_str() {
            Some(s) => text::same_text(s, expected),
            None => false,
        },
        None => false,
    }
}

// ---------------------------------------------------------------------------
// Reading
// ---------------------------------------------------------------------------

#[verifier::external_type_specification]
#[verifier::external_body]
pub struct ExValue(serde_json::Value);

/// What a `serde_json::Value` holds.
pub uninterp spec fn value_contents(value: serde_json::Value) -> JsonView;

/// What a text reads as JSON: a value, or what is wrong with the text.
pub uninterp spec fn json_reading(s: Seq<char>) -> Result<JsonView, Seq<char>>;

/// Reads a text as JSON with `serde_json::from_str`. The value that comes back,
/// or the message of the error, is a function of the text.
#[verifier::external_body]
fn read_value(s: &str) -> (r: Result<serde_json::Value, String>)
    ensures
        match r {
            Ok(value) => json_reading(s@) == Ok::<JsonView, Seq<char>>(value_contents(value)),
            Err(why) => json_reading(s@) == Err::<JsonView, Seq<char>>(why@),
        },
{
    serde_json::from_str::<serde_json::Value>(s).map_err(|error| error.to_string())
}

/// One layer of a `serde_json::Value`.
pub enum JsonLayer {
    Null,
    Bool(bool),
    Number(String),
    Text(String),
    Array(Vec<serde_json::Value>),
    Object(Vec<(String, serde_json::Value)>),
}

/// What a layer and everything below it holds.
pub open spec fn layer_contents(layer: JsonLayer) -> JsonView {
    match layer {
        JsonLayer::Null => JsonView::Null,
        JsonLayer::Bool(b) => JsonView::Bool(b),
        JsonLayer::Number(n) => JsonView::Number(n@),
        JsonLayer::Text(s) => JsonView::Text(s@),
        JsonLayer::Array(items) => JsonView::Array(
            Seq::new(items@.len(), |i: int| value_contents(items@[i])),
        ),
        JsonLayer::Object(fields) => JsonView::Object(
            Seq::new(fields@.len(), |i: int| (fields@[i].0@, value_contents(fields@[i].1))),
        ),
    }
}

/// Opens the outermost layer of a `serde_json::Value`, which is an enum of just
/// these variants. The members of an object come in the order of its map.
#[verifier::external_body]
fn open_layer(value: serde_json::Value) -> (r: JsonLayer)
    ensures
        layer_contents(r) == value_contents(value),
{
    match value {
        serde_json::Value::Null => JsonLayer::Null,
        serde_json::Value::Bool(b) => JsonLayer::Bool(b),
        serde_json::Value::Number(n) => JsonLayer::Number(n.to_string()),
        serde_json::Value::String(s) => JsonLayer::Text(s),
        serde_json::Value::Array(items) => JsonLayer::Array(items),
        serde_json::Value::Object(fields) => JsonLayer::Object(fields.into_iter().collect()),
    }
}

/// Copies everything out of a `serde_json::Value`.
fn plain_value(value: serde_json::Value) -> (r: JsonValue)
    ensures
        r@ == value_contents(value),
    decreases value_contents(value),
{
    let ghost contents = value_contents(value);
    match open_layer(value) {
        JsonLayer::Null => JsonValue::Null,
        JsonLayer::Bool(b) => JsonValue::Bool(b),
        JsonLayer::Number(n) => JsonValue::Number(n),
        JsonLayer::Text(s) => JsonValue::Text(s),
        JsonLayer::Array(items) => {
            let ghost all = items@;
            let ghost inside = contents->Array_0;
            let mut r: Vec<JsonValue> = Vec::new();
            for item in iter: items
                invariant
                    iter.seq() == all,
                    contents == JsonView::Array(inside),
                    contents == value_contents(value),
                    inside == Seq::new(all.len(), |i: int| value_contents(all[i])),
                    r@.len() == iter.index(),
                    forall|k: int|
                        0 <= k < r@.len() ==> json_view(#[trigger] r@[k]) == inside[k],
            {
                assert(value_contents(item) == inside[iter.index()]);
                assert(decreases_to!(contents => contents->Array_0));
                assert(decreases_to!(inside => inside[iter.index()]));
                r.push(plain_value(item));
            }
            proof {
                lemma_json_views(r@);
                assert(json_views(r@) =~= inside);
            }
            JsonValue::Array(r)
        },
        JsonLayer::Object(fields) => {
            let ghost all = fields@;
            let ghost inside = contents->Object_0;
            let mut r: Vec<JsonField> = Vec::new();
            for field in iter: fields
                invariant
                    iter.seq() == all,
                    contents == JsonView::Object(inside),
                    contents == value_contents(value),
                    inside == Seq::new(
                        all.len(),
                        |i: int| (all[i].0@, value_contents(all[i].1)),
                    ),
                    r@.len() == iter.index(),
                    forall|k: int|
                        0 <= k < r@.len() ==> (r@[k].key@, json_view((#[trigger] r@[k]).value))
                            == inside[k],
            {
                let ghost at = iter.index();
                assert(value_contents(field.1) == inside[at].1);
                assert(field.0@ == inside[at].0);
                assert(decreases_to!(contents => contents->Object_0));
                assert(decreases_to!(inside => inside[at]));
                assert(decreases_to!(inside[at] => inside[at].1));
                r.push(JsonField { key: field.0, value: plain_value(field.1) });
            }
            proof {
                lemma_field_views(r@);
                assert(field_views(r@) =~= inside);
            }
            JsonValue::Object(r)
        },
    }
}

/// What reading a text as JSON says.
pub open spec fn reading_of(r: Result<JsonValue, String>) -> Result<JsonView, Seq<char>> {
    match r {
        Ok(value) => Ok(value@),
        Err(why) => Err(why@),
    }
}

/// Reads a text as JSON.
pub fn read_json(s: &str) -> (r: Result<JsonValue, String>)
    ensures
        reading_of(r) == json_reading(s@),
{
    match read_value(s) {
        Ok(value) => Ok(plain_value(value)),
        Err(why) => Err(why),
    }
}

proof fn lemma_first_member(fields: Seq<(Seq<char>, JsonView)>, key: Seq<char>, i: int)
    requires
        0 <= i <= fields.len(),
    ensures
        member_from(fields, key, i) matches Some(value) ==> exists|k: int|
            i <= k < fields.len() && #[trigger] fields[k] == (key, value) && forall|j: int|
                i <= j < k ==> (#[trigger] fields[j]).0 != key,
        member_from(fields, key, i) is None ==> forall|k: int|
            i <= k < fields.len() ==> (#[trigger] fields[k]).0 != key,
    decreases fields.len() - i,
{
    if i < fields.len() {
        if fields[i].0 == key {
            assert(fields[i] == (key, fields[i].1));
        } else {
            lemma_first_member(fields, key, i + 1);
            if let Some(value) = member_from(fields, key, i + 1) {
                let k = choose|k: int|
                    i + 1 <= k < fields.len() && #[trigger] fields[k] == (key, value) && forall|
                        j: int,
                    |
                        i + 1 <= j < k ==> (#[trigger] fields[j]).0 != key;
                assert(fields[k] == (key, value));
            }
        }
    }
}

/// A member of an object is looked up by its key: the first one that has it, and nothing
/// where none does. What is no object has no members.
pub proof fn lemma_members_go_by_their_key(value: JsonView, key: Seq<char>)
    ensures
        value matches JsonView::Object(fields) ==> (member(value, key) matches Some(found)
            ==> exists|k: int|
            0 <= k < fields.len() && #[trigger] fields[k] == (key, found) && forall|j: int|
                0 <= j < k ==> (#[trigger] fields[j]).0 != key),
        value matches JsonView::Object(fields) ==> (member(value, key) is None ==> forall|k: int|
            0 <= k < fields.len() ==> (#[trigger] fields[k]).0 != key),
        !(value is Object) ==> member(value, key) is None,
{
    if let JsonView::Object(fields) = value {
        lemma_first_member(fields, key, 0);
    }
}

}
