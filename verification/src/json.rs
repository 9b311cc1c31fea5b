//! Structured values, as JSON text and as MessagePack bytes.
use vstd::prelude::*;
use vstd::utf8::encode_utf8;

use crate::text::str_eq;

verus! {

/// A structured value.
#[derive(Debug)]
pub enum Json {
    Null,
    Bool(bool),
    /// A whole number that fits.
    Number(u64),
    /// Any other number.
    OtherNumber,
    Str(String),
    Array(Vec<Json>),
    /// Names and values, in order.
    Object(Vec<(String, Json)>),
}

/// The content of a [`Json`].
pub enum JsonView {
    Null,
    Bool(bool),
    Number(u64),
    OtherNumber,
    Str(Seq<char>),
    Array(Seq<JsonView>),
    Object(Seq<(Seq<char>, JsonView)>),
}

impl View for Json {
    type V = JsonView;

    open spec fn view(&self) -> JsonView {
        self.content()
    }
}

impl Json {
    /// The content of the value.
    pub open spec fn content(self) -> JsonView
        decreases self,
    {
        match self {
            Json::Null => JsonView::Null,
            Json::Bool(b) => JsonView::Bool(b),
            Json::Number(n) => JsonView::Number(n),
            Json::OtherNumber => JsonView::OtherNumber,
            Json::Str(s) => JsonView::Str(s@),
            Json::Array(items) => JsonView::Array(
                Seq::new(
                    items@.len(),
                    |i: int|
                        if 0 <= i < items@.len() {
                            items@[i].content()
                        } else {
                            JsonView::Null
                        },
                ),
            ),
            Json::Object(fields) => JsonView::Object(
                Seq::new(
                    fields@.len(),
                    |i: int|
                        if 0 <= i < fields@.len() {
                            (fields@[i].0@, fields@[i].1.content())
                        } else {
                            (Seq::empty(), JsonView::Null)
                        },
                ),
            ),
        }
    }
}

impl JsonView {
    /// A value that text keeps: whole numbers that fit, distinct names, and nesting of at
    /// most `depth`.
    pub open spec fn keepable(self, depth: nat) -> bool
        decreases self,
    {
        match self {
            JsonView::OtherNumber => false,
            JsonView::Array(items) => {
                &&& depth > 0
                &&& forall|i: int|
                    0 <= i < items.len() ==> (#[trigger] items[i]).keepable((depth - 1) as nat)
            },
            JsonView::Object(fields) => {
                &&& depth > 0
                &&& forall|i: int|
                    0 <= i < fields.len() ==> (#[trigger] fields[i]).1.keepable((depth - 1) as nat)
                &&& forall|i: int, j: int|
                    0 <= i < j < fields.len() ==> (#[trigger] fields[i]).0
                        != (#[trigger] fields[j]).0
            },
            _ => true,
        }
    }

    /// Every length in the value fits in 32 bits.
    pub open spec fn countable(self) -> bool
        decreases self,
    {
        match self {
            JsonView::Str(s) => encode_utf8(s).len() <= u32::MAX,
            JsonView::Array(items) => {
                &&& items.len() <= u32::MAX
                &&& forall|i: int| 0 <= i < items.len() ==> (#[trigger] items[i]).countable()
            },
            JsonView::Object(fields) => {
                &&& fields.len() <= u32::MAX
                &&& forall|i: int|
                    0 <= i < fields.len() ==> encode_utf8((#[trigger] fields[i]).0).len()
                        <= u32::MAX && fields[i].1.countable()
            },
            _ => true,
        }
    }
}

/// The position of the first field with the given name; the number of fields
/// if there is none.
pub open spec fn field_index(fields: Seq<(Seq<char>, JsonView)>, name: Seq<char>) -> int
    decreases fields.len(),
{
    if fields.len() == 0 {
        0
    } else if fields[0].0 == name {
        0
    } else {
        1 + field_index(fields.skip(1), name)
    }
}

impl JsonView {
    /// The field of an object with the given name.
    pub open spec fn get(self, name: Seq<char>) -> Option<JsonView> {
        match self {
            JsonView::Object(fields) => {
                let i = field_index(fields, name);
                if i < fields.len() {
                    Some(fields[i].1)
                } else {
                    None
                }
            },
            _ => None,
        }
    }

    /// The text, if the value is one.
    pub open spec fn text(self) -> Option<Seq<char>> {
        match self {
            JsonView::Str(s) => Some(s),
            _ => None,
        }
    }

    /// The number, if the value is a whole one of at most `max`.
    pub open spec fn number(self, max: nat) -> Option<u64> {
        match self {
            JsonView::Number(n) => if n <= max {
                Some(n)
            } else {
                None
            },
            _ => None,
        }
    }
}

/// Where the first field with a name is.
pub proof fn lemma_field_index(fields: Seq<(Seq<char>, JsonView)>, name: Seq<char>, i: int)
    requires
        0 <= i <= fields.len(),
        forall|j: int| 0 <= j < i ==> (#[trigger] fields[j]).0 != name,
        i < fields.len() ==> fields[i].0 == name,
    ensures
        field_index(fields, name) == i,
    decreases fields.len(),
{
    if fields.len() > 0 && i > 0 {
        assert(fields[0].0 != name);
        let rest = fields.skip(1);
        assert forall|j: int| 0 <= j < i - 1 implies (#[trigger] rest[j]).0 != name by {
            assert(rest[j] == fields[j + 1]);
        }
        lemma_field_index(rest, name, i - 1);
    }
}

impl Json {
    /// The field of an object with the given name.
    pub fn get(&self, name: &str) -> (r: Option<&Json>)
        ensures
            match r {
                Some(v) => self@.get(name@) == Some(v@),
                None => self@.get(name@) is None,
            },
    {
        match self {
            Json::Object(fields) => {
                let ghost views = self@->Object_0;
                let mut i: usize = 0;
                while i < fields.len()
                    invariant
                        self@ == JsonView::Object(views),
                        *self == Json::Object(*fields),
                        views.len() == fields@.len(),
                        i <= fields@.len(),
                        forall|j: int| 0 <= j < i ==> (#[trigger] views[j]).0 != name@,
                    decreases fields@.len() - i,
                {
                    assert(views[i as int] == (fields@[i as int].0@, fields@[i as int].1@));
                    if str_eq(fields[i].0.as_str(), name) {
                        proof {
                            lemma_field_index(views, name@, i as int);
                        }
                        return Some(&fields[i].1);
                    }
                    i += 1;
                }
                proof {
                    lemma_field_index(views, name@, i as int);
                }
                None
            },
            _ => None,
        }
    }

    /// The text, if the value is one.
    pub fn as_text(&self) -> (r: Option<&String>)
        ensures
            match r {
                Some(s) => self@.text() == Some(s@),
                None => self@.text() is None,
            },
    {
        match self {
            Json::Str(s) => Some(s),
            _ => None,
        }
    }

    /// The number, if the value is a whole one of at most `max`.
    pub fn as_number(&self, max: u64) -> (r: Option<u64>)
        ensures
            r == self@.number(max as nat),
    {
        match self {
            Json::Number(n) => {
                if *n <= max {
                    Some(*n)
                } else {
                    None
                }
            },
            _ => None,
        }
    }
}

/// The contents of fields.
pub open spec fn field_views(fields: Seq<(String, Json)>) -> Seq<(Seq<char>, JsonView)> {
    fields.map_values(|f: (String, Json)| (f.0@, f.1@))
}

/// The contents of items.
pub open spec fn item_views(items: Seq<Json>) -> Seq<JsonView> {
    items.map_values(|v: Json| v@)
}

impl Json {
    /// The number `n`.
    pub fn number(n: u64) -> (v: Json)
        ensures
            v@ == JsonView::Number(n),
    {
        Json::Number(n)
    }

    /// A truth value.
    pub fn truth(b: bool) -> (v: Json)
        ensures
            v@ == JsonView::Bool(b),
    {
        Json::Bool(b)
    }

    /// Text.
    pub fn text(s: String) -> (v: Json)
        ensures
            v@ == JsonView::Str(s@),
    {
        Json::Str(s)
    }

    /// The object with the given fields.
    pub fn object(fields: Vec<(String, Json)>) -> (v: Json)
        ensures
            v@ == JsonView::Object(field_views(fields@)),
    {
        let v = Json::Object(fields);
        assert(v@->Object_0 =~= field_views(fields@));
        v
    }

    /// The list of the given items.
    pub fn array(items: Vec<Json>) -> (v: Json)
        ensures
            v@ == JsonView::Array(item_views(items@)),
    {
        let v = Json::Array(items);
        assert(v@->Array_0 =~= item_views(items@));
        v
    }
}

/// Append a field.
pub fn push_field(fields: &mut Vec<(String, Json)>, name: &str, v: Json)
    ensures
        field_views(final(fields)@) == field_views(old(fields)@).push((name@, v@)),
{
    let name = name.to_owned();
    fields.push((name, v));
    assert(field_views(fields@) =~= field_views(old(fields)@).push((name@, v@)));
}

/// Append an item.
pub fn push_item(items: &mut Vec<Json>, v: Json)
    ensures
        item_views(final(items)@) == item_views(old(items)@).push(v@),
{
    items.push(v);
    assert(item_views(items@) =~= item_views(old(items)@).push(v@));
}

/// How deep a value may be nested to be kept for sure.
pub const MAX_DEPTH: usize = 64;

/// The outside representation of a structured value.
#[verifier::external_type_specification]
#[verifier::external_body]
pub struct ExValue(serde_json::Value);

/// Why `serde_json` could not read text.
#[verifier::external_type_specification]
#[verifier::external_body]
pub struct ExError(serde_json::Error);

/// What `serde_json` writes for a value: compact JSON text.
pub uninterp spec fn json_text(v: JsonView) -> Seq<char>;

/// What `serde_json::from_str` reads from JSON text: one value with nothing
/// behind it; of a name that occurs twice, the last value.
pub uninterp spec fn json_value(text: Seq<char>) -> Option<JsonView>;

/// What `serde_json::from_str` reads from JSON text as a map from texts to texts: one
/// object with nothing behind it, whose values are all texts; the names in order, and
/// of a name that occurs twice, the last value.
pub uninterp spec fn json_texts(text: Seq<char>) -> Option<Seq<(Seq<char>, Seq<char>)>>;

/// What `rmp_serde::to_vec` writes for a value.
pub uninterp spec fn msgpack_bytes(v: JsonView) -> Seq<u8>;

/// What `rmp_serde::from_slice` reads from the front of bytes.
pub uninterp spec fn msgpack_value(bytes: Seq<u8>) -> Option<JsonView>;

/// A value as the outside crates hold it, field by field. Nothing is stated of
/// it: the value is opaque here.
#[verifier::external_body]
fn to_value(v: &Json) -> (r: serde_json::Value) {
    match v {
        Json::Null | Json::OtherNumber => serde_json::Value::Null,
        Json::Bool(b) => serde_json::Value::from(*b),
        Json::Number(n) => serde_json::Value::from(*n),
        Json::Str(s) => serde_json::Value::from(s.as_str()),
        Json::Array(items) => items.iter().map(to_value).collect(),
        Json::Object(fields) => fields.iter().map(|f| (f.0.clone(), to_value(&f.1))).collect(),
    }
}

/// A value as the library holds it, field by field. Nothing is stated of it:
/// the argument is opaque here.
#[verifier::external_body]
fn from_value(v: serde_json::Value) -> (r: Json) {
    match v {
        serde_json::Value::Null => Json::Null,
        serde_json::Value::Bool(b) => Json::Bool(b),
        serde_json::Value::Number(n) => n.as_u64().map_or(Json::OtherNumber, Json::Number),
        serde_json::Value::String(s) => Json::Str(s),
        serde_json::Value::Array(items) => {
            Json::Array(items.into_iter().map(from_value).collect())
        },
        serde_json::Value::Object(fields) => {
            Json::Object(fields.into_iter().map(|(k, v)| (k, from_value(v))).collect())
        },
    }
}

/// `serde_json::Value::to_string`: compact JSON text, the fields of an object in
/// their order. `serde_json::from_str` reads it back, for a value that is
/// [`JsonView::keepable`].
#[verifier::external_body]
pub(crate) fn render_json(v: &Json) -> (s: String)
    ensures
        s@ == json_text(v@),
        v@.keepable(MAX_DEPTH as nat) ==> json_value(s@) == Some(v@),
{
    to_value(v).to_string()
}

/// `serde_json::from_str` into a `serde_json::Value`.
#[verifier::external_body]
pub(crate) fn parse_json(text: &str) -> (r: Option<Json>)
    ensures
        match r {
            Some(v) => json_value(text@) == Some(v@),
            None => json_value(text@) is None,
        },
{
    serde_json::from_str::<serde_json::Value>(text).ok().map(from_value)
}

/// Names and values.
pub open spec fn pair_views(pairs: Seq<(String, String)>) -> Seq<(Seq<char>, Seq<char>)> {
    pairs.map_values(|p: (String, String)| (p.0@, p.1@))
}

/// `serde_json::from_str` into a map from texts to texts, whose names are in order.
#[verifier::external_body]
pub(crate) fn parse_json_texts(text: &str) -> (r: Result<Vec<(String, String)>, serde_json::Error>)
    ensures
        match r {
            Ok(pairs) => json_texts(text@) == Some(pair_views(pairs@)),
            Err(_) => json_texts(text@) is None,
        },
{
    serde_json::from_str::<std::collections::BTreeMap<String, String>>(text).map(
        |texts| texts.into_iter().collect(),
    )
}

/// `rmp_serde::to_vec` of a `serde_json::Value`; writing such a value to memory
/// does not fail. `rmp_serde::from_slice` reads it back, for a value that is
/// [`JsonView::keepable`] and [`JsonView::countable`]: lengths are written in 32 bits.
#[verifier::external_body]
pub(crate) fn render_msgpack(v: &Json) -> (bytes: Vec<u8>)
    ensures
        bytes@ == msgpack_bytes(v@),
        v@.keepable(MAX_DEPTH as nat) && v@.countable() ==> msgpack_value(bytes@) == Some(v@),
{
    rmp_serde::to_vec(&to_value(v)).expect("structured values always serialize")
}

/// `rmp_serde::from_slice` into a `serde_json::Value`.
#[verifier::external_body]
pub(crate) fn parse_msgpack(bytes: &[u8]) -> (r: Option<Json>)
    ensures
        match r {
            Some(v) => msgpack_value(bytes@) == Some(v@),
            None => msgpack_value(bytes@) is None,
        },
{
    rmp_serde::from_slice::<serde_json::Value>(bytes).ok().map(from_value)
}

} // verus!
