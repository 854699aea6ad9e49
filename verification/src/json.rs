//! The document model and the parser boundary.  A document is held in the
//! library's own `JsonValue`; reading one from text is done by serde_json
//! behind a small set of trusted declarations, each stating no more than that
//! crate's source shows.

use vstd::prelude::*;

verus! {

broadcast use vstd::seq::axiom_seq_index_decreases;

/// A JSON document as the library holds it.  Numbers keep their decimal text;
/// object members keep the order in which the parser yields them.
#[derive(Debug, PartialEq, Eq)]
pub enum JsonValue {
    Null,
    Bool(bool),
    Number(String),
    String(String),
    Array(Vec<JsonValue>),
    Object(Vec<(String, JsonValue)>),
}

/// The mathematical value of a `JsonValue`.
pub enum JsonView {
    Null,
    Bool(bool),
    Num(Seq<char>),
    Str(Seq<char>),
    Arr(Seq<JsonView>),
    Obj(Seq<(Seq<char>, JsonView)>),
}

/// The view of a document.
pub open spec fn json_view(v: JsonValue) -> JsonView
    decreases v,
{
    match v {
        JsonValue::Null => JsonView::Null,
        JsonValue::Bool(b) => JsonView::Bool(b),
        JsonValue::Number(s) => JsonView::Num(s@),
        JsonValue::String(s) => JsonView::Str(s@),
        JsonValue::Array(a) => JsonView::Arr(
            Seq::new(
                a@.len(),
                |i: int|
                    if 0 <= i < a@.len() {
                        json_view(a@[i])
                    } else {
                        JsonView::Null
                    },
            ),
        ),
        JsonValue::Object(o) => JsonView::Obj(
            Seq::new(
                o@.len(),
                |i: int|
                    if 0 <= i < o@.len() {
                        (o@[i].0@, json_view(o@[i].1))
                    } else {
                        (Seq::empty(), JsonView::Null)
                    },
            ),
        ),
    }
}

impl View for JsonValue {
    type V = JsonView;

    open spec fn view(&self) -> JsonView {
        json_view(*self)
    }
}

/// What a parsed document always satisfies: number texts are canonical (they
/// re-read to themselves) and object keys are distinct.
pub open spec fn json_wf(v: JsonView) -> bool
    decreases v,
{
    match v {
        JsonView::Null => true,
        JsonView::Bool(_) => true,
        JsonView::Num(t) => num_canon(t) == Some(t),
        JsonView::Str(_) => true,
        JsonView::Arr(s) => forall|i: int| 0 <= i < s.len() ==> json_wf(#[trigger] s[i]),
        JsonView::Obj(s) => (forall|i: int, j: int|
            0 <= i < j < s.len() ==> (#[trigger] s[i]).0 != (#[trigger] s[j]).0) && (forall|i: int|
            0 <= i < s.len() ==> json_wf((#[trigger] s[i]).1)),
    }
}

/// An error text handed to the caller.
#[derive(Debug)]
pub struct DingString(pub String);

impl DingString {
    /// The text of the error.
    pub fn to_string(&self) -> (r: String)
        ensures
            r@ == self.0@,
    {
        self.0.clone()
    }
}

// ---------------------------------------------------------------------------
// The trusted boundary around serde_json.
// ---------------------------------------------------------------------------

#[verifier::external_type_specification]
#[verifier::external_body]
pub struct ExSerdeValue(serde_json::Value);

#[verifier::external_type_specification]
#[verifier::external_body]
pub struct ExSerdeError(serde_json::Error);

/// What parsing a text yields, as the library sees it: the document for a
/// well-formed text, nothing for a malformed one.
pub uninterp spec fn json_doc(text: Seq<char>) -> Option<JsonView>;

/// What a parsed serde_json value holds, as the library sees it: object
/// members in the key order its map yields them.
pub uninterp spec fn json_model(v: serde_json::Value) -> JsonView;

/// What serde_json makes of a number text: nothing if the text is not a JSON
/// number, else the display text of the parsed number.  With serde_json's
/// correctly rounded float reading (the float_roundtrip feature, on for this
/// crate) a text in the image of that display re-reads to itself: integers
/// are read exactly, and a float's shortest correctly-rounded display
/// recovers the same float.
pub uninterp spec fn num_canon(text: Seq<char>) -> Option<Seq<char>>;

/// What a parse error displays as: the parser's diagnostic for a malformed
/// text, naming the cause with its line and column.  It depends on the text
/// alone.
pub uninterp spec fn json_err_text(text: Seq<char>) -> Seq<char>;

/// The text a serde_json error shows: a function of the error value.
pub uninterp spec fn error_view(e: serde_json::Error) -> Seq<char>;

/// The models of a sequence of serde_json values.
pub open spec fn models_of(s: Seq<serde_json::Value>) -> Seq<JsonView> {
    s.map_values(|x: serde_json::Value| json_model(x))
}

/// The models of a sequence of (key, serde_json value) pairs.
pub open spec fn pair_models_of(s: Seq<(String, serde_json::Value)>) -> Seq<(Seq<char>, JsonView)> {
    s.map_values(|e: (String, serde_json::Value)| (e.0@, json_model(e.1)))
}

/// The mapping a sequence of object members holds; a later member with the
/// same key wins.
pub open spec fn obj_map(s: Seq<(Seq<char>, JsonView)>) -> Map<Seq<char>, JsonView>
    decreases s.len(),
{
    if s.len() == 0 {
        Map::empty()
    } else {
        obj_map(s.drop_last()).insert(s.last().0, s.last().1)
    }
}

/// Relies on serde_json::from_str for serde_json::Value: reads a JSON
/// document from text, or reports why the text is malformed.  What it
/// accepts, and what it yields, depends on the text alone.
#[verifier::external_body]
pub(crate) fn parse_json_text(text: &str) -> (r: Result<serde_json::Value, serde_json::Error>)
    ensures
        r is Ok <==> json_doc(text@) is Some,
        r matches Ok(v) ==> json_model(v) == json_doc(text@)->Some_0,
        r matches Err(e) ==> error_view(e) == json_err_text(text@),
{
    serde_json::from_str::<serde_json::Value>(text)
}

/// Relies on the Debug form of serde_json::Error: a diagnostic naming the
/// cause with its line and column, a function of the error value alone.
#[verifier::external_body]
pub(crate) fn error_text(e: &serde_json::Error) -> (r: String)
    ensures
        r@ == error_view(*e),
{
    format!("{e:?}")
}

/// Relies on serde_json::Value's variants, carried over one for one: numbers
/// through serde_json::Number's Display, whose text re-reads to the same
/// number under the crate's correctly rounded float reading; object members
/// in serde_json::Map's own (key) order, so keys come out distinct.
#[verifier::external_body]
pub(crate) fn json_value_of(v: &serde_json::Value) -> (r: JsonValue)
    ensures
        r@ == json_model(*v),
        json_wf(r@),
{
    match v {
        serde_json::Value::Null => JsonValue::Null,
        serde_json::Value::Bool(b) => JsonValue::Bool(*b),
        serde_json::Value::Number(n) => JsonValue::Number(n.to_string()),
        serde_json::Value::String(s) => JsonValue::String(s.clone()),
        serde_json::Value::Array(a) => JsonValue::Array(
            a.iter().map(|x| json_value_of(x)).collect(),
        ),
        serde_json::Value::Object(o) => JsonValue::Object(
            o.iter().map(|(k, x)| (k.clone(), json_value_of(x))).collect(),
        ),
    }
}

/// Relies on serde_json::Value::Null.
#[verifier::external_body]
pub(crate) fn value_null() -> (r: serde_json::Value)
    ensures
        json_model(r) == JsonView::Null,
{
    serde_json::Value::Null
}

/// Relies on serde_json::Value::Bool.
#[verifier::external_body]
pub(crate) fn value_bool(b: bool) -> (r: serde_json::Value)
    ensures
        json_model(r) == JsonView::Bool(b),
{
    serde_json::Value::Bool(b)
}

/// Relies on serde_json::Number's FromStr, which accepts exactly the JSON
/// number texts, and on its Display.
#[verifier::external_body]
pub(crate) fn value_number(text: &str) -> (r: Option<serde_json::Value>)
    ensures
        r is Some <==> num_canon(text@) is Some,
        r matches Some(v) ==> json_model(v) == JsonView::Num(num_canon(text@)->Some_0),
{
    match text.parse::<serde_json::Number>() {
        Ok(n) => Some(serde_json::Value::Number(n)),
        Err(_) => None,
    }
}

/// Relies on serde_json::Value::String.
#[verifier::external_body]
pub(crate) fn value_string(text: &str) -> (r: serde_json::Value)
    ensures
        json_model(r) == JsonView::Str(text@),
{
    serde_json::Value::String(text.to_owned())
}

/// Relies on serde_json::Value::Array over a vector of values.
#[verifier::external_body]
pub(crate) fn value_array(items: Vec<serde_json::Value>) -> (r: serde_json::Value)
    ensures
        json_model(r) == JsonView::Arr(models_of(items@)),
{
    serde_json::Value::Array(items)
}

/// Relies on serde_json::Map's insert: members land in key order, a later
/// member with the same key replacing an earlier one, so the mapping is kept.
#[verifier::external_body]
pub(crate) fn value_object(pairs: Vec<(String, serde_json::Value)>) -> (r: serde_json::Value)
    ensures
        json_model(r) is Obj,
        obj_map(json_model(r)->Obj_0) == obj_map(pair_models_of(pairs@)),
{
    let mut map = serde_json::Map::new();
    for (k, v) in pairs {
        map.insert(k, v);
    }
    serde_json::Value::Object(map)
}

} // verus!
