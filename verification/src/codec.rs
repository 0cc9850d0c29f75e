//! JSON text: documents are read and written by `serde_json`.

use crate::error::DbError;
use crate::json::{
    entries_model, items_model, keys_unique, lemma_model_array, lemma_model_object, well_formed,
    Json, JsonNumber, JsonValue,
};
use serde_json::{Number, Value};
use vstd::prelude::*;

verus! {

/// `serde_json::Value`, carried through as a whole.
#[verifier::external_type_specification]
#[verifier::external_body]
pub struct ExSerdeValue(serde_json::Value);

/// `serde_json::Error`, the failure of the reader and of the writer.
#[verifier::external_type_specification]
#[verifier::external_body]
pub struct ExSerdeError(serde_json::Error);

/// The document that a `serde_json::Value` holds.
pub uninterp spec fn json_model(v: serde_json::Value) -> Json;

/// The document that a text writes, where it is JSON text.
pub uninterp spec fn json_parse(text: Seq<u8>) -> Option<Json>;

/// The compact JSON text of a document.
pub uninterp spec fn json_text(v: Json) -> Seq<u8>;

/// The indented JSON text of a document.
pub uninterp spec fn json_text_pretty(v: Json) -> Seq<u8>;

/// `serde_json::from_slice`: reads a text as one JSON document. Whether it
/// succeeds, and the document it gives, depend on the text alone.
#[verifier::external_body]
fn parse_raw(text: &[u8]) -> (r: Result<serde_json::Value, serde_json::Error>)
    ensures
        r is Ok <==> json_parse(text@) is Some,
        r matches Ok(v) ==> Some(json_model(v)) == json_parse(text@),
{
    serde_json::from_slice::<serde_json::Value>(text)
}

/// `serde_json::to_vec`: writes a document as compact JSON text. The text
/// depends on the document alone. The writer fails only where its sink does
/// or where a map has a key that is no string; the sink is a byte vector,
/// which takes every write, and the keys of a `Value` are strings, so the
/// call succeeds.
#[verifier::external_body]
fn text_raw(v: &serde_json::Value) -> (r: Result<Vec<u8>, serde_json::Error>)
    ensures
        r is Ok,
        r matches Ok(text) ==> text@ == json_text(json_model(*v)),
{
    serde_json::to_vec(v)
}

/// `serde_json::to_vec_pretty`: writes a document as indented JSON text. The
/// text depends on the document alone. As with the compact writer, the sink
/// is a byte vector and the keys of a `Value` are strings, so the call
/// succeeds.
#[verifier::external_body]
fn text_raw_pretty(v: &serde_json::Value) -> (r: Result<Vec<u8>, serde_json::Error>)
    ensures
        r is Ok,
        r matches Ok(text) ==> text@ == json_text_pretty(json_model(*v)),
{
    serde_json::to_vec_pretty(v)
}

/// The number that a `serde_json::Number` holds.
pub uninterp spec fn number_model(n: serde_json::Number) -> JsonNumber;

/// One level of a `serde_json::Value`, borrowed: its variant, with what the
/// variant holds.
enum RawRef<'a> {
    Null,
    Bool(bool),
    Number(&'a Number),
    String(&'a String),
    Array(&'a Vec<Value>),
    Object(Vec<(&'a String, &'a Value)>),
}

/// One level of a `serde_json::Value`, owned: its variant, with what the
/// variant is to hold.
enum RawNode {
    Null,
    Bool(bool),
    Number(Number),
    String(String),
    Array(Vec<Value>),
    Object(Vec<(String, Value)>),
}

impl<'a> RawRef<'a> {
    spec fn model(self) -> Json {
        match self {
            RawRef::Null => Json::Null,
            RawRef::Bool(b) => Json::Bool(b),
            RawRef::Number(n) => Json::Number(number_model(*n)),
            RawRef::String(s) => Json::String(s@),
            RawRef::Array(a) => Json::Array(Seq::new(a@.len(), |i: int| json_model(a@[i]))),
            RawRef::Object(e) => Json::Object(
                Seq::new(e@.len(), |i: int| (e@[i].0@, json_model(*e@[i].1))),
            ),
        }
    }

    spec fn keys_differ(self) -> bool {
        match self {
            RawRef::Object(e) => forall|i: int, j: int|
                0 <= i < j < e@.len() ==> e@[i].0@ != e@[j].0@,
            _ => true,
        }
    }
}

impl RawNode {
    spec fn model(self) -> Json {
        match self {
            RawNode::Null => Json::Null,
            RawNode::Bool(b) => Json::Bool(b),
            RawNode::Number(n) => Json::Number(number_model(n)),
            RawNode::String(s) => Json::String(s@),
            RawNode::Array(a) => Json::Array(Seq::new(a@.len(), |i: int| json_model(a@[i]))),
            RawNode::Object(e) => Json::Object(
                Seq::new(e@.len(), |i: int| (e@[i].0@, json_model(e@[i].1))),
            ),
        }
    }

    spec fn keys_differ(self) -> bool {
        match self {
            RawNode::Object(e) => forall|i: int, j: int|
                0 <= i < j < e@.len() ==> e@[i].0@ != e@[j].0@,
            _ => true,
        }
    }
}

/// The variant of a `serde_json::Value` and what it holds, one arm for each
/// variant. The entries of an object come in the order in which the map
/// hands them out, and the map holds no key twice.
#[verifier::external_body]
fn raw_parts<'a>(v: &'a Value) -> (r: RawRef<'a>)
    ensures
        r.model() == json_model(*v),
        r.keys_differ(),
{
    match v {
        Value::Null => RawRef::Null,
        Value::Bool(b) => RawRef::Bool(*b),
        Value::Number(n) => RawRef::Number(n),
        Value::String(s) => RawRef::String(s),
        Value::Array(a) => RawRef::Array(a),
        Value::Object(m) => RawRef::Object(m.iter().collect()),
    }
}

/// The `serde_json::Value` of a variant and what it is to hold, one arm for
/// each variant. The entries of an object, whose keys differ, go into the
/// map in their order.
#[verifier::external_body]
fn raw_build(node: RawNode) -> (r: Value)
    requires
        node.keys_differ(),
    ensures
        json_model(r) == node.model(),
{
    match node {
        RawNode::Null => Value::Null,
        RawNode::Bool(b) => Value::Bool(b),
        RawNode::Number(n) => Value::Number(n),
        RawNode::String(s) => Value::String(s),
        RawNode::Array(a) => Value::Array(a),
        RawNode::Object(e) => Value::Object(e.into_iter().collect()),
    }
}

/// `serde_json::Number::as_i128`: the integer that the number holds, where
/// it holds one. A number that holds none is floating-point, and it is
/// carried on as it is.
#[verifier::external_body]
fn number_parts(n: &Number) -> (r: JsonNumber)
    ensures
        r == number_model(*n),
        r.wf(),
{
    n.as_i128().map_or(JsonNumber::Float(n.clone()), JsonNumber::Integer)
}

/// `serde_json::Number::from_i128` for an integer, which takes every integer
/// between `i64::MIN` and `u64::MAX` and no other; a floating-point number
/// is handed back as it is.
#[verifier::external_body]
fn number_build(n: &JsonNumber) -> (r: Option<Number>)
    ensures
        r is Some <==> (*n matches JsonNumber::Integer(i) ==> i64::MIN <= i <= u64::MAX),
        n.wf() ==> (r matches Some(x) ==> number_model(x) == *n),
{
    match n {
        JsonNumber::Integer(i) => Number::from_i128(*i),
        JsonNumber::Float(x) => Some(x.clone()),
    }
}

/// The document that a `serde_json::Value` holds.
fn from_raw(v: &Value) -> (r: JsonValue)
    ensures
        r@ == json_model(*v),
        well_formed(r@),
    decreases json_model(*v),
{
    match raw_parts(v) {
        RawRef::Null => JsonValue::Null,
        RawRef::Bool(b) => JsonValue::Bool(b),
        RawRef::Number(n) => JsonValue::Number(number_parts(n)),
        RawRef::String(s) => JsonValue::String(s.clone()),
        RawRef::Array(a) => {
            let ghost items = Seq::new(a@.len(), |i: int| json_model(a@[i]));
            let mut out: Vec<JsonValue> = Vec::new();
            let mut i: usize = 0;
            while i < a.len()
                invariant
                    i <= a.len(),
                    out.len() == i,
                    json_model(*v) == Json::Array(items),
                    items == Seq::new(a@.len(), |i: int| json_model(a@[i])),
                    forall|j: int|
                        0 <= j < i ==> (#[trigger] out@[j])@ == items[j] && well_formed(out@[j]@),
                decreases a.len() - i,
            {
                proof {
                    assert(items[i as int] == json_model(a@[i as int]));
                    assert(decreases_to!(json_model(*v) => json_model(*v)->Array_0[i as int]));
                }
                out.push(from_raw(&a[i]));
                i += 1;
            }
            proof {
                lemma_model_array(out);
                assert(items_model(out@) =~= items);
                assert forall|j: int| 0 <= j < items.len() implies well_formed(
                    #[trigger] items[j],
                ) by {
                    assert(out@[j]@ == items[j]);
                }
            }
            JsonValue::Array(out)
        },
        RawRef::Object(e) => {
            let ghost entries = Seq::new(e@.len(), |i: int| (e@[i].0@, json_model(*e@[i].1)));
            let mut out: Vec<(String, JsonValue)> = Vec::new();
            let mut i: usize = 0;
            while i < e.len()
                invariant
                    i <= e.len(),
                    out.len() == i,
                    json_model(*v) == Json::Object(entries),
                    entries == Seq::new(e@.len(), |i: int| (e@[i].0@, json_model(*e@[i].1))),
                    forall|j: int|
                        0 <= j < i ==> (#[trigger] out@[j]).0@ == entries[j].0 && out@[j].1@
                            == entries[j].1 && well_formed(out@[j].1@),
                decreases e.len() - i,
            {
                proof {
                    assert(entries[i as int].1 == json_model(*e@[i as int].1));
                    assert(decreases_to!(json_model(*v) => json_model(*v)->Object_0[i as int].1));
                }
                let key = e[i].0.clone();
                let value = from_raw(e[i].1);
                out.push((key, value));
                i += 1;
            }
            proof {
                lemma_model_object(out);
                assert(entries_model(out@) =~= entries);
                assert(keys_unique(entries)) by {
                    assert forall|j: int, k: int| 0 <= j < k < entries.len() implies entries[j].0
                        != entries[k].0 by {
                        assert(e@[j].0@ != e@[k].0@);
                    }
                }
                assert forall|j: int| 0 <= j < entries.len() implies well_formed(
                    (#[trigger] entries[j]).1,
                ) by {
                    assert(out@[j].1@ == entries[j].1);
                }
            }
            JsonValue::Object(out)
        },
    }
}

/// The `serde_json::Value` that holds a well-formed document.
fn to_raw(v: &JsonValue) -> (r: Value)
    requires
        well_formed(v@),
    ensures
        json_model(r) == v@,
    decreases v,
{
    match v {
        JsonValue::Null => raw_build(RawNode::Null),
        JsonValue::Bool(b) => raw_build(RawNode::Bool(*b)),
        JsonValue::Number(n) => match number_build(n) {
            Some(x) => raw_build(RawNode::Number(x)),
            None => vstd::pervasive::unreached(),
        },
        JsonValue::String(s) => raw_build(RawNode::String(s.clone())),
        JsonValue::Array(a) => {
            proof {
                lemma_model_array(*a);
            }
            let mut out: Vec<Value> = Vec::new();
            let mut i: usize = 0;
            while i < a.len()
                invariant
                    i <= a.len(),
                    out.len() == i,
                    *v == JsonValue::Array(*a),
                    v@ == Json::Array(items_model(a@)),
                    well_formed(v@),
                    forall|j: int| 0 <= j < i ==> json_model(#[trigger] out@[j]) == a@[j]@,
                decreases a.len() - i,
            {
                proof {
                    assert(v@->Array_0[i as int] == a@[i as int]@);
                }
                out.push(to_raw(&a[i]));
                i += 1;
            }
            let node = RawNode::Array(out);
            proof {
                assert(node.model()->Array_0 =~= items_model(a@));
            }
            raw_build(node)
        },
        JsonValue::Object(o) => {
            proof {
                lemma_model_object(*o);
            }
            let ghost entries = entries_model(o@);
            let mut out: Vec<(String, Value)> = Vec::new();
            let mut i: usize = 0;
            while i < o.len()
                invariant
                    i <= o.len(),
                    out.len() == i,
                    *v == JsonValue::Object(*o),
                    v@ == Json::Object(entries),
                    entries == entries_model(o@),
                    well_formed(v@),
                    forall|j: int|
                        0 <= j < i ==> (#[trigger] out@[j]).0@ == o@[j].0@ && json_model(
                            out@[j].1,
                        ) == o@[j].1@,
                decreases o.len() - i,
            {
                proof {
                    assert(v@->Object_0[i as int].1 == o@[i as int].1@);
                    assert(well_formed(entries[i as int].1));
                }
                let key = o[i].0.clone();
                let value = to_raw(&o[i].1);
                out.push((key, value));
                i += 1;
            }
            let node = RawNode::Object(out);
            proof {
                assert(node.model()->Object_0 =~= entries);
                assert(node.keys_differ()) by {
                    assert forall|j: int, k: int| 0 <= j < k < out@.len() implies out@[j].0@
                        != out@[k].0@ by {
                        assert(entries[j].0 != entries[k].0);
                    }
                }
            }
            raw_build(node)
        },
    }
}

/// The document that a text writes, or nothing where the text is no JSON.
pub open spec fn parse_document(text: Seq<u8>) -> Option<Json> {
    json_parse(text)
}

/// The JSON text of a document, indented or compact.
pub open spec fn document_text(v: Json, pretty: bool) -> Seq<u8> {
    if pretty {
        json_text_pretty(v)
    } else {
        json_text(v)
    }
}

/// Reads a text as one JSON document. The document is well formed.
pub fn parse_json(text: &[u8]) -> (r: Option<JsonValue>)
    ensures
        match r {
            Some(v) => parse_document(text@) == Some(v@) && well_formed(v@),
            None => parse_document(text@) is None,
        },
{
    match parse_raw(text) {
        Ok(raw) => Some(from_raw(&raw)),
        Err(_) => None,
    }
}

/// What writing a document comes to, given what the writer returned: its
/// text, or the failure to encode.
pub fn written(raw: Result<Vec<u8>, serde_json::Error>) -> (r: Result<Vec<u8>, DbError>)
    ensures
        match raw {
            Ok(text) => r == Ok::<Vec<u8>, DbError>(text),
            Err(_) => r == Err::<Vec<u8>, DbError>(DbError::EncodingFailed),
        },
{
    match raw {
        Ok(text) => Ok(text),
        Err(_) => Err(DbError::EncodingFailed),
    }
}

/// Writes a well-formed document as JSON text, indented or compact. This
/// succeeds, and the text is that of the document.
pub fn write_json(v: &JsonValue, pretty: bool) -> (r: Result<Vec<u8>, DbError>)
    requires
        well_formed(v@),
    ensures
        r is Ok,
        r matches Ok(text) ==> text@ == document_text(v@, pretty),
{
    let raw = to_raw(v);
    if pretty {
        written(text_raw_pretty(&raw))
    } else {
        written(text_raw(&raw))
    }
}

} // verus!
