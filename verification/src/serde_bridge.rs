//! The calls into `serde_json`: reading and writing JSON text, and making a
//! floating-point number of a decimal text. A value read is handed over one
//! for one as a `RawJson`, from which the library's `JsonValue` is built in
//! verified code; a value written is handed to `serde_json` one for one.

use vstd::prelude::*;
use crate::json::{FloatNumber, JsonNumber, JsonObject, JsonV, JsonValue, clone_number, key_lt, keys_ascending};
use crate::object_laws::lemma_insert_greatest;
use crate::json::JsonNumberV;
use crate::text::is_digit;
use serde_json::Value;

verus! {

/// `serde_json::Number`, carried inside floating-point numbers.
#[verifier::external_type_specification]
#[verifier::external_body]
pub struct ExSerdeNumber(serde_json::Number);

/// `serde_json::Value`, which only the conversions below handle.
#[verifier::external_type_specification]
#[verifier::external_body]
pub struct ExSerdeValue(serde_json::Value);

/// What `serde_json::from_str::<Value>` gives for a text: the value read, or
/// the message of its error.
pub uninterp spec fn json_parse(text: Seq<char>) -> Result<JsonV, Seq<char>>;

/// What `serde_json::to_string` gives for a value: its compact JSON text, or
/// the message of its error.
pub uninterp spec fn json_compact(v: JsonV) -> Result<Seq<char>, Seq<char>>;

/// What `serde_json::to_string_pretty` gives for a value: its indented JSON
/// text, or the message of its error.
pub uninterp spec fn json_pretty(v: JsonV) -> Result<Seq<char>, Seq<char>>;

/// The text of the JSON number that `serde_json::Number::from_f64` makes of
/// the floating-point number that `str::parse::<f64>` reads in `raw`; `None`
/// when `raw` is not such a numeral or the number is not finite.
pub uninterp spec fn float_text(raw: Seq<char>) -> Option<Seq<char>>;

/// A JSON value as `serde_json` hands it over: an object as its members, in
/// the order its map gives them.
pub enum RawJson {
    Null,
    Bool(bool),
    PosInt(u64),
    NegInt(i64),
    /// A floating-point number and the text it is written as.
    Float(serde_json::Number, String),
    String(String),
    Array(Vec<RawJson>),
    Object(Vec<(String, RawJson)>),
}

impl RawJson {
    pub open spec fn view(&self) -> JsonV
        decreases self,
    {
        match self {
            RawJson::Null => JsonV::Null,
            RawJson::Bool(b) => JsonV::Bool(*b),
            RawJson::PosInt(u) => JsonV::Number(JsonNumberV::PosInt(*u)),
            RawJson::NegInt(i) => JsonV::Number(JsonNumberV::NegInt(*i)),
            RawJson::Float(_, t) => JsonV::Number(JsonNumberV::Float(t@)),
            RawJson::String(s) => JsonV::String(s@),
            RawJson::Array(a) => JsonV::Array(
                Seq::new(
                    a@.len(),
                    |i: int|
                        if 0 <= i < a@.len() {
                            a@[i].view()
                        } else {
                            JsonV::Null
                        },
                ),
            ),
            RawJson::Object(m) => JsonV::Object(
                Seq::new(
                    m@.len(),
                    |i: int|
                        if 0 <= i < m@.len() {
                            (m@[i].0@, m@[i].1.view())
                        } else {
                            (Seq::empty(), JsonV::Null)
                        },
                ),
            ),
        }
    }
}

/// Every object in the value, however deep, has its members in ascending
/// key order, each key once.
pub open spec fn objects_in_order(v: JsonV) -> bool
    decreases v,
{
    match v {
        JsonV::Array(a) => forall|i: int| 0 <= i < a.len() ==> objects_in_order(#[trigger] a[i]),
        JsonV::Object(es) => keys_ascending(es) && forall|i: int|
            0 <= i < es.len() ==> objects_in_order(#[trigger] es[i].1),
        _ => true,
    }
}

/// The shape of the text `serde_json` writes a floating-point number as (the
/// shortest decimal that reads back as the number, from `zmij`): an optional
/// `-`, digits, and a `.` or an exponent `e` with its sign.
pub open spec fn float_shaped(t: Seq<char>) -> bool {
    &&& t.len() > 0
    &&& (is_digit(t[0]) || t[0] == '-')
    &&& forall|i: int|
        0 <= i < t.len() ==> is_digit(#[trigger] t[i]) || t[i] == '-' || t[i] == '+' || t[i]
            == '.' || t[i] == 'e'
    &&& exists|i: int| 0 <= i < t.len() && (#[trigger] t[i] == '.' || t[i] == 'e')
}

/// A floating-point number's text that reads back as the same number and
/// is written the same way again.
pub open spec fn float_reads_back(t: Seq<char>) -> bool {
    float_text(t) == Some(t) && float_shaped(t)
}

/// Every floating-point number in the value, however deep, has a text that
/// reads back as itself.
pub open spec fn floats_read_back(v: JsonV) -> bool
    decreases v,
{
    match v {
        JsonV::Number(JsonNumberV::Float(t)) => float_reads_back(t),
        JsonV::Array(a) => forall|i: int| 0 <= i < a.len() ==> floats_read_back(#[trigger] a[i]),
        JsonV::Object(es) => forall|i: int| 0 <= i < es.len() ==> floats_read_back(#[trigger] es[i].1),
        _ => true,
    }
}

/// The view of a result that holds a value handed over by `serde_json`.
pub open spec fn raw_result_view(r: Result<RawJson, String>) -> Result<JsonV, Seq<char>> {
    match r {
        Ok(v) => Ok(v@),
        Err(e) => Err(e@),
    }
}

/// The view of a result that holds a JSON value.
pub open spec fn value_result_view(r: Result<JsonValue, String>) -> Result<JsonV, Seq<char>> {
    match r {
        Ok(v) => Ok(v@),
        Err(e) => Err(e@),
    }
}

/// The view of a result that holds a text.
pub open spec fn text_result_view(r: Result<String, String>) -> Result<Seq<char>, Seq<char>> {
    match r {
        Ok(s) => Ok(s@),
        Err(e) => Err(e@),
    }
}

/// Converts a `serde_json::Number` one for one (a floating-point number
/// with the text its `Display` writes).
#[verifier::external_body]
fn raw_number(n: serde_json::Number) -> RawJson {
    if let Some(u) = n.as_u64() {
        RawJson::PosInt(u)
    } else if let Some(i) = n.as_i64() {
        RawJson::NegInt(i)
    } else {
        let t = n.to_string();
        RawJson::Float(n, t)
    }
}

/// Converts a `serde_json::Value` one for one (an object as its members, in
/// the order the map gives them).
#[verifier::external_body]
fn raw_from_serde(v: Value) -> RawJson {
    match v {
        Value::Null => RawJson::Null,
        Value::Bool(b) => RawJson::Bool(b),
        Value::Number(n) => raw_number(n),
        Value::String(s) => RawJson::String(s),
        Value::Array(a) => RawJson::Array(a.into_iter().map(raw_from_serde).collect()),
        Value::Object(m) => RawJson::Object(m.into_iter().map(|(k, x)| (k, raw_from_serde(x))).collect()),
    }
}

/// Converts a number to a `serde_json::Number` one for one.
#[verifier::external_body]
fn number_to_serde(n: &JsonNumber) -> serde_json::Number {
    match n {
        JsonNumber::PosInt(u) => (*u).into(),
        JsonNumber::NegInt(i) => (*i).into(),
        JsonNumber::Float(f) => f.number().clone(),
    }
}

/// Converts a value to a `serde_json::Value` one for one.
#[verifier::external_body]
fn value_to_serde(v: &JsonValue) -> Value {
    match v {
        JsonValue::Null => Value::Null,
        JsonValue::Bool(b) => Value::Bool(*b),
        JsonValue::Number(n) => Value::Number(number_to_serde(n)),
        JsonValue::String(s) => Value::String(s.clone()),
        JsonValue::Array(a) => Value::Array(a.iter().map(value_to_serde).collect()),
        JsonValue::Object(o) => Value::Object(
            o.entries().iter().map(|(k, x)| (k.clone(), value_to_serde(x))).collect(),
        ),
    }
}

/// Calls `serde_json::from_str::<serde_json::Value>`: reads a JSON text; on
/// failure gives the error's message. What it reads is named `json_parse`.
/// Its objects are `serde_json::Map`s backed by a `BTreeMap` (the crate's
/// default), whose members come out in ascending key order, each key once.
/// Its floating-point numbers are finite `f64`s, written by `Number`'s
/// `Display` (`zmij`) as the shortest decimal that reads back as the same
/// number.
#[verifier::external_body]
fn read_json(text: &str) -> (r: Result<RawJson, String>)
    ensures
        raw_result_view(r) == json_parse(text@),
        r matches Ok(v) ==> objects_in_order(v@) && floats_read_back(v@),
{
    serde_json::from_str::<Value>(text).map(raw_from_serde).map_err(|e| e.to_string())
}

/// The library's value for a value handed over by `serde_json`.
fn json_from_raw(v: &RawJson) -> (r: JsonValue)
    requires
        objects_in_order(v@),
        floats_read_back(v@),
    ensures
        r@ == v@,
    decreases v,
{
    match v {
        RawJson::Null => JsonValue::Null,
        RawJson::Bool(b) => JsonValue::Bool(*b),
        RawJson::PosInt(u) => JsonValue::Number(JsonNumber::PosInt(*u)),
        RawJson::NegInt(i) => JsonValue::Number(JsonNumber::NegInt(*i)),
        RawJson::Float(n, t) => JsonValue::Number(
            JsonNumber::Float(FloatNumber::new(clone_number(n), t.clone())),
        ),
        RawJson::String(s) => JsonValue::String(s.clone()),
        RawJson::Array(a) => {
            let mut out: Vec<JsonValue> = Vec::new();
            let n = a.len();
            for i in 0..n
                invariant
                    *v == RawJson::Array(*a),
                    objects_in_order(v@),
                    floats_read_back(v@),
                    n == a@.len(),
                    out@.len() == i,
                    forall|j: int| 0 <= j < i ==> (#[trigger] out@[j])@ == a@[j]@,
            {
                assert(v->Array_0 == *a);
                assert(decreases_to!(*v => v->Array_0));
                assert(decreases_to!(v->Array_0 => (v->Array_0)@));
                assert(decreases_to!(a@ => a@[i as int]));
                assert(decreases_to!(*v => a@[i as int]));
                assert(v@->Array_0[i as int] == a@[i as int]@);
                out.push(json_from_raw(&a[i]));
            }
            let r = JsonValue::Array(out);
            assert(r@->Array_0 =~= v@->Array_0);
            r
        },
        RawJson::Object(m) => {
            let ghost es = v@->Object_0;
            let mut o = JsonObject::new();
            let n = m.len();
            assert(es.take(0) =~= Seq::<(Seq<char>, JsonV)>::empty());
            for i in 0..n
                invariant
                    *v == RawJson::Object(*m),
                    objects_in_order(v@),
                    floats_read_back(v@),
                    es == v@->Object_0,
                    n == m@.len(),
                    n == es.len(),
                    o@ == es.take(i as int),
            {
                assert(v->Object_0 == *m);
                assert(decreases_to!(*v => v->Object_0));
                assert(decreases_to!(v->Object_0 => (v->Object_0)@));
                assert(decreases_to!(m@ => m@[i as int]));
                assert(decreases_to!(m@[i as int] => m@[i as int].1));
                assert(decreases_to!(*v => m@[i as int].1));
                assert(es[i as int] == (m@[i as int].0@, m@[i as int].1@));
                assert(keys_ascending(es));
                assert(objects_in_order(es[i as int].1));
                assert(floats_read_back(es[i as int].1));
                let k = m[i].0.clone();
                let x = json_from_raw(&m[i].1);
                proof {
                    assert forall|j: int| 0 <= j < es.take(i as int).len() implies key_lt(
                        #[trigger] es.take(i as int)[j].0,
                        k@,
                    ) by {
                        assert(es.take(i as int)[j] == es[j]);
                        assert(key_lt(es[j].0, es[i as int].0));
                    }
                    lemma_insert_greatest(es.take(i as int), k@, x@);
                    assert(es.take(i as int).push((k@, x@)) =~= es.take(i + 1));
                }
                o.insert(k, x);
            }
            assert(es.take(n as int) =~= es);
            JsonValue::Object(o)
        },
    }
}

/// Reads a JSON text with `serde_json::from_str::<serde_json::Value>`; on
/// failure gives the error's message. What it reads is named `json_parse`.
pub(crate) fn parse_json_text(text: &str) -> (r: Result<JsonValue, String>)
    ensures
        value_result_view(r) == json_parse(text@),
        r matches Ok(v) ==> floats_read_back(v@),
{
    match read_json(text) {
        Ok(v) => Ok(json_from_raw(&v)),
        Err(m) => Err(m),
    }
}

/// Calls `serde_json::to_string` on a value: its compact JSON text, or the
/// error's message. What it writes is named `json_compact`.
#[verifier::external_body]
pub(crate) fn write_json_compact(v: &JsonValue) -> (r: Result<String, String>)
    ensures
        text_result_view(r) == json_compact(v@),
{
    serde_json::to_string(&value_to_serde(v)).map_err(|e| e.to_string())
}

/// Calls `serde_json::to_string_pretty` on a value: its indented JSON text,
/// or the error's message. What it writes is named `json_pretty`.
#[verifier::external_body]
pub(crate) fn write_json_pretty(v: &JsonValue) -> (r: Result<String, String>)
    ensures
        text_result_view(r) == json_pretty(v@),
{
    serde_json::to_string_pretty(&value_to_serde(v)).map_err(|e| e.to_string())
}

/// Calls `serde_json::Number::from_f64` on what `str::parse` reads in `raw`
/// as a floating-point number, and gives the number made with the text its
/// `Display` writes. What it writes is named `float_text`. That text (by
/// `zmij`) is the shortest decimal that `str::parse` reads back as the same
/// finite number, so it gives itself again, and it has the shape
/// `float_shaped` says.
#[verifier::external_body]
pub(crate) fn float_number(raw: &str) -> (r: Option<(serde_json::Number, String)>)
    ensures
        match float_text(raw@) {
            Some(t) => r matches Some((n, s)) && s@ == t && float_reads_back(s@),
            None => r is None,
        },
{
    match raw.parse().ok().and_then(serde_json::Number::from_f64) {
        Some(n) => {
            let t = n.to_string();
            Some((n, t))
        },
        None => None,
    }
}

} // verus!
