//! Flat JSON objects: read from JSON text (refusing nested values) and
//! written as compact or indented JSON text.

use vstd::prelude::*;
use crate::error::{KvfmtError, KvfmtErrorV};
use crate::json::{JsonObject, JsonV, JsonValue, entries_view};
use crate::output_laws::law_flat_object;
use crate::serde_bridge::{floats_read_back, json_compact, json_parse, json_pretty, parse_json_text, write_json_compact, write_json_pretty};

verus! {

/// Whether a value is an array or an object.
pub open spec fn is_nested(v: JsonV) -> bool {
    v is Array || v is Object
}

/// The key of the first member (in key order) whose value is nested.
pub open spec fn first_nested(es: Seq<(Seq<char>, JsonV)>) -> Option<Seq<char>>
    decreases es.len(),
{
    if es.len() == 0 {
        None
    } else if is_nested(es[0].1) {
        Some(es[0].0)
    } else {
        first_nested(es.drop_first())
    }
}

/// A JSON text read as a flat object: its members, or the JSON error, or
/// `NotFlatObject` when it is not an object, or `UnsupportedValue` for the
/// first member whose value is an array or an object.
pub open spec fn flat_object(text: Seq<char>) -> Result<Seq<(Seq<char>, JsonV)>, KvfmtErrorV> {
    match json_parse(text) {
        Err(m) => Err(KvfmtErrorV::Json(m)),
        Ok(JsonV::Object(es)) => match first_nested(es) {
            Some(k) => Err(KvfmtErrorV::UnsupportedValue { key: k }),
            None => Ok(es),
        },
        Ok(_) => Err(KvfmtErrorV::NotFlatObject),
    }
}

/// The view of a result that holds an object.
pub open spec fn flat_result_view(r: Result<JsonObject, KvfmtError>) -> Result<
    Seq<(Seq<char>, JsonV)>,
    KvfmtErrorV,
> {
    match r {
        Ok(o) => Ok(o@),
        Err(e) => Err(e@),
    }
}

/// The JSON text of an object, compact or indented, as a result.
pub open spec fn object_json_text(es: Seq<(Seq<char>, JsonV)>, pretty: bool) -> Result<
    Seq<char>,
    KvfmtErrorV,
> {
    let t = if pretty {
        json_pretty(JsonV::Object(es))
    } else {
        json_compact(JsonV::Object(es))
    };
    match t {
        Ok(s) => Ok(s),
        Err(m) => Err(KvfmtErrorV::Json(m)),
    }
}

/// Refuses a nested value (an array or an object) for `key`.
pub fn ensure_flat(key: &str, value: &JsonValue) -> (r: Result<(), KvfmtError>)
    ensures
        is_nested(value@) ==> (r matches Err(e) && e@ == (KvfmtErrorV::UnsupportedValue {
            key: key@,
        })),
        !is_nested(value@) ==> r is Ok,
{
    match value {
        JsonValue::Object(_) | JsonValue::Array(_) => Err(
            KvfmtError::UnsupportedValue { key: key.to_owned() },
        ),
        _ => Ok(()),
    }
}

/// Reads a JSON text that must hold an object whose values are neither
/// arrays nor objects.
pub fn parse_flat_object(input: &str) -> (r: Result<JsonObject, KvfmtError>)
    ensures
        flat_result_view(r) == flat_object(input@),
        r matches Ok(o) ==> forall|i: int| 0 <= i < o@.len() ==> floats_read_back(#[trigger] o@[i].1),
        r matches Ok(o) ==> forall|i: int|
            0 <= i < o@.len() ==> !(#[trigger] o@[i].1 is Array) && !(o@[i].1 is Object),
{
    let value = match parse_json_text(input) {
        Ok(v) => v,
        Err(m) => return Err(KvfmtError::Json(m)),
    };
    match value {
        JsonValue::Object(map) => {
            let es = map.entries();
            let ghost ev = map@;
            let n = es.len();
            assert(ev.skip(0) =~= ev);
            for i in 0..n
                invariant
                    n == es@.len(),
                    entries_view(es@) == ev,
                    json_parse(input@) == Ok::<JsonV, Seq<char>>(JsonV::Object(ev)),
                    first_nested(ev) == first_nested(ev.skip(i as int)),
            {
                assert(ev[i as int] == (es@[i as int].0@, es@[i as int].1@));
                assert(ev.skip(i as int)[0] == ev[i as int]);
                match ensure_flat(es[i].0.as_str(), &es[i].1) {
                    Ok(()) => {},
                    Err(e) => return Err(e),
                }
                assert(ev.skip(i as int).drop_first() =~= ev.skip(i + 1));
            }
            assert(ev.skip(n as int) =~= Seq::<(Seq<char>, JsonV)>::empty());
            proof {
                law_flat_object(input@);
            }
            Ok(map)
        },
        _ => Err(KvfmtError::NotFlatObject),
    }
}

/// Writes an object as JSON text, indented when `pretty`, else compact.
pub fn to_json_string(map: &JsonObject, pretty: bool) -> (r: Result<String, KvfmtError>)
    ensures
        match object_json_text(map@, pretty) {
            Ok(s) => r matches Ok(x) && x@ == s,
            Err(e) => r matches Err(x) && x@ == e,
        },
        r matches Ok(x) ==> (if pretty {
            json_pretty(JsonV::Object(map@))
        } else {
            json_compact(JsonV::Object(map@))
        }) == Ok::<Seq<char>, Seq<char>>(x@),
{
    let v = JsonValue::Object(map.duplicate());
    let t = if pretty {
        write_json_pretty(&v)
    } else {
        write_json_compact(&v)
    };
    match t {
        Ok(s) => Ok(s),
        Err(m) => Err(KvfmtError::Json(m)),
    }
}

} // verus!
