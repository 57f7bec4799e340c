//! Whole-text conversions between logfmt and JSON.

use vstd::prelude::*;
use vstd::utf8::encode_utf8;
use crate::error::{KvfmtError, KvfmtErrorV};
use crate::json_fmt::{flat_object, object_json_text, parse_flat_object, to_json_string};
use crate::logfmt::{logfmt_members, parse, stringify, stringify_view};
use crate::json::JsonV;
use crate::output_laws::law_logfmt_json_text;
use crate::serde_bridge::{json_compact, json_pretty};

verus! {

/// The view of a result that holds a text or an error.
pub open spec fn convert_result_view(r: Result<String, KvfmtError>) -> Result<Seq<char>, KvfmtErrorV> {
    match r {
        Ok(s) => Ok(s@),
        Err(e) => Err(e@),
    }
}

/// What a logfmt text gives as JSON text.
pub open spec fn logfmt_to_json_result(input: Seq<char>, pretty: bool) -> Result<
    Seq<char>,
    KvfmtErrorV,
> {
    match logfmt_members(encode_utf8(input)) {
        Err(e) => Err(e),
        Ok(es) => object_json_text(es, pretty),
    }
}

/// What a JSON object text gives as logfmt.
pub open spec fn json_to_logfmt_result(input: Seq<char>) -> Result<Seq<char>, KvfmtErrorV> {
    match flat_object(input) {
        Err(e) => Err(e),
        Ok(es) => stringify_view(es),
    }
}

/// Reads a logfmt text into an object and writes it as JSON text (indented
/// when `pretty`).
pub fn logfmt_to_json(input: &str, pretty: bool) -> (r: Result<String, KvfmtError>)
    ensures
        convert_result_view(r) == logfmt_to_json_result(input@, pretty),
        r matches Ok(s) ==> (logfmt_members(encode_utf8(input@)) matches Ok(es) && (if pretty {
            json_pretty(JsonV::Object(es))
        } else {
            json_compact(JsonV::Object(es))
        }) == Ok::<Seq<char>, Seq<char>>(s@)),
{
    proof {
        law_logfmt_json_text(input@, pretty);
    }
    let map = match parse(input) {
        Ok(m) => m,
        Err(e) => return Err(e),
    };
    to_json_string(&map, pretty)
}

/// Reads a flat JSON object text and writes it as one logfmt line.
pub fn json_to_logfmt(input: &str) -> (r: Result<String, KvfmtError>)
    ensures
        convert_result_view(r) == json_to_logfmt_result(input@),
{
    let map = match parse_flat_object(input) {
        Ok(m) => m,
        Err(e) => return Err(e),
    };
    stringify(&map)
}

} // verus!
