//! logfmt lines read into JSON objects and JSON objects written as logfmt.
//! A key without `=` stands for `true`; `true`, `false`, `null` and numerals
//! become booleans, null and numbers.

use vstd::prelude::*;
use vstd::utf8::*;
use crate::error::{KvfmtError, KvfmtErrorV};
use crate::json::{FloatNumber, JsonNumber, JsonNumberV, JsonObject, JsonV, JsonValue, entries_insert, entries_view, lemma_entries_insert_values, number_text, push_number, same_text};
use crate::parser::{escape_chars, push_escaped, unescape, unescape_byte};
use vstd::string::StringSliceAdditionalSpecFns;
use crate::serde_bridge::{float_number, float_text, floats_read_back};
use crate::text::{ascii_ws, is_ascii_ws, is_ascii_ws_char, parse_i64, parse_i64_spec, push_char, str_from_utf8};
use vstd::string::StringExecFns;
use crate::output_laws::{byte_chars, law_encoded_string_read_back};
use crate::object_laws::{
    law_logfmt_object_round_trip, lemma_quoted_escaped_at, lemma_raw_value_at, member_reads_back,
    member_reads_back_in_object, object_reads_back,
};
use crate::pair_laws::{lemma_encode_append, lemma_encode_ascii_char};

verus! {

/// The first position at or after `i` whose byte is not ASCII white space.
pub open spec fn ws_end(b: Seq<u8>, i: int) -> int
    decreases b.len() - i,
{
    if 0 <= i < b.len() && is_ascii_ws(b[i]) {
        ws_end(b, i + 1)
    } else {
        i
    }
}

/// The first position at or after `i` whose byte is `=` or ASCII white space.
pub open spec fn key_end(b: Seq<u8>, i: int) -> int
    decreases b.len() - i,
{
    if 0 <= i < b.len() && !is_ascii_ws(b[i]) && b[i] != 0x3Du8 {
        key_end(b, i + 1)
    } else {
        i
    }
}

/// The first position at or after `i` whose byte is ASCII white space.
pub open spec fn word_end(b: Seq<u8>, i: int) -> int
    decreases b.len() - i,
{
    if 0 <= i < b.len() && !is_ascii_ws(b[i]) {
        word_end(b, i + 1)
    } else {
        i
    }
}

/// Skipping white space, a key or a word from `i` stays within the bytes.
pub proof fn lemma_ends(b: Seq<u8>, i: int)
    requires
        0 <= i <= b.len(),
    ensures
        i <= ws_end(b, i) <= b.len(),
        i <= key_end(b, i) <= b.len(),
        i <= word_end(b, i) <= b.len(),
    decreases b.len() - i,
{
    if i < b.len() {
        lemma_ends(b, i + 1);
    }
}

/// A quoted value whose body starts at `i`: its characters and the position
/// after the closing quote and the white space that follows it, or where and
/// why reading failed.
pub open spec fn quoted_from(b: Seq<u8>, i: int) -> Result<(Seq<char>, int), (int, Seq<char>)>
    decreases b.len() - i,
{
    if i < 0 || i >= b.len() {
        Err((i, "unterminated quoted value"@))
    } else if b[i] == 0x5Cu8 {
        if i + 1 >= b.len() {
            Err((i + 1, "unterminated escape in quoted value"@))
        } else {
            match quoted_from(b, i + 2) {
                Ok((s, e)) => Ok((seq![unescape_byte(b[i + 1])] + s, e)),
                Err(x) => Err(x),
            }
        }
    } else if b[i] == 0x22u8 {
        Ok((seq![], ws_end(b, i + 1)))
    } else {
        match quoted_from(b, i + 1) {
            Ok((s, e)) => Ok((seq![b[i] as char] + s, e)),
            Err(x) => Err(x),
        }
    }
}

/// A quoted value read from `i` ends after `i`, within the bytes.
pub proof fn lemma_quoted_from(b: Seq<u8>, i: int)
    requires
        0 <= i <= b.len(),
    ensures
        quoted_from(b, i) matches Ok((s, e)) ==> i < e <= b.len(),
    decreases b.len() - i,
{
    if i < b.len() {
        if b[i] == 0x5Cu8 {
            if i + 1 < b.len() {
                lemma_quoted_from(b, i + 2);
            }
        } else if b[i] == 0x22u8 {
            lemma_ends(b, i + 1);
        } else {
            lemma_quoted_from(b, i + 1);
        }
    }
}

/// The value that starts at `i` (right after `=`): its raw text and the
/// position after it, or where and why reading failed.
pub open spec fn value_at(b: Seq<u8>, i: int) -> Result<(Seq<char>, int), (int, Seq<char>)> {
    if i < 0 || i >= b.len() {
        Err((i, "missing value after '='"@))
    } else if b[i] == 0x22u8 {
        quoted_from(b, i + 1)
    } else {
        let e = word_end(b, i);
        if valid_utf8(b.subrange(i, e)) {
            Ok((decode_utf8(b.subrange(i, e)), e))
        } else {
            Err((i, "invalid UTF-8 in value"@))
        }
    }
}

/// A value read from `i` ends at or after `i`, within the bytes.
pub proof fn lemma_value_at(b: Seq<u8>, i: int)
    requires
        0 <= i <= b.len(),
    ensures
        value_at(b, i) matches Ok((s, e)) ==> i <= e <= b.len(),
{
    lemma_ends(b, i);
    if i < b.len() && b[i] == 0x22u8 {
        lemma_quoted_from(b, i + 1);
    }
}

/// The JSON value a raw logfmt value stands for: `true`, `false`, `null`, an
/// integer numeral in the range of `i64`, a finite floating-point numeral, or
/// else the text itself.
pub open spec fn coerce_view(raw: Seq<char>) -> JsonV {
    if raw == "true"@ {
        JsonV::Bool(true)
    } else if raw == "false"@ {
        JsonV::Bool(false)
    } else if raw == "null"@ {
        JsonV::Null
    } else {
        match parse_i64_spec(raw) {
            Some(n) => JsonV::Number(
                if n >= 0 {
                    JsonNumberV::PosInt(n as u64)
                } else {
                    JsonNumberV::NegInt(n as i64)
                },
            ),
            None => match float_text(raw) {
                Some(t) => JsonV::Number(JsonNumberV::Float(t)),
                None => JsonV::String(raw),
            },
        }
    }
}

/// The members read from position `i` on, put into `acc` one by one (a later
/// value of a key replaces an earlier one), or where and why reading failed.
pub open spec fn members_from(b: Seq<u8>, i: int, acc: Seq<(Seq<char>, JsonV)>) -> Result<
    Seq<(Seq<char>, JsonV)>,
    (int, Seq<char>),
>
    decreases b.len() - i,
{
    let s = ws_end(b, i);
    if i < 0 || i > b.len() || s >= b.len() {
        Ok(acc)
    } else {
        let e = key_end(b, s);
        proof {
            lemma_ends(b, i);
            lemma_ends(b, s);
        }
        if e == s {
            Err((s, "empty key"@))
        } else if !valid_utf8(b.subrange(s, e)) {
            Err((s, "invalid UTF-8 in key"@))
        } else {
            let key = decode_utf8(b.subrange(s, e));
            if e >= b.len() || b[e] != 0x3Du8 {
                members_from(b, e, entries_insert(acc, key, JsonV::Bool(true)))
            } else {
                match value_at(b, e + 1) {
                    Err(x) => Err(x),
                    Ok((raw, n)) => {
                        proof {
                            lemma_value_at(b, e + 1);
                        }
                        members_from(b, n, entries_insert(acc, key, coerce_view(raw)))
                    },
                }
            }
        }
    }
}

/// The view of a result of reading a line into an object.
pub open spec fn object_result_view(r: Result<JsonObject, KvfmtError>) -> Result<
    Seq<(Seq<char>, JsonV)>,
    KvfmtErrorV,
> {
    match r {
        Ok(o) => Ok(o@),
        Err(e) => Err(e@),
    }
}

/// The members of a logfmt line as a result of an object or an error.
pub open spec fn logfmt_members(b: Seq<u8>) -> Result<Seq<(Seq<char>, JsonV)>, KvfmtErrorV> {
    match members_from(b, 0, seq![]) {
        Ok(m) => Ok(m),
        Err((p, m)) => Err(KvfmtErrorV::LogfmtParse { pos: p as nat, message: m }),
    }
}

} // verus!

verus! {

fn ws_end_from(b: &[u8], i: usize) -> (j: usize)
    requires
        i <= b@.len(),
    ensures
        j == ws_end(b@, i as int),
{
    let mut j = i;
    while j < b.len() && ascii_ws(b[j])
        invariant
            i <= j <= b@.len(),
            ws_end(b@, i as int) == ws_end(b@, j as int),
        decreases b@.len() - j,
    {
        j = j + 1;
    }
    j
}

fn key_end_from(b: &[u8], i: usize) -> (j: usize)
    requires
        i <= b@.len(),
    ensures
        j == key_end(b@, i as int),
{
    let mut j = i;
    while j < b.len() && !ascii_ws(b[j]) && b[j] != 0x3Du8
        invariant
            i <= j <= b@.len(),
            key_end(b@, i as int) == key_end(b@, j as int),
        decreases b@.len() - j,
    {
        j = j + 1;
    }
    j
}

fn word_end_from(b: &[u8], i: usize) -> (j: usize)
    requires
        i <= b@.len(),
    ensures
        j == word_end(b@, i as int),
{
    let mut j = i;
    while j < b.len() && !ascii_ws(b[j])
        invariant
            i <= j <= b@.len(),
            word_end(b@, i as int) == word_end(b@, j as int),
        decreases b@.len() - j,
    {
        j = j + 1;
    }
    j
}

/// An error at byte `pos` with `message`, where an object was to be read.
pub fn parse_err(pos: usize, message: &str) -> (r: Result<JsonObject, KvfmtError>)
    ensures
        r matches Err(e) && e@ == (KvfmtErrorV::LogfmtParse { pos: pos as nat, message: message@ }),
{
    Err(KvfmtError::LogfmtParse { pos, message: message.to_owned() })
}

/// An error at byte `pos` with `message`, where a value was to be read.
pub fn value_err(pos: usize, message: &str) -> (r: Result<String, KvfmtError>)
    ensures
        r matches Err(e) && e@ == (KvfmtErrorV::LogfmtParse { pos: pos as nat, message: message@ }),
{
    Err(KvfmtError::LogfmtParse { pos, message: message.to_owned() })
}

/// Reads the value that starts at `*pos` (right after `=`) and moves `*pos`
/// past it. A quoted value may hold the escapes `\"`, `\\`, `\n`, `\r`, `\t`
/// (any other escaped byte stands for itself), every other byte inside the
/// quotes stands for the character with the same number, and white space
/// after the closing quote is skipped. An unquoted value runs up to the next
/// ASCII white space. On an error `*pos` is left where reading stopped: at
/// the end of an unquoted value, else at the byte the error names.
pub fn read_value(bytes: &[u8], pos: &mut usize) -> (r: Result<String, KvfmtError>)
    ensures
        match value_at(bytes@, *old(pos) as int) {
            Ok((s, e)) => r matches Ok(x) && x@ == s && *final(pos) == e,
            Err((p, m)) => r matches Err(x) && x@ == (KvfmtErrorV::LogfmtParse {
                pos: p as nat,
                message: m,
            }) && *final(pos) == if *old(pos) < bytes@.len() && bytes@[*old(pos) as int]
                != 0x22u8 {
                word_end(bytes@, *old(pos) as int)
            } else {
                p
            },
        },
{
    let ghost b = bytes@;
    if *pos >= bytes.len() {
        return value_err(*pos, "missing value after '='");
    }
    if bytes[*pos] == 0x22u8 {
        *pos = *pos + 1;
        let ghost start = *pos as int;
        let mut out = String::new();
        while *pos < bytes.len()
            invariant
                b == bytes@,
                start <= *pos <= b.len(),
                value_at(b, *old(pos) as int) == quoted_from(b, start),
                quoted_from(b, start) == match quoted_from(b, *pos as int) {
                    Ok((s, e)) => Ok((out@ + s, e)),
                    Err(x) => Err(x),
                },
            decreases b.len() - *pos,
        {
            let c = bytes[*pos];
            if c == 0x5Cu8 {
                *pos = *pos + 1;
                if *pos >= bytes.len() {
                    return value_err(*pos, "unterminated escape in quoted value");
                }
                let ghost before = out@;
                push_char(&mut out, unescape(bytes[*pos]));
                proof {
                    match quoted_from(b, *pos + 1) {
                        Ok((s, e)) => {
                            assert(before + (seq![unescape_byte(b[*pos as int])] + s) =~= out@ + s);
                        },
                        Err(x) => {},
                    }
                }
                *pos = *pos + 1;
            } else if c == 0x22u8 {
                let end = ws_end_from(bytes, *pos + 1);
                *pos = end;
                assert(out@ + seq![] =~= out@);
                return Ok(out);
            } else {
                let ghost before = out@;
                push_char(&mut out, c as char);
                proof {
                    match quoted_from(b, *pos + 1) {
                        Ok((s, e)) => {
                            assert(before + (seq![c as char] + s) =~= out@ + s);
                        },
                        Err(x) => {},
                    }
                }
                *pos = *pos + 1;
            }
        }
        return value_err(*pos, "unterminated quoted value");
    }
    let start = *pos;
    let end = word_end_from(bytes, start);
    proof {
        lemma_ends(b, start as int);
    }
    *pos = end;
    match str_from_utf8(&bytes[start..end]) {
        Some(s) => Ok(s.to_owned()),
        None => Err(KvfmtError::LogfmtParse { pos: start, message: "invalid UTF-8 in value".to_owned() }),
    }
}

/// The JSON value a raw logfmt value stands for: `true`, `false` and `null`
/// as themselves, an integer numeral in the range of `i64` as that integer,
/// a finite floating-point numeral as that number, anything else as text.
pub fn coerce_value(raw: String) -> (r: JsonValue)
    ensures
        r@ == coerce_view(raw@),
        floats_read_back(r@),
{
    if same_text(raw.as_str(), "true") {
        return JsonValue::Bool(true);
    }
    if same_text(raw.as_str(), "false") {
        return JsonValue::Bool(false);
    }
    if same_text(raw.as_str(), "null") {
        return JsonValue::Null;
    }
    if let Some(n) = parse_i64(raw.as_str()) {
        if n >= 0 {
            return JsonValue::Number(JsonNumber::PosInt(n as u64));
        } else {
            return JsonValue::Number(JsonNumber::NegInt(n));
        }
    }
    if let Some((n, t)) = float_number(raw.as_str()) {
        return JsonValue::Number(JsonNumber::Float(FloatNumber::new(n, t)));
    }
    JsonValue::String(raw)
}

/// Reads a logfmt line into an object: `key=value` pairs and bare keys
/// (which stand for `true`) separated by ASCII white space; values become
/// JSON values as `coerce_value` says, and a later value of a key replaces an
/// earlier one. An error tells the byte where reading failed.
pub fn parse(input: &str) -> (r: Result<JsonObject, KvfmtError>)
    ensures
        object_result_view(r) == logfmt_members(encode_utf8(input@)),
        r matches Ok(o) ==> forall|i: int| 0 <= i < o@.len() ==> floats_read_back(#[trigger] o@[i].1),
{
    let bytes = input.as_bytes();
    let ghost b = bytes@;
    let mut map = JsonObject::new();
    let mut pos: usize = 0;
    while pos < bytes.len()
        invariant
            b == bytes@,
            b == encode_utf8(input@),
            pos <= b.len(),
            members_from(b, 0, seq![]) == members_from(b, pos as int, map@),
            forall|i: int| 0 <= i < map@.len() ==> floats_read_back(#[trigger] map@[i].1),
        decreases b.len() - pos,
    {
        let ks = ws_end_from(bytes, pos);
        proof {
            lemma_ends(b, pos as int);
        }
        if ks >= bytes.len() {
            return Ok(map);
        }
        let ke = key_end_from(bytes, ks);
        proof {
            lemma_ends(b, ks as int);
        }
        if ke == ks {
            return parse_err(ks, "empty key");
        }
        let key = match str_from_utf8(&bytes[ks..ke]) {
            Some(s) => s.to_owned(),
            None => return parse_err(ks, "invalid UTF-8 in key"),
        };
        if ke >= bytes.len() || bytes[ke] != 0x3Du8 {
            proof {
                lemma_entries_insert_values(map@, key@, JsonV::Bool(true), |x: JsonV| floats_read_back(x));
            }
            map.insert(key, JsonValue::Bool(true));
            pos = ke;
        } else {
            let mut vpos = ke + 1;
            proof {
                lemma_value_at(b, ke + 1);
            }
            let raw = match read_value(bytes, &mut vpos) {
                Ok(v) => v,
                Err(e) => return Err(e),
            };
            let value = coerce_value(raw);
            proof {
                lemma_entries_insert_values(map@, key@, value@, |x: JsonV| floats_read_back(x));
            }
            map.insert(key, value);
            pos = vpos;
        }
    }
    Ok(map)
}

} // verus!

verus! {

/// Whether a text is written between quotes as a logfmt value: when it is
/// empty or holds ASCII white space, `=` or a quote.
pub open spec fn needs_logfmt_quotes(s: Seq<char>) -> bool {
    s.len() == 0 || exists|i: int|
        0 <= i < s.len() && (is_ascii_ws_char(#[trigger] s[i]) || s[i] == '=' || s[i] == '"')
}

/// A text written as a logfmt value.
pub open spec fn encode_string_view(s: Seq<char>) -> Seq<char> {
    if needs_logfmt_quotes(s) {
        seq!['"'] + escape_chars(s) + seq!['"']
    } else {
        s
    }
}

/// A member written as logfmt: a bare key for `true`, else `key=value`; an
/// array or an object cannot be written.
pub open spec fn encode_pair_view(k: Seq<char>, v: JsonV) -> Result<Seq<char>, KvfmtErrorV> {
    match v {
        JsonV::Bool(true) => Ok(k),
        JsonV::Bool(false) => Ok(k + "=false"@),
        JsonV::Null => Ok(k + "=null"@),
        JsonV::Number(n) => Ok(k + seq!['='] + number_text(n)),
        JsonV::String(s) => Ok(k + seq!['='] + encode_string_view(s)),
        JsonV::Array(_) => Err(KvfmtErrorV::UnsupportedValue { key: k }),
        JsonV::Object(_) => Err(KvfmtErrorV::UnsupportedValue { key: k }),
    }
}

/// Members written as logfmt, separated by single spaces, or the error of
/// the first member that cannot be written.
pub open spec fn stringify_view(es: Seq<(Seq<char>, JsonV)>) -> Result<Seq<char>, KvfmtErrorV>
    decreases es.len(),
{
    if es.len() == 0 {
        Ok(seq![])
    } else {
        match stringify_view(es.drop_last()) {
            Err(e) => Err(e),
            Ok(r) => match encode_pair_view(es.last().0, es.last().1) {
                Err(e) => Err(e),
                Ok(p) => Ok(
                    if es.len() == 1 {
                        p
                    } else {
                        r + seq![' '] + p
                    },
                ),
            },
        }
    }
}

/// The view of a result that holds a text or an error.
pub open spec fn string_result_view(r: Result<String, KvfmtError>) -> Result<Seq<char>, KvfmtErrorV> {
    match r {
        Ok(s) => Ok(s@),
        Err(e) => Err(e@),
    }
}

/// Writes a text as a logfmt value: as it is, unless it is empty or holds
/// ASCII white space, `=` or a quote; then between quotes, with `"`, `\`,
/// line feed, carriage return and tab escaped.
pub fn encode_string(s: &str) -> (r: String)
    ensures
        r@ == encode_string_view(s@),
        value_at(encode_utf8(r@), 0) == Ok::<(Seq<char>, int), (int, Seq<char>)>(
            (
                if s@.len() == 0 || exists|i: int|
                    0 <= i < s@.len() && (is_ascii_ws_char(#[trigger] s@[i]) || s@[i] == '=' || s@[i]
                        == '"') {
                    byte_chars(encode_utf8(s@))
                } else {
                    s@
                },
                encode_utf8(r@).len() as int,
            ),
        ),
{
    proof {
        law_encoded_string_read_back(s@);
    }
    let mut quote = s.is_empty();
    for c in it: s.chars()
        invariant
            it.seq() == s@,
            quote == (s@.len() == 0 || exists|i: int|
                0 <= i < it.index() && (is_ascii_ws_char(#[trigger] s@[i]) || s@[i] == '=' || s@[i]
                    == '"')),
    {
        assert(s@[it.index() as int] == c);
        if c == ' ' || c == '\t' || c == '\n' || c == '\u{c}' || c == '\r' || c == '=' || c == '"' {
            quote = true;
        }
    }
    if !quote {
        return s.to_owned();
    }
    let mut out = String::new();
    push_char(&mut out, '"');
    push_escaped(&mut out, s);
    push_char(&mut out, '"');
    out
}

/// Writes a member as logfmt: the bare key for `true`, else `key=value` with
/// `false`, `null`, the number's numeral or the encoded text; an array or an
/// object is refused.
pub fn encode_pair(key: &str, value: &JsonValue) -> (r: Result<String, KvfmtError>)
    ensures
        string_result_view(r) == encode_pair_view(key@, value@),
{
    let mut out = String::new();
    out.append(key);
    let ghost k = key@;
    match value {
        JsonValue::Bool(true) => {},
        JsonValue::Bool(false) => {
            out.append("=false");
        },
        JsonValue::Null => {
            out.append("=null");
        },
        JsonValue::Number(n) => {
            push_char(&mut out, '=');
            push_number(&mut out, n);
            assert(out@ =~= k + seq!['='] + number_text(n@));
        },
        JsonValue::String(s) => {
            push_char(&mut out, '=');
            let e = encode_string(s.as_str());
            out.append(e.as_str());
            assert(out@ =~= k + seq!['='] + encode_string_view(s@));
        },
        JsonValue::Array(_) | JsonValue::Object(_) => {
            return Err(KvfmtError::UnsupportedValue { key: key.to_owned() });
        },
    }
    Ok(out)
}

/// Writes an object as one logfmt line (without a line feed): its members in
/// ascending key order, separated by single spaces. Fails on the first
/// member whose value is an array or an object. `parse` reads the line back
/// as the same object when each key is non-empty with no `=` and no ASCII
/// white space, and each value is flat and reads back as itself.
pub fn stringify(map: &JsonObject) -> (r: Result<String, KvfmtError>)
    ensures
        string_result_view(r) == stringify_view(map@),
        object_reads_back(map@) ==> (r matches Ok(s) && logfmt_members(encode_utf8(s@)) == Ok::<
            Seq<(Seq<char>, JsonV)>,
            KvfmtErrorV,
        >(map@)),
{
    let es = map.entries();
    proof {
        if object_reads_back(map@) {
            assert forall|i: int| 0 <= i < map@.len() implies member_reads_back(
                #[trigger] map@[i].0,
                map@[i].1,
            ) by {
                assert(member_reads_back_in_object(map@[i].0, map@[i].1));
                assert(floats_read_back(map@[i].1));
            }
            law_logfmt_object_round_trip(map@);
        }
    }
    let ghost ev = map@;
    let mut out = String::new();
    let n = es.len();
    assert(ev.take(0) =~= Seq::<(Seq<char>, JsonV)>::empty());
    for i in 0..n
        invariant
            n == es@.len(),
            entries_view(es@) == ev,
            ev == map@,
            stringify_view(ev.take(i as int)) == Ok::<Seq<char>, KvfmtErrorV>(out@),
    {
        assert(ev[i as int] == (es@[i as int].0@, es@[i as int].1@));
        let part = match encode_pair(es[i].0.as_str(), &es[i].1) {
            Ok(p) => p,
            Err(e) => {
                proof {
                    assert(ev.take(i + 1).drop_last() =~= ev.take(i as int));
                    assert(ev.take(i + 1).last() == ev[i as int]);
                    lemma_stringify_prefix_err(ev, i as int + 1);
                }
                return Err(e);
            },
        };
        assert(ev.take(i + 1).drop_last() =~= ev.take(i as int));
        assert(ev.take(i + 1).last() == ev[i as int]);
        assert(ev.take(i + 1).len() == i + 1);
        let ghost before = out@;
        assert(encode_pair_view(ev[i as int].0, ev[i as int].1) == Ok::<Seq<char>, KvfmtErrorV>(part@));
        if i > 0 {
            push_char(&mut out, ' ');
        }
        out.append(part.as_str());
        if i == 0 {
            assert(out@ =~= part@);
        } else {
            assert(out@ =~= before + seq![' '] + part@);
        }
        assert(stringify_view(ev.take(i + 1)) == Ok::<Seq<char>, KvfmtErrorV>(out@));
    }
    assert(ev.take(n as int) =~= ev);
    Ok(out)
}

/// An error in the first `n` members is the error of them all.
pub proof fn lemma_stringify_prefix_err(es: Seq<(Seq<char>, JsonV)>, n: int)
    requires
        0 <= n <= es.len(),
        stringify_view(es.take(n)) is Err,
    ensures
        stringify_view(es) == stringify_view(es.take(n)),
    decreases es.len() - n,
{
    if n < es.len() {
        assert(es.take(n + 1).drop_last() =~= es.take(n));
        lemma_stringify_prefix_err(es, n + 1);
    } else {
        assert(es.take(n) =~= es);
    }
}


/// Reading a text written by `encode_string` back as a value gives the text
/// and stops at the end of what was written, when a text that has to be
/// quoted is ASCII (inside quotes each byte is read as one character).
pub proof fn law_read_encoded_string(s: Seq<char>)
    requires
        needs_logfmt_quotes(s) ==> forall|i: int| 0 <= i < s.len() ==> #[trigger] s[i] <= '\u{7f}',
    ensures
        value_at(encode_utf8(encode_string_view(s)), 0) == Ok::<(Seq<char>, int), (int, Seq<char>)>(
            (s, encode_utf8(encode_string_view(s)).len() as int),
        ),
{
    let b = encode_utf8(encode_string_view(s));
    if needs_logfmt_quotes(s) {
        let esc = escape_chars(s);
        let ee = encode_utf8(esc);
        lemma_encode_ascii_char('"');
        lemma_encode_append(seq!['"'] + esc, seq!['"']);
        lemma_encode_append(seq!['"'], esc);
        assert(b =~= seq![0x22u8] + ee + seq![0x22u8]);
        assert(b.subrange(1, 1 + ee.len() as int) =~= ee);
        assert(b[1 + ee.len() as int] == 0x22u8);
        lemma_quoted_escaped_at(b, 1, s);
        assert(ws_end(b, b.len() as int) == b.len());
    } else {
        assert forall|x: int| 0 <= x < s.len() implies #[trigger] s[x] != '"' && !is_ascii_ws_char(
            s[x],
        ) by {
            if s[x] == '"' || is_ascii_ws_char(s[x]) {
                assert(needs_logfmt_quotes(s));
            }
        }
        assert(b.subrange(0, b.len() as int) =~= b);
        lemma_raw_value_at(b, 0, s);
    }
}

} // verus!
