//! What the texts the library writes read back as, for every input: quoted
//! values (whatever characters they hold), the texts of JSON values given as
//! pair values, flat objects, and JSON text written for an object.

use vstd::prelude::*;
use vstd::utf8::*;
use crate::pair_laws::{
    lemma_char_code, lemma_encode_append, lemma_encode_ascii_char, lemma_encoded_bytes_avoid,
    lemma_escape_char_bytes, lemma_small_u32_as_u8,
};
use crate::parser::{byte_char, escape_char, escape_chars, quoted_body, unescape_byte};
use crate::logfmt::{
    coerce_view, encode_string_view, logfmt_members, needs_logfmt_quotes, quoted_from, value_at,
    ws_end,
};
use crate::parser::{json_pairs, logfmt_value, member_pairs, needs_quotes, pair_value, value_text};
use crate::object_laws::{
    lemma_coerce_integer, lemma_float_reads_back, lemma_raw_value_at, lemma_words,
    number_reads_back,
};
use crate::json::JsonV;
use crate::json_fmt::{first_nested, flat_object, is_nested};
use crate::convert::logfmt_to_json_result;
use crate::error::KvfmtErrorV;
use crate::serde_bridge::{json_compact, json_parse, json_pretty};
use crate::text::{is_ascii_ws_char, trim_chars};

verus! {

/// Bytes read one by one, each as the character with the same number (as the
/// inside of a quoted value is read).
pub open spec fn byte_chars(b: Seq<u8>) -> Seq<char> {
    b.map_values(|x: u8| x as char)
}

/// An ASCII text's bytes, each read as one character, are the text.
pub proof fn lemma_byte_chars_ascii(v: Seq<char>)
    requires
        forall|i: int| 0 <= i < v.len() ==> #[trigger] v[i] <= '\u{7f}',
    ensures
        byte_chars(encode_utf8(v)) == v,
    decreases v.len(),
{
    if v.len() == 0 {
        assert(byte_chars(encode_utf8(v)) =~= v);
    } else {
        let rest = v.drop_first();
        assert forall|i: int| 0 <= i < rest.len() implies #[trigger] rest[i] <= '\u{7f}' by {
            assert(rest[i] == v[i + 1]);
        }
        lemma_byte_chars_ascii(rest);
        lemma_ascii_char_byte(v[0]);
        lemma_encode_append(seq![v[0]], rest);
        assert(seq![v[0]] + rest =~= v);
        let cs = encode_utf8(seq![v[0]]);
        let rs = encode_utf8(rest);
        assert(byte_chars(cs + rs) =~= byte_chars(cs) + byte_chars(rs));
        assert(seq![v[0]] + rest =~= v);
    }
}

/// An ASCII character is one byte that reads back as the character.
pub proof fn lemma_ascii_char_byte(c: char)
    requires
        c <= '\u{7f}',
    ensures
        encode_utf8(seq![c]) == seq![c as u8],
        byte_chars(encode_utf8(seq![c])) == seq![c],
{
    lemma_encode_ascii_char(c);
    lemma_small_u32_as_u8(c as u32);
    assert(((c as u8) as char) == c) by {
        lemma_char_code(c);
    }
    assert(byte_chars(seq![c as u8]) =~= seq![c]);
}

/// The bytes of a character above ASCII are neither `\` nor a quote.
pub proof fn lemma_wide_char_bytes(c: char)
    requires
        c > '\u{7f}',
    ensures
        forall|j: int|
            0 <= j < encode_utf8(seq![c]).len() ==> #[trigger] encode_utf8(seq![c])[j] != 0x5Cu8
                && encode_utf8(seq![c])[j] != 0x22u8,
        encode_utf8(seq![c]).len() > 0,
{
    let bad = |x: u8| x == 0x5Cu8 || x == 0x22u8;
    assert(seq![c][0] == c);
    lemma_encoded_bytes_avoid(seq![c], bad);
    assert(encode_scalar(c as u32).len() > 0);
    assert(encode_utf8(seq![c]) == encode_scalar(c as u32) + encode_utf8(seq![c].drop_first()));
}

/// Reading bytes in a string of bytes that holds no `\` and no quote, for
/// `quoted_body`: each byte is one character.
pub proof fn lemma_quoted_body_plain(p: Seq<u8>, q: Seq<u8>)
    requires
        forall|j: int| 0 <= j < p.len() ==> #[trigger] p[j] != 0x5Cu8 && p[j] != 0x22u8,
    ensures
        quoted_body(p + q) == match quoted_body(q) {
            Some((s, e)) => Some((byte_chars(p) + s, e + p.len())),
            None => None,
        },
    decreases p.len(),
{
    if p.len() == 0 {
        assert(p + q =~= q);
        assert(byte_chars(p) =~= Seq::<char>::empty());
        match quoted_body(q) {
            Some((s, e)) => {
                assert(byte_chars(p) + s =~= s);
            },
            None => {},
        }
    } else {
        let t = p.drop_first();
        assert forall|j: int| 0 <= j < t.len() implies #[trigger] t[j] != 0x5Cu8 && t[j] != 0x22u8 by {
            assert(t[j] == p[j + 1]);
        }
        lemma_quoted_body_plain(t, q);
        assert((p + q)[0] == p[0]);
        assert((p + q).drop_first() =~= t + q);
        match quoted_body(q) {
            Some((s, e)) => {
                assert(seq![byte_char(p[0])] + (byte_chars(t) + s) =~= byte_chars(p) + s);
            },
            None => {},
        }
    }
}

/// A text written escaped inside quotes, then the closing quote, for
/// `quoted_body`: each byte of the text's UTF-8 encoding is read as one
/// character, and the body ends at the closing quote.
pub proof fn lemma_quoted_body_any(v: Seq<char>, t: Seq<u8>)
    ensures
        quoted_body(encode_utf8(escape_chars(v)) + seq![0x22u8] + t) == Some(
            (byte_chars(encode_utf8(v)), encode_utf8(escape_chars(v)).len()),
        ),
    decreases v.len(),
{
    let q = encode_utf8(escape_chars(v)) + seq![0x22u8] + t;
    if v.len() == 0 {
        assert(escape_chars(v) =~= Seq::<char>::empty());
        assert(q[0] == 0x22u8);
        assert(byte_chars(encode_utf8(v)) =~= Seq::<char>::empty());
    } else {
        let c = v[0];
        let rest = v.drop_first();
        lemma_quoted_body_any(rest, t);
        let ec = escape_char(c);
        lemma_encode_append(ec, escape_chars(rest));
        lemma_encode_append(seq![c], rest);
        assert(seq![c] + rest =~= v);
        let eb = encode_utf8(ec);
        let tail = encode_utf8(escape_chars(rest)) + seq![0x22u8] + t;
        assert(q =~= eb + tail);
        let cs = encode_utf8(seq![c]);
        let rs = encode_utf8(rest);
        assert(byte_chars(cs + rs) =~= byte_chars(cs) + byte_chars(rs));
        if c <= '\u{7f}' {
            lemma_escape_char_bytes(c);
            lemma_ascii_char_byte(c);
            if ec.len() == 2 {
                assert(q.skip(2) =~= tail);
            } else {
                assert(q.drop_first() =~= tail);
            }
        } else {
            assert(ec == seq![c]);
            lemma_wide_char_bytes(c);
            lemma_quoted_body_plain(cs, tail);
        }
    }
}

/// Reading bytes that hold no `\` and no quote, for `quoted_from`: each
/// byte is one character.
pub proof fn lemma_quoted_from_plain(b: Seq<u8>, i: int, m: int)
    requires
        0 <= i,
        0 <= m,
        i + m <= b.len(),
        forall|j: int| i <= j < i + m ==> #[trigger] b[j] != 0x5Cu8 && b[j] != 0x22u8,
    ensures
        quoted_from(b, i) == match quoted_from(b, i + m) {
            Ok((s, e)) => Ok((byte_chars(b.subrange(i, i + m)) + s, e)),
            Err(x) => Err(x),
        },
    decreases m,
{
    if m == 0 {
        assert(byte_chars(b.subrange(i, i)) =~= Seq::<char>::empty());
        match quoted_from(b, i) {
            Ok((s, e)) => {
                assert(byte_chars(b.subrange(i, i)) + s =~= s);
            },
            Err(x) => {},
        }
    } else {
        lemma_quoted_from_plain(b, i + 1, m - 1);
        match quoted_from(b, i + m) {
            Ok((s, e)) => {
                assert(seq![b[i] as char] + (byte_chars(b.subrange(i + 1, i + m)) + s)
                    =~= byte_chars(b.subrange(i, i + m)) + s);
            },
            Err(x) => {},
        }
    }
}

/// A text written escaped inside quotes, then the closing quote, for
/// `quoted_from`: each byte of the text's UTF-8 encoding is read as one
/// character, and reading ends after the closing quote and the white space
/// that follows it.
pub proof fn lemma_quoted_from_any(b: Seq<u8>, i: int, v: Seq<char>)
    requires
        0 <= i,
        i + encode_utf8(escape_chars(v)).len() < b.len(),
        b.subrange(i, i + encode_utf8(escape_chars(v)).len()) == encode_utf8(escape_chars(v)),
        b[i + encode_utf8(escape_chars(v)).len()] == 0x22u8,
    ensures
        quoted_from(b, i) == Ok::<(Seq<char>, int), (int, Seq<char>)>(
            (byte_chars(encode_utf8(v)), ws_end(b, i + encode_utf8(escape_chars(v)).len() + 1)),
        ),
    decreases v.len(),
{
    let eb = encode_utf8(escape_chars(v));
    if v.len() == 0 {
        assert(escape_chars(v) =~= Seq::<char>::empty());
        assert(byte_chars(encode_utf8(v)) =~= Seq::<char>::empty());
    } else {
        let c = v[0];
        let rest = v.drop_first();
        let ec = escape_char(c);
        lemma_encode_append(ec, escape_chars(rest));
        lemma_encode_append(seq![c], rest);
        assert(seq![c] + rest =~= v);
        let cb = encode_utf8(ec);
        let rb = encode_utf8(escape_chars(rest));
        assert(eb =~= cb + rb);
        let n = cb.len() as int;
        assert(b.subrange(i + n, i + n + rb.len()) =~= rb) by {
            assert forall|x: int| 0 <= x < rb.len() implies b.subrange(i + n, i + n + rb.len())[x]
                == rb[x] by {
                assert(b.subrange(i, i + eb.len())[n + x] == eb[n + x]);
            }
        }
        lemma_quoted_from_any(b, i + n, rest);
        let cs = encode_utf8(seq![c]);
        let rs = encode_utf8(rest);
        assert(byte_chars(cs + rs) =~= byte_chars(cs) + byte_chars(rs));
        assert(i + n + rb.len() + 1 == i + eb.len() + 1);
        if c <= '\u{7f}' {
            lemma_escape_char_bytes(c);
            lemma_ascii_char_byte(c);
            assert(b.subrange(i, i + eb.len())[0] == b[i]);
            if n == 2 {
                assert(b.subrange(i, i + eb.len())[1] == b[i + 1]);
            }
        } else {
            assert(ec == seq![c]);
            lemma_wide_char_bytes(c);
            assert(b.subrange(i, i + n) =~= cs) by {
                assert forall|x: int| 0 <= x < n implies b.subrange(i, i + n)[x] == cs[x] by {
                    assert(b.subrange(i, i + eb.len())[x] == eb[x]);
                }
            }
            assert forall|j: int| i <= j < i + n implies #[trigger] b[j] != 0x5Cu8 && b[j] != 0x22u8 by {
                assert(b.subrange(i, i + n)[j - i] == cs[j - i]);
            }
            lemma_quoted_from_plain(b, i, n);
        }
    }
}


/// A text written by `encode_string` and read back as a value: a text that is
/// empty or holds ASCII white space, `=` or a quote is quoted, whatever other
/// characters it holds, so reading gives each byte of its UTF-8 encoding as
/// one character (the text itself when it is ASCII); any other text is read
/// back as itself. Either way reading stops exactly at the end of what was
/// written.
pub proof fn law_encoded_string_read_back(s: Seq<char>)
    ensures
        value_at(encode_utf8(encode_string_view(s)), 0) == Ok::<(Seq<char>, int), (int, Seq<char>)>(
            (
                if s.len() == 0 || exists|i: int|
                    0 <= i < s.len() && (is_ascii_ws_char(#[trigger] s[i]) || s[i] == '=' || s[i]
                        == '"') {
                    byte_chars(encode_utf8(s))
                } else {
                    s
                },
                encode_utf8(encode_string_view(s)).len() as int,
            ),
        ),
{
    let b = encode_utf8(encode_string_view(s));
    if needs_logfmt_quotes(s) {
        let esc = escape_chars(s);
        let ee = encode_utf8(esc);
        lemma_encode_ascii_char('"');
        lemma_encode_append(seq!['"'] + esc, seq!['"']);
        lemma_encode_append(seq!['"'], esc);
        assert(b =~= seq![0x22u8] + ee + seq![0x22u8]);
        assert(b.subrange(1, 1 + ee.len() as int) =~= ee);
        assert(b[1 + ee.len() as int] == 0x22u8);
        lemma_quoted_from_any(b, 1, s);
        assert(ws_end(b, b.len() as int) == b.len());
    } else {
        assert forall|x: int| 0 <= x < s.len() implies #[trigger] s[x] != '"' && !is_ascii_ws_char(
            s[x],
        ) by {
            if s[x] == '"' || is_ascii_ws_char(s[x]) {
                assert(needs_logfmt_quotes(s));
            }
        }
        assert(b.subrange(0, b.len() as int) =~= b);
        lemma_raw_value_at(b, 0, s);
    }
}

/// A pair value written by `emit_logfmt` that is empty or holds a space, a
/// quote, a backslash, a line feed, a carriage return or a tab is quoted and
/// escaped, whatever other characters it holds: reading it back (with
/// anything after it) gives each byte of its UTF-8 encoding as one character
/// (the value itself when it is ASCII) and takes exactly the bytes written.
pub proof fn law_quoted_pair_value_read_back(v: Seq<char>, t: Seq<u8>)
    requires
        v.len() == 0 || v.contains(' ') || v.contains('"') || v.contains('\\') || v.contains('\n')
            || v.contains('\r') || v.contains('\t'),
    ensures
        pair_value(encode_utf8(logfmt_value(v)) + t) == Ok::<(Seq<char>, nat), Seq<char>>(
            (byte_chars(encode_utf8(v)), encode_utf8(logfmt_value(v)).len()),
        ),
        (forall|i: int| 0 <= i < v.len() ==> #[trigger] v[i] <= '\u{7f}') ==> byte_chars(
            encode_utf8(v),
        ) == v,
{
    if forall|i: int| 0 <= i < v.len() ==> #[trigger] v[i] <= '\u{7f}' {
        lemma_byte_chars_ascii(v);
    }
    let esc = escape_chars(v);
    let ee = encode_utf8(esc);
    let w = encode_utf8(logfmt_value(v)) + t;
    assert(needs_quotes(v));
    lemma_encode_ascii_char('"');
    lemma_encode_append(seq!['"'] + esc, seq!['"']);
    lemma_encode_append(seq!['"'], esc);
    assert(encode_utf8(logfmt_value(v)) =~= seq![0x22u8] + ee + seq![0x22u8]);
    assert(w.drop_first() =~= ee + seq![0x22u8] + t);
    lemma_quoted_body_any(v, t);
}

/// The pairs `parse_json` gives for a JSON object: one per member, in the
/// object's key order, with the member's key; a text member gives its text,
/// and a boolean, null or number member gives a text that reads back (as a
/// logfmt value) as that very value: `true` or `false` as the boolean is,
/// `null`, the number.
pub proof fn law_json_pair_texts(text: Seq<char>, es: Seq<(Seq<char>, JsonV)>)
    requires
        json_parse(trim_chars(text)) == Ok::<JsonV, Seq<char>>(JsonV::Object(es)),
    ensures
        json_pairs(text) matches Ok(ps) && ps.len() == es.len() && forall|i: int|
            0 <= i < es.len() ==> {
                &&& (#[trigger] ps[i]).0 == es[i].0
                &&& (es[i].1 matches JsonV::String(s) ==> ps[i].1 == s)
                &&& (es[i].1 is Bool || es[i].1 is Null || (es[i].1 is Number && number_reads_back(
                    es[i].1->Number_0,
                ))) ==> coerce_view(ps[i].1) == es[i].1
            },
{
    let ps = member_pairs(es);
    lemma_words();
    assert forall|i: int| 0 <= i < es.len() implies {
        &&& (#[trigger] ps[i]).0 == es[i].0
        &&& (es[i].1 matches JsonV::String(s) ==> ps[i].1 == s)
        &&& (es[i].1 is Bool || es[i].1 is Null || (es[i].1 is Number && number_reads_back(
            es[i].1->Number_0,
        ))) ==> coerce_view(ps[i].1) == es[i].1
    } by {
        assert(ps[i] == (es[i].0, value_text(es[i].1)));
        match es[i].1 {
            JsonV::Number(n) => {
                if number_reads_back(n) {
                    if n is Float {
                        lemma_float_reads_back(n->Float_0);
                    } else {
                        lemma_coerce_integer(n);
                    }
                }
            },
            _ => {},
        }
    }
}

/// The key of the first nested member, if any: `None` exactly when no member
/// is an array or an object, else the key of the first one.
pub proof fn lemma_first_nested(es: Seq<(Seq<char>, JsonV)>)
    ensures
        first_nested(es) is None <==> forall|i: int|
            0 <= i < es.len() ==> !(#[trigger] es[i].1 is Array) && !(es[i].1 is Object),
        first_nested(es) matches Some(k) ==> exists|j: int|
            0 <= j < es.len() && (#[trigger] es[j].1 is Array || es[j].1 is Object) && es[j].0 == k
                && forall|i: int| 0 <= i < j ==> !(#[trigger] es[i].1 is Array) && !(es[i].1 is Object),
    decreases es.len(),
{
    if es.len() > 0 {
        let t = es.drop_first();
        lemma_first_nested(t);
        if !is_nested(es[0].1) {
            assert forall|i: int| 0 < i < es.len() implies es[i] == t[i - 1] by {}
            if let Some(k) = first_nested(t) {
                let j = choose|j: int|
                    0 <= j < t.len() && (#[trigger] t[j].1 is Array || t[j].1 is Object) && t[j].0
                        == k && forall|i: int|
                        0 <= i < j ==> !(#[trigger] t[i].1 is Array) && !(t[i].1 is Object);
                assert(es[j + 1] == t[j]);
                assert forall|i: int| 0 <= i < j + 1 implies !(#[trigger] es[i].1 is Array) && !(
                es[i].1 is Object) by {
                    if i > 0 {
                        assert(es[i] == t[i - 1]);
                    }
                }
            } else {
                assert forall|i: int| 0 <= i < es.len() implies !(#[trigger] es[i].1 is Array) && !(
                es[i].1 is Object) by {
                    if i > 0 {
                        assert(es[i] == t[i - 1]);
                    }
                }
            }
        }
    }
}

/// Reading a JSON text as a flat object: when it succeeds, the object is the
/// one the text holds and no member is an array or an object; when the text
/// holds an object with a member that is an array or an object, it fails with
/// `UnsupportedValue` for the first such member in key order.
pub proof fn law_flat_object(text: Seq<char>)
    ensures
        flat_object(text) matches Ok(es) ==> json_parse(text) == Ok::<JsonV, Seq<char>>(
            JsonV::Object(es),
        ) && forall|i: int| 0 <= i < es.len() ==> !(#[trigger] es[i].1 is Array) && !(es[i].1 is Object),
        json_parse(text) matches Ok(JsonV::Object(es)) ==> ((exists|i: int|
            0 <= i < es.len() && (#[trigger] es[i].1 is Array || es[i].1 is Object)) ==> (flat_object(
            text,
        ) matches Err(KvfmtErrorV::UnsupportedValue { key }) && exists|j: int|
            0 <= j < es.len() && (#[trigger] es[j].1 is Array || es[j].1 is Object) && es[j].0 == key
                && forall|i: int| 0 <= i < j ==> !(#[trigger] es[i].1 is Array) && !(es[i].1 is Object))),
{
    if let Ok(JsonV::Object(es)) = json_parse(text) {
        lemma_first_nested(es);
    }
}

/// The JSON text written for a logfmt text is what `serde_json` writes for
/// the very object the logfmt text is read as, every member kept as it is
/// (compact, or indented when `pretty`).
pub proof fn law_logfmt_json_text(input: Seq<char>, pretty: bool)
    ensures
        logfmt_to_json_result(input, pretty) matches Ok(s) ==> (logfmt_members(encode_utf8(input))
            matches Ok(es) && (if pretty {
            json_pretty(JsonV::Object(es))
        } else {
            json_compact(JsonV::Object(es))
        }) == Ok::<Seq<char>, Seq<char>>(s)),
{
}

} // verus!
