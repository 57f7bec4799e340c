//! What writing an object as logfmt and reading the line back gives, and
//! what putting a member into an object does to its keys.

use vstd::prelude::*;
use vstd::utf8::*;
use crate::json::{
    JsonNumberV, JsonV, entries_get, entries_insert, key_lt, keys_ascending,
    lemma_key_order, number_text,
};
use crate::logfmt::{
    coerce_view, encode_pair_view, encode_string_view, key_end, lemma_value_at, logfmt_members,
    members_from, needs_logfmt_quotes, quoted_from, stringify_view, value_at, word_end, ws_end,
};
use crate::pair_laws::{
    key_safe, lemma_char_code, lemma_encode_append, lemma_encode_ascii_char,
    lemma_encode_nonempty, lemma_encoded_bytes_avoid, lemma_escape_char_bytes,
    lemma_small_u32_as_u8,
};
use crate::serde_bridge::float_reads_back;
use crate::parser::{byte_char, escape_char, escape_chars, unescape_byte};
use crate::text::{
    decimal, digit_char, digit_value, digits_value, is_ascii_ws, is_ascii_ws_char,
    is_digit, numeral_digits, parse_i64_spec,
};

verus! {

/// Reading a key right after putting it in gives the value put in, and
/// every other key keeps the value it had.
pub proof fn law_get_after_insert<V>(es: Seq<(Seq<char>, V)>, k: Seq<char>, v: V, other: Seq<char>)
    requires
        keys_ascending(es),
    ensures
        entries_get(entries_insert(es, k, v), k) == Some(v),
        other != k ==> entries_get(entries_insert(es, k, v), other) == entries_get(es, other),
    decreases es.len(),
{
    let r = entries_insert(es, k, v);
    if es.len() == 0 {
        assert(r.drop_first() =~= Seq::<(Seq<char>, V)>::empty());
        assert(entries_get(r.drop_first(), other) == None::<V>);
    } else if es[0].0 == k {
        assert(r.drop_first() =~= es.drop_first());
        if other != k {
            assert(entries_get(r, other) == entries_get(r.drop_first(), other));
            assert(entries_get(es, other) == entries_get(es.drop_first(), other));
        }
    } else if key_lt(es[0].0, k) {
        let t = es.drop_first();
        assert(keys_ascending(t)) by {
            assert forall|i: int, j: int| 0 <= i < j < t.len() implies key_lt(
                #[trigger] t[i].0,
                #[trigger] t[j].0,
            ) by {
                assert(t[i] == es[i + 1] && t[j] == es[j + 1]);
            }
        }
        law_get_after_insert(t, k, v, other);
        assert(r.drop_first() =~= entries_insert(t, k, v));
        assert(r[0] == es[0]);
    } else {
        assert(r.drop_first() =~= es);
    }
}

/// Putting in a key greater than every key adds its member at the end.
pub proof fn lemma_insert_greatest<V>(es: Seq<(Seq<char>, V)>, k: Seq<char>, v: V)
    requires
        forall|i: int| 0 <= i < es.len() ==> key_lt(#[trigger] es[i].0, k),
    ensures
        entries_insert(es, k, v) == es.push((k, v)),
    decreases es.len(),
{
    if es.len() == 0 {
        assert(seq![(k, v)] =~= es.push((k, v)));
    } else {
        lemma_key_order(es[0].0, k, k);
        let t = es.drop_first();
        assert forall|i: int| 0 <= i < t.len() implies key_lt(#[trigger] t[i].0, k) by {
            assert(t[i] == es[i + 1]);
        }
        lemma_insert_greatest(t, k, v);
        assert(seq![es[0]] + t.push((k, v)) =~= es.push((k, v)));
    }
}

/// The character of a digit is a digit worth it, and no sign, quote or white space.
pub proof fn lemma_digit_char(d: nat)
    requires
        d < 10,
    ensures
        is_digit(digit_char(d)),
        digit_value(digit_char(d)) == d,
        digit_char(d) != '-' && digit_char(d) != '+' && digit_char(d) != '"',
        !is_ascii_ws_char(digit_char(d)),
        digit_char(d) <= '\u{7f}',
{
    let x: u8 = (d + 48) as u8;
    assert(x as int == d + 48) by {
        lemma_small_u32_as_u8((d + 48) as u32);
        assert(((d + 48) as u32) as u8 == (d + 48) as u8);
    }
    let c = x as char;
    lemma_char_code(c);
}

/// The decimal numeral of `n` is a run of digits worth `n`.
pub proof fn lemma_decimal(n: nat)
    ensures
        decimal(n).len() > 0,
        forall|i: int| 0 <= i < decimal(n).len() ==> is_digit(#[trigger] decimal(n)[i]),
        forall|i: int|
            0 <= i < decimal(n).len() ==> !is_ascii_ws_char(#[trigger] decimal(n)[i]) && decimal(
                n,
            )[i] != '"' && decimal(n)[i] <= '\u{7f}',
        digits_value(decimal(n)) == n,
    decreases n,
{
    lemma_digit_char(n % 10);
    if n >= 10 {
        lemma_decimal(n / 10);
        let s = decimal(n / 10);
        assert(decimal(n).drop_last() =~= s);
        assert(decimal(n).last() == digit_char(n % 10));
        assert(digits_value(decimal(n)) == digits_value(s) * 10 + digit_value(digit_char(n % 10)));
        assert((n / 10) * 10 + n % 10 == n) by (nonlinear_arith);
        assert forall|i: int| 0 <= i < decimal(n).len() implies is_digit(#[trigger] decimal(n)[i])
            && !is_ascii_ws_char(decimal(n)[i]) && decimal(n)[i] != '"' && decimal(n)[i]
            <= '\u{7f}' by {
            if i < s.len() {
                assert(decimal(n)[i] == s[i]);
            }
        }
    } else {
        assert(decimal(n).drop_last() =~= Seq::<char>::empty());
        assert(digits_value(Seq::<char>::empty()) == 0);
        assert(decimal(n).last() == digit_char(n));
        assert(digits_value(decimal(n)) == 0 * 10 + digit_value(digit_char(n)));
    }
}

/// A text that starts with a digit or `-` is none of the words `true`,
/// `false`, `null`.
pub proof fn lemma_not_a_word(s: Seq<char>)
    requires
        s.len() > 0,
        is_digit(s[0]) || s[0] == '-',
    ensures
        s != "true"@,
        s != "false"@,
        s != "null"@,
{
    reveal_strlit("true");
    reveal_strlit("false");
    reveal_strlit("null");
    assert("true"@[0] == 't');
    assert("false"@[0] == 'f');
    assert("null"@[0] == 'n');
}

/// The numeral of an integer reads back as the same integer.
pub proof fn lemma_coerce_integer(n: JsonNumberV)
    requires
        n matches JsonNumberV::PosInt(u) ==> u <= i64::MAX,
        n matches JsonNumberV::NegInt(i) ==> i < 0,
        !(n is Float),
    ensures
        coerce_view(number_text(n)) == JsonV::Number(n),
{
    match n {
        JsonNumberV::PosInt(u) => {
            let t = decimal(u as nat);
            lemma_decimal(u as nat);
            lemma_not_a_word(t);
            assert(numeral_digits(t) == t);
            assert(parse_i64_spec(t) == Some(u as int));
        },
        JsonNumberV::NegInt(i) => {
            let m = (-i) as nat;
            let d = decimal(m);
            lemma_decimal(m);
            let t = seq!['-'] + d;
            assert(number_text(n) == t);
            lemma_not_a_word(t);
            assert(t.drop_first() =~= d);
            assert(numeral_digits(t) == d);
            assert(parse_i64_spec(t) == Some(i as int));
        },
        JsonNumberV::Float(_) => {},
    }
}

/// A key read from `i` ends at the first `=` or white space.
pub proof fn lemma_key_end_at(b: Seq<u8>, i: int, j: int)
    requires
        0 <= i <= j <= b.len(),
        forall|p: int| i <= p < j ==> !is_ascii_ws(#[trigger] b[p]) && b[p] != 0x3Du8,
        j == b.len() || is_ascii_ws(b[j]) || b[j] == 0x3Du8,
    ensures
        key_end(b, i) == j,
    decreases j - i,
{
    if i < j {
        lemma_key_end_at(b, i + 1, j);
    }
}

/// A word read from `i` ends at the first white space.
pub proof fn lemma_word_end_at(b: Seq<u8>, i: int, j: int)
    requires
        0 <= i <= j <= b.len(),
        forall|p: int| i <= p < j ==> !is_ascii_ws(#[trigger] b[p]),
        j == b.len() || is_ascii_ws(b[j]),
    ensures
        word_end(b, i) == j,
    decreases j - i,
{
    if i < j {
        lemma_word_end_at(b, i + 1, j);
    }
}

/// Where skipping white space from `i` stops, there is no white space.
pub proof fn lemma_ws_end_stops(b: Seq<u8>, i: int)
    requires
        0 <= i <= b.len(),
    ensures
        i <= ws_end(b, i) <= b.len(),
        ws_end(b, i) == b.len() || !is_ascii_ws(b[ws_end(b, i)]),
        ws_end(b, ws_end(b, i)) == ws_end(b, i),
    decreases b.len() - i,
{
    if i < b.len() && is_ascii_ws(b[i]) {
        lemma_ws_end_stops(b, i + 1);
    }
}

/// Reading members depends on the start only through where white space ends.
pub proof fn lemma_members_same_start(b: Seq<u8>, i: int, j: int, acc: Seq<(Seq<char>, JsonV)>)
    requires
        0 <= i <= b.len(),
        0 <= j <= b.len(),
        ws_end(b, i) == ws_end(b, j),
    ensures
        members_from(b, i, acc) == members_from(b, j, acc),
{
}

/// An escaped ASCII text, then a quote: the quoted value reads back the text
/// and ends after the white space that follows the quote.
pub proof fn lemma_quoted_escaped_at(b: Seq<u8>, i: int, v: Seq<char>)
    requires
        forall|x: int| 0 <= x < v.len() ==> #[trigger] v[x] <= '\u{7f}',
        0 <= i,
        i + encode_utf8(escape_chars(v)).len() < b.len(),
        b.subrange(i, i + encode_utf8(escape_chars(v)).len()) == encode_utf8(escape_chars(v)),
        b[i + encode_utf8(escape_chars(v)).len()] == 0x22u8,
    ensures
        quoted_from(b, i) == Ok::<(Seq<char>, int), (int, Seq<char>)>(
            (v, ws_end(b, i + encode_utf8(escape_chars(v)).len() + 1)),
        ),
    decreases v.len(),
{
    let eb = encode_utf8(escape_chars(v));
    if v.len() == 0 {
        assert(escape_chars(v) =~= Seq::<char>::empty());
        assert(eb.len() == 0);
        assert(v =~= Seq::<char>::empty());
    } else {
        let c = v[0];
        let rest = v.drop_first();
        assert forall|x: int| 0 <= x < rest.len() implies #[trigger] rest[x] <= '\u{7f}' by {
            assert(rest[x] == v[x + 1]);
        }
        let ec = escape_char(c);
        lemma_encode_append(ec, escape_chars(rest));
        lemma_escape_char_bytes(c);
        let cb = encode_utf8(ec);
        let rb = encode_utf8(escape_chars(rest));
        assert(eb =~= cb + rb);
        let n = cb.len() as int;
        assert(b.subrange(i + n, i + n + rb.len()) =~= rb) by {
            assert forall|x: int| 0 <= x < rb.len() implies b.subrange(i + n, i + n + rb.len())[x]
                == rb[x] by {
                assert(b.subrange(i, i + eb.len())[n + x] == eb[n + x]);
            }
        }
        lemma_quoted_escaped_at(b, i + n, rest);
        assert(b.subrange(i, i + eb.len())[0] == b[i]);
        if n == 2 {
            assert(b.subrange(i, i + eb.len())[1] == b[i + 1]);
            assert(b[i] == 0x5Cu8);
            assert(unescape_byte(b[i + 1]) == c);
        } else {
            assert(b[i] != 0x5Cu8 && b[i] != 0x22u8);
            assert(byte_char(b[i]) == c);
        }
        assert(seq![c] + rest =~= v);
        assert(i + n + rb.len() + 1 == i + eb.len() + 1);
        if n == 2 {
            assert(quoted_from(b, i) == Ok::<(Seq<char>, int), (int, Seq<char>)>(
                (seq![unescape_byte(b[i + 1])] + rest, ws_end(b, i + eb.len() + 1)),
            ));
        } else {
            assert(quoted_from(b, i) == Ok::<(Seq<char>, int), (int, Seq<char>)>(
                (seq![b[i] as char] + rest, ws_end(b, i + eb.len() + 1)),
            ));
        }
    }
}

/// A text value that reads back as the same text: not a word or numeral that
/// reading turns into something else, and ASCII when it is written between
/// quotes (inside quotes each byte is read as one character).
pub open spec fn text_reads_back(s: Seq<char>) -> bool {
    &&& coerce_view(s) == JsonV::String(s)
    &&& needs_logfmt_quotes(s) ==> forall|i: int| 0 <= i < s.len() ==> #[trigger] s[i] <= '\u{7f}'
}

/// A number that reads back as the same number: a non-negative integer in
/// the range of `i64`, a negative integer, or a floating-point number whose
/// text reads back as itself (as the texts of the numbers that `parse` and
/// `parse_flat_object` give do).
pub open spec fn number_reads_back(n: JsonNumberV) -> bool {
    match n {
        JsonNumberV::PosInt(u) => u <= i64::MAX,
        JsonNumberV::NegInt(i) => i < 0,
        JsonNumberV::Float(t) => float_reads_back(t),
    }
}

/// The text of a floating-point number that reads back as itself is read
/// back as that number, and holds no quote or white space.
pub proof fn lemma_float_reads_back(t: Seq<char>)
    requires
        float_reads_back(t),
    ensures
        t.len() > 0,
        forall|i: int| 0 <= i < t.len() ==> #[trigger] t[i] != '"' && !is_ascii_ws_char(t[i]),
        coerce_view(t) == JsonV::Number(JsonNumberV::Float(t)),
{
    assert forall|i: int| 0 <= i < t.len() implies #[trigger] t[i] != '"' && !is_ascii_ws_char(
        t[i],
    ) by {
        assert(is_digit(t[i]) || t[i] == '-' || t[i] == '+' || t[i] == '.' || t[i] == 'e');
    }
    lemma_not_a_word(t);
    let i = choose|i: int| 0 <= i < t.len() && (#[trigger] t[i] == '.' || t[i] == 'e');
    let d = numeral_digits(t);
    if t[0] == '-' {
        assert(i > 0);
        assert(d[i - 1] == t[i]);
        assert(!is_digit(d[i - 1]));
    } else {
        assert(d[i] == t[i]);
        assert(!is_digit(d[i]));
    }
    assert(parse_i64_spec(t) is None);
}

/// A flat value that reads back as itself.
pub open spec fn value_reads_back(v: JsonV) -> bool {
    match v {
        JsonV::Bool(_) => true,
        JsonV::Null => true,
        JsonV::Number(n) => number_reads_back(n),
        JsonV::String(s) => text_reads_back(s),
        _ => false,
    }
}

/// A member that reads back as itself: a non-empty key with no `=` and no
/// ASCII white space, and a value that reads back.
pub open spec fn member_reads_back(k: Seq<char>, v: JsonV) -> bool {
    k.len() > 0 && key_safe(k) && value_reads_back(v)
}

/// A member of an object that reads back as itself: a non-empty key with no
/// `=` and no ASCII white space, and a flat value that reads back as itself,
/// or a floating-point number (every one in an object does).
pub open spec fn member_reads_back_in_object(k: Seq<char>, v: JsonV) -> bool {
    &&& k.len() > 0
    &&& key_safe(k)
    &&& (v is Number && v->Number_0 is Float) || value_reads_back(v)
}

/// Members of an object that each read back as themselves.
pub open spec fn object_reads_back(es: Seq<(Seq<char>, JsonV)>) -> bool {
    forall|i: int| 0 <= i < es.len() ==> member_reads_back_in_object(#[trigger] es[i].0, es[i].1)
}

/// How a member is written.
pub open spec fn member_text(k: Seq<char>, v: JsonV) -> Seq<char> {
    match encode_pair_view(k, v) {
        Ok(t) => t,
        Err(_) => seq![],
    }
}

/// A value written as it is (not quoted) reads back as its text and ends
/// where its bytes end.
pub proof fn lemma_raw_value_at(b: Seq<u8>, p: int, r: Seq<char>)
    requires
        r.len() > 0,
        forall|x: int| 0 <= x < r.len() ==> #[trigger] r[x] != '"' && !is_ascii_ws_char(r[x]),
        0 <= p,
        p + encode_utf8(r).len() <= b.len(),
        b.subrange(p, p + encode_utf8(r).len()) == encode_utf8(r),
        p + encode_utf8(r).len() == b.len() || is_ascii_ws(b[p + encode_utf8(r).len()]),
    ensures
        value_at(b, p) == Ok::<(Seq<char>, int), (int, Seq<char>)>((r, p + encode_utf8(r).len())),
{
    let er = encode_utf8(r);
    let bad = |x: u8| x == 0x22u8 || is_ascii_ws(x);
    assert forall|x: int| 0 <= x < r.len() implies (#[trigger] r[x] as u32) > 0x7f || !bad(
        r[x] as u32 as u8,
    ) by {
        lemma_char_code(r[x]);
        lemma_small_u32_as_u8(r[x] as u32);
    }
    lemma_encoded_bytes_avoid(r, bad);
    lemma_encode_nonempty(r);
    assert forall|q: int| p <= q < p + er.len() implies !is_ascii_ws(#[trigger] b[q]) by {
        assert(b.subrange(p, p + er.len())[q - p] == er[q - p]);
    }
    assert(b.subrange(p, p + er.len())[0] == b[p]);
    lemma_word_end_at(b, p, p + er.len());
    encode_utf8_valid_utf8(r);
    encode_utf8_decode_utf8(r);
}

/// How a value other than `true` is written after `=`.
pub open spec fn value_written(v: JsonV) -> Seq<char> {
    match v {
        JsonV::Bool(_) => "false"@,
        JsonV::Null => "null"@,
        JsonV::Number(n) => number_text(n),
        JsonV::String(s) => encode_string_view(s),
        _ => seq![],
    }
}

/// The characters of the words `false`, `null`, `true`.
pub proof fn lemma_words()
    ensures
        "false"@ =~= seq!['f', 'a', 'l', 's', 'e'],
        "null"@ =~= seq!['n', 'u', 'l', 'l'],
        "true"@ =~= seq!['t', 'r', 'u', 'e'],
{
    reveal_strlit("false");
    reveal_strlit("null");
    reveal_strlit("true");
}

/// A value written after `=` reads back as the same value; reading stops
/// where the written bytes end (or after the white space that follows a
/// quoted value).
pub proof fn lemma_value_written_at(b: Seq<u8>, p: int, v: JsonV)
    requires
        value_reads_back(v),
        v != JsonV::Bool(true),
        0 <= p,
        p + encode_utf8(value_written(v)).len() <= b.len(),
        b.subrange(p, p + encode_utf8(value_written(v)).len()) == encode_utf8(value_written(v)),
        p + encode_utf8(value_written(v)).len() == b.len() || is_ascii_ws(
            b[p + encode_utf8(value_written(v)).len()],
        ),
    ensures
        value_at(b, p) matches Ok((raw, q)) && coerce_view(raw) == v && p <= q <= b.len() && ws_end(
            b,
            q,
        ) == ws_end(b, p + encode_utf8(value_written(v)).len()),
{
    let r = value_written(v);
    let er = encode_utf8(r);
    lemma_ws_end_stops(b, p + er.len());
    lemma_words();
    match v {
        JsonV::Bool(_) => {
            lemma_raw_value_at(b, p, r);
        },
        JsonV::Null => {
            lemma_raw_value_at(b, p, r);
        },
        JsonV::Number(n) => {
            if n is Float {
                lemma_float_reads_back(r);
                lemma_raw_value_at(b, p, r);
            } else {
                lemma_coerce_integer(n);
                match n {
                    JsonNumberV::PosInt(u) => {
                        lemma_decimal(u as nat);
                    },
                    JsonNumberV::NegInt(i) => {
                        lemma_decimal((-i) as nat);
                        let d = decimal((-i) as nat);
                        assert(r == seq!['-'] + d);
                        assert forall|x: int| 0 <= x < r.len() implies #[trigger] r[x] != '"'
                            && !is_ascii_ws_char(r[x]) by {
                            if x > 0 {
                                assert(r[x] == d[x - 1]);
                            }
                        }
                    },
                    _ => {},
                }
                lemma_raw_value_at(b, p, r);
            }
        },
        JsonV::String(s) => {
            if needs_logfmt_quotes(s) {
                let esc = escape_chars(s);
                lemma_encode_ascii_char('"');
                lemma_encode_append(seq!['"'] + esc, seq!['"']);
                lemma_encode_append(seq!['"'], esc);
                let ee = encode_utf8(esc);
                assert(er =~= seq![0x22u8] + ee + seq![0x22u8]);
                assert(b.subrange(p, p + er.len())[0] == b[p]);
                assert(b.subrange(p + 1, p + 1 + ee.len()) =~= ee) by {
                    assert forall|x: int| 0 <= x < ee.len() implies b.subrange(p + 1, p + 1 + ee.len())[x]
                        == ee[x] by {
                        assert(b.subrange(p, p + er.len())[1 + x] == er[1 + x]);
                    }
                }
                assert(b.subrange(p, p + er.len())[(1 + ee.len()) as int] == b[p + 1 + ee.len()]);
                lemma_quoted_escaped_at(b, p + 1, s);
            } else {
                assert forall|x: int| 0 <= x < s.len() implies #[trigger] s[x] != '"'
                    && !is_ascii_ws_char(s[x]) by {
                    if s[x] == '"' || is_ascii_ws_char(s[x]) {
                        assert(needs_logfmt_quotes(s));
                    }
                }
                lemma_raw_value_at(b, p, r);
            }
        },
        _ => {},
    }
}


/// How a member other than `true` is written: the key, `=`, the value.
pub proof fn lemma_member_text(k: Seq<char>, v: JsonV)
    requires
        value_reads_back(v),
    ensures
        encode_pair_view(k, v) == Ok::<Seq<char>, crate::error::KvfmtErrorV>(member_text(k, v)),
        v == JsonV::Bool(true) ==> member_text(k, v) == k,
        v != JsonV::Bool(true) ==> member_text(k, v) == k + seq!['='] + value_written(v),
{
    reveal_strlit("=false");
    reveal_strlit("=null");
    lemma_words();
    match v {
        JsonV::Bool(b) => {
            if !b {
                assert("=false"@ =~= seq!['='] + "false"@);
                assert(k + "=false"@ =~= k + seq!['='] + "false"@);
            }
        },
        JsonV::Null => {
            assert("=null"@ =~= seq!['='] + "null"@);
            assert(k + "=null"@ =~= k + seq!['='] + "null"@);
        },
        _ => {},
    }
}

/// A member written at `i`, followed by nothing or by ASCII white space, is
/// read as that member, and reading goes on where its bytes end.
pub proof fn lemma_member_at(
    b: Seq<u8>,
    i: int,
    k: Seq<char>,
    v: JsonV,
    acc: Seq<(Seq<char>, JsonV)>,
)
    requires
        member_reads_back(k, v),
        0 <= i,
        i + encode_utf8(member_text(k, v)).len() <= b.len(),
        b.subrange(i, i + encode_utf8(member_text(k, v)).len()) == encode_utf8(member_text(k, v)),
        i + encode_utf8(member_text(k, v)).len() == b.len() || is_ascii_ws(
            b[i + encode_utf8(member_text(k, v)).len()],
        ),
    ensures
        members_from(b, i, acc) == members_from(
            b,
            i + encode_utf8(member_text(k, v)).len(),
            entries_insert(acc, k, v),
        ),
{
    let mt = member_text(k, v);
    let em = encode_utf8(mt);
    let end = i + em.len();
    let ek = encode_utf8(k);
    lemma_member_text(k, v);
    let bad = |x: u8| x == 0x3Du8 || is_ascii_ws(x);
    assert forall|x: int| 0 <= x < k.len() implies (#[trigger] k[x] as u32) > 0x7f || !bad(
        k[x] as u32 as u8,
    ) by {
        lemma_char_code(k[x]);
        lemma_small_u32_as_u8(k[x] as u32);
    }
    lemma_encoded_bytes_avoid(k, bad);
    lemma_encode_nonempty(k);
    let rest = if v == JsonV::Bool(true) {
        Seq::<u8>::empty()
    } else {
        seq![0x3Du8] + encode_utf8(value_written(v))
    };
    if v == JsonV::Bool(true) {
        assert(em =~= ek + rest);
    } else {
        lemma_encode_append(k + seq!['='], value_written(v));
        lemma_encode_append(k, seq!['=']);
        lemma_encode_ascii_char('=');
        assert(em =~= ek + rest);
    }
    let e = i + ek.len();
    assert forall|q: int| i <= q < e implies !is_ascii_ws(#[trigger] b[q]) && b[q] != 0x3Du8 by {
        assert(b.subrange(i, end)[q - i] == em[q - i]);
        assert(em[q - i] == ek[q - i]);
    }
    if v == JsonV::Bool(true) {
        assert(e == end);
    } else {
        assert(b.subrange(i, end)[ek.len() as int] == b[e]);
        assert(em[ek.len() as int] == 0x3Du8);
    }
    lemma_key_end_at(b, i, e);
    assert(ws_end(b, i) == i);
    assert(b.subrange(i, e) =~= ek) by {
        assert forall|x: int| 0 <= x < ek.len() implies b.subrange(i, e)[x] == ek[x] by {
            assert(b.subrange(i, end)[x] == em[x]);
        }
    }
    encode_utf8_valid_utf8(k);
    encode_utf8_decode_utf8(k);
    if v != JsonV::Bool(true) {
        let ev = encode_utf8(value_written(v));
        let p = e + 1;
        assert(b.subrange(p, p + ev.len()) =~= ev) by {
            assert forall|x: int| 0 <= x < ev.len() implies b.subrange(p, p + ev.len())[x]
                == ev[x] by {
                assert(b.subrange(i, end)[ek.len() + 1 + x] == em[ek.len() + 1 + x]);
            }
        }
        assert(p + ev.len() == end);
        lemma_value_written_at(b, p, v);
        lemma_value_at(b, p);
        let (raw, q) = value_at(b, p)->Ok_0;
        lemma_members_same_start(b, q, end, entries_insert(acc, k, v));
    }
}


/// Members that each read back as themselves.
pub open spec fn members_read_back(es: Seq<(Seq<char>, JsonV)>) -> bool {
    forall|i: int| 0 <= i < es.len() ==> member_reads_back(#[trigger] es[i].0, es[i].1)
}

/// The line that members are written as (empty where one cannot be written).
pub open spec fn members_text(es: Seq<(Seq<char>, JsonV)>) -> Seq<char> {
    match stringify_view(es) {
        Ok(t) => t,
        Err(_) => seq![],
    }
}

/// Writing the first `n + 1` members adds the member at `n` to what the
/// first `n` are written as, after a space.
pub proof fn lemma_stringify_take(es: Seq<(Seq<char>, JsonV)>, n: int)
    requires
        members_read_back(es),
        0 <= n < es.len(),
    ensures
        stringify_view(es.take(n)) == Ok::<Seq<char>, crate::error::KvfmtErrorV>(
            members_text(es.take(n)),
        ),
        stringify_view(es.take(n + 1)) == Ok::<Seq<char>, crate::error::KvfmtErrorV>(
            if n == 0 {
                member_text(es[n].0, es[n].1)
            } else {
                members_text(es.take(n)) + seq![' '] + member_text(es[n].0, es[n].1)
            },
        ),
    decreases n,
{
    if n > 0 {
        lemma_stringify_take(es, n - 1);
        assert(es.take(n - 1 + 1) =~= es.take(n));
    } else {
        assert(es.take(0) =~= Seq::<(Seq<char>, JsonV)>::empty());
    }
    assert(es.take(n + 1).drop_last() =~= es.take(n));
    assert(es.take(n + 1).last() == es[n]);
    assert(member_reads_back(es[n].0, es[n].1));
    lemma_member_text(es[n].0, es[n].1);
}

/// The bytes of the first `n` members written as a line.
pub open spec fn members_bytes(es: Seq<(Seq<char>, JsonV)>, n: int) -> Seq<u8> {
    encode_utf8(members_text(es.take(n)))
}

/// The bytes of one more member: a space, then the member, after the first.
pub proof fn lemma_members_bytes_step(es: Seq<(Seq<char>, JsonV)>, n: int)
    requires
        members_read_back(es),
        0 <= n < es.len(),
    ensures
        members_bytes(es, n + 1) == if n == 0 {
            encode_utf8(member_text(es[n].0, es[n].1))
        } else {
            members_bytes(es, n) + seq![0x20u8] + encode_utf8(member_text(es[n].0, es[n].1))
        },
        n == 0 ==> members_bytes(es, n).len() == 0,
{
    lemma_stringify_take(es, n);
    let mt = member_text(es[n].0, es[n].1);
    if n == 0 {
        assert(es.take(0) =~= Seq::<(Seq<char>, JsonV)>::empty());
        assert(members_text(es.take(0)) == Seq::<char>::empty());
    } else {
        let t = members_text(es.take(n));
        lemma_encode_append(t + seq![' '], mt);
        lemma_encode_append(t, seq![' ']);
        lemma_encode_ascii_char(' ');
    }
}

/// What the first `m` members are written as starts the whole line; after
/// it, unless it is empty or the whole line, comes a space.
pub proof fn lemma_members_bytes_prefix(es: Seq<(Seq<char>, JsonV)>, m: int)
    requires
        members_read_back(es),
        0 <= m <= es.len(),
    ensures
        members_bytes(es, m).len() <= members_bytes(es, es.len() as int).len(),
        members_bytes(es, es.len() as int).subrange(0, members_bytes(es, m).len() as int)
            == members_bytes(es, m),
        0 < m < es.len() ==> members_bytes(es, es.len() as int)[members_bytes(es, m).len() as int]
            == 0x20u8,
    decreases es.len() - m,
{
    let full = members_bytes(es, es.len() as int);
    if m == es.len() {
        assert(full.subrange(0, full.len() as int) =~= full);
    } else {
        lemma_members_bytes_prefix(es, m + 1);
        lemma_members_bytes_step(es, m);
        let a = members_bytes(es, m);
        let a1 = members_bytes(es, m + 1);
        assert(full.subrange(0, a.len() as int) =~= a) by {
            assert forall|x: int| 0 <= x < a.len() implies full.subrange(0, a.len() as int)[x]
                == a[x] by {
                assert(full.subrange(0, a1.len() as int)[x] == a1[x]);
            }
        }
        if m > 0 {
            assert(full.subrange(0, a1.len() as int)[a.len() as int] == a1[a.len() as int]);
        }
    }
}

/// Reading the whole line on from where the first `n` members end, with
/// those members read, gives all the members.
pub proof fn lemma_members_read(es: Seq<(Seq<char>, JsonV)>, n: int)
    requires
        members_read_back(es),
        keys_ascending(es),
        0 <= n <= es.len(),
    ensures
        members_from(
            members_bytes(es, es.len() as int),
            members_bytes(es, n).len() as int,
            es.take(n),
        ) == Ok::<Seq<(Seq<char>, JsonV)>, (int, Seq<char>)>(es),
    decreases es.len() - n,
{
    let b = members_bytes(es, es.len() as int);
    let p = members_bytes(es, n).len() as int;
    if n == es.len() {
        assert(es.take(n) =~= es);
    } else {
        lemma_members_bytes_step(es, n);
        lemma_members_bytes_prefix(es, n + 1);
        lemma_members_bytes_prefix(es, n);
        let k = es[n].0;
        let v = es[n].1;
        assert(member_reads_back(k, v));
        let em = encode_utf8(member_text(k, v));
        let a1 = members_bytes(es, n + 1);
        let start = if n == 0 {
            p
        } else {
            p + 1
        };
        assert(a1.len() == start + em.len());
        assert(b.subrange(start, start + em.len()) =~= em) by {
            assert forall|x: int| 0 <= x < em.len() implies b.subrange(start, start + em.len())[x]
                == em[x] by {
                assert(b.subrange(0, a1.len() as int)[start + x] == a1[start + x]);
            }
        }
        if n + 1 < es.len() {
            assert(is_ascii_ws(b[a1.len() as int]));
        }
        lemma_member_at(b, start, k, v, es.take(n));
        if n > 0 {
            assert(b[p] == 0x20u8);
            lemma_members_same_start(b, p, start, es.take(n));
        }
        assert forall|x: int| 0 <= x < es.take(n).len() implies key_lt(
            #[trigger] es.take(n)[x].0,
            k,
        ) by {
            assert(es.take(n)[x] == es[x]);
        }
        lemma_insert_greatest(es.take(n), k, v);
        assert(es.take(n).push((k, v)) =~= es.take(n + 1));
        lemma_members_read(es, n + 1);
    }
}

/// Writing members in ascending key order as a logfmt line and reading the
/// line back gives the same members, when each key is non-empty and holds
/// no `=` and no ASCII white space, and each value is flat and reads back as
/// itself (a text that is not `true`, `false`, `null` or a numeral, and is
/// ASCII where it has to be quoted; an integer in the range of `i64`; any
/// floating-point number that `parse` or `parse_flat_object` gives).
pub proof fn law_logfmt_object_round_trip(es: Seq<(Seq<char>, JsonV)>)
    requires
        keys_ascending(es),
        members_read_back(es),
    ensures
        stringify_view(es) matches Ok(line) && logfmt_members(encode_utf8(line)) == Ok::<
            Seq<(Seq<char>, JsonV)>,
            crate::error::KvfmtErrorV,
        >(es),
{
    if es.len() == 0 {
        assert(encode_utf8(Seq::<char>::empty()) =~= Seq::<u8>::empty());
        assert(es =~= Seq::<(Seq<char>, JsonV)>::empty());
        assert(members_from(Seq::<u8>::empty(), 0, seq![]) == Ok::<
            Seq<(Seq<char>, JsonV)>,
            (int, Seq<char>),
        >(es));
    } else {
        let n = es.len() as int;
        lemma_stringify_take(es, n - 1);
        assert(es.take(n) =~= es);
        assert(stringify_view(es) is Ok);
        let line = members_text(es);
        assert(stringify_view(es) == Ok::<Seq<char>, crate::error::KvfmtErrorV>(line));
        assert(members_bytes(es, n) == encode_utf8(line));
        lemma_members_bytes_step(es, 0);
        assert(es.take(0) =~= Seq::<(Seq<char>, JsonV)>::empty());
        lemma_members_read(es, 0);
        assert(members_from(encode_utf8(line), 0, seq![]) == Ok::<
            Seq<(Seq<char>, JsonV)>,
            (int, Seq<char>),
        >(es));
    }
}

} // verus!
