//! What writing pairs as logfmt and reading them back gives.

use vstd::prelude::*;
use vstd::utf8::*;
use crate::parser::{
    PairV, logfmt_pairs, logfmt_line, logfmt_join, logfmt_pair, logfmt_value, needs_quotes,
    escape_chars, escape_char, quoted_body, pair_value, pair_at, ws_span, key_span, word_span,
    unescape_byte, byte_char, prepend_pairs, member_pairs, json_pairs, pairs_object, value_text,
};
use crate::json::{JsonV, key_lt, keys_ascending};
use crate::object_laws::lemma_insert_greatest;
use crate::output_laws::{byte_chars, lemma_quoted_body_any};
use crate::serde_bridge::json_parse;
use crate::text::{is_ascii_ws, is_ascii_ws_char, is_white_space, trim_chars, trim_start_chars, trim_end_chars};

verus! {

/// Every byte of the UTF-8 encoding of `s` is either a non-ASCII byte or the
/// byte of an ASCII character of `s`; so a property that no ASCII character
/// of `s` has, no ASCII byte of the encoding has.
pub proof fn lemma_encoded_bytes_avoid(s: Seq<char>, bad: spec_fn(u8) -> bool)
    requires
        forall|i: int| 0 <= i < s.len() ==> (#[trigger] s[i] as u32) > 0x7f || !bad(s[i] as u32 as u8),
    ensures
        forall|j: int|
            0 <= j < encode_utf8(s).len() ==> (#[trigger] encode_utf8(s)[j]) > 0x7f || !bad(
                encode_utf8(s)[j],
            ),
    decreases s.len(),
{
    if s.len() > 0 {
        let rest = s.drop_first();
        assert forall|i: int| 0 <= i < rest.len() implies (#[trigger] rest[i] as u32) > 0x7f || !bad(
            rest[i] as u32 as u8,
        ) by {
            assert(rest[i] == s[i + 1]);
        }
        lemma_encoded_bytes_avoid(rest, bad);
        let c = s[0] as u32;
        let head = encode_scalar(c);
        assert(encode_utf8(s) == head + encode_utf8(rest));
        char_is_scalar(s[0]);
        if has_width_1_encoding(c) {
            assert((c & 0x7F) as u8 == c as u8) by (bit_vector)
                requires
                    c <= 0x7f,
            ;
        } else if has_width_2_encoding(c) {
            let b0 = leading_byte_width_2(c);
            let b1 = last_continuation_byte(c);
            assert(0xC0u8 | (((c >> 6) & 0x1F) as u8) >= 0x80) by (bit_vector);
            assert(0x80u8 | ((c & 0x3F) as u8) >= 0x80) by (bit_vector);
        } else if has_width_3_encoding(c) {
            assert(0xE0u8 | (((c >> 12) & 0x0F) as u8) >= 0x80) by (bit_vector);
            assert(0x80u8 | (((c >> 6) & 0x3F) as u8) >= 0x80) by (bit_vector);
            assert(0x80u8 | ((c & 0x3F) as u8) >= 0x80) by (bit_vector);
        } else {
            assert(0xF0u8 | (((c >> 18) & 0x7) as u8) >= 0x80) by (bit_vector);
            assert(0x80u8 | (((c >> 12) & 0x3F) as u8) >= 0x80) by (bit_vector);
            assert(0x80u8 | (((c >> 6) & 0x3F) as u8) >= 0x80) by (bit_vector);
            assert(0x80u8 | ((c & 0x3F) as u8) >= 0x80) by (bit_vector);
        }
        assert forall|j: int| 0 <= j < encode_utf8(s).len() implies (#[trigger] encode_utf8(s)[j])
            > 0x7f || !bad(encode_utf8(s)[j]) by {
            if j < head.len() {
                assert(encode_utf8(s)[j] == head[j]);
            } else {
                assert(encode_utf8(s)[j] == encode_utf8(rest)[j - head.len()]);
            }
        }
    }
}

/// The UTF-8 encoding of two texts one after the other.
pub proof fn lemma_encode_append(a: Seq<char>, b: Seq<char>)
    ensures
        encode_utf8(a + b) == encode_utf8(a) + encode_utf8(b),
    decreases a.len(),
{
    if a.len() == 0 {
        assert(a + b =~= b);
        assert(encode_utf8(a) + encode_utf8(b) =~= encode_utf8(b));
    } else {
        lemma_encode_append(a.drop_first(), b);
        assert((a + b).drop_first() =~= a.drop_first() + b);
        assert((a + b)[0] == a[0]);
        assert(encode_scalar(a[0] as u32) + (encode_utf8(a.drop_first()) + encode_utf8(b))
            =~= encode_scalar(a[0] as u32) + encode_utf8(a.drop_first()) + encode_utf8(b));
    }
}

/// A key that reads back as itself: no `=` and no ASCII white space in it.
pub open spec fn key_safe(k: Seq<char>) -> bool {
    forall|i: int| 0 <= i < k.len() ==> #[trigger] k[i] != '=' && !is_ascii_ws_char(k[i])
}

/// A value that reads back as itself: a value written between quotes must be
/// ASCII (inside quotes each byte is read as one character); a value written
/// as it is must hold no ASCII white space.
pub open spec fn value_safe(v: Seq<char>) -> bool {
    if needs_quotes(v) {
        forall|i: int| 0 <= i < v.len() ==> #[trigger] v[i] <= '\u{7f}'
    } else {
        forall|i: int| 0 <= i < v.len() ==> !is_ascii_ws_char(#[trigger] v[i])
    }
}

/// Every pair has a key and a value that read back as themselves.
pub open spec fn pairs_safe(ps: Seq<PairV>) -> bool {
    forall|i: int| 0 <= i < ps.len() ==> key_safe(#[trigger] ps[i].0) && value_safe(ps[i].1)
}

/// A value that, when written as it is (not quoted), holds no ASCII white
/// space (a form feed, which does not make a value quoted, would end it).
pub open spec fn value_unquoted_ok(v: Seq<char>) -> bool {
    !needs_quotes(v) ==> forall|i: int| 0 <= i < v.len() ==> !is_ascii_ws_char(#[trigger] v[i])
}

/// Every pair has a key with no `=` and no ASCII white space, and a value
/// that is quoted or holds no ASCII white space.
pub open spec fn pairs_writable(ps: Seq<PairV>) -> bool {
    forall|i: int| 0 <= i < ps.len() ==> key_safe(#[trigger] ps[i].0) && value_unquoted_ok(ps[i].1)
}

/// What a written value reads back as: a quoted value as the bytes of its
/// UTF-8 encoding, each as one character; any other value as itself.
pub open spec fn read_back_value(v: Seq<char>) -> Seq<char> {
    if v.len() == 0 || v.contains(' ') || v.contains('"') || v.contains('\\') || v.contains('\n')
        || v.contains('\r') || v.contains('\t') {
        byte_chars(encode_utf8(v))
    } else {
        v
    }
}

/// What written pairs read back as.
pub open spec fn read_back_pairs(ps: Seq<PairV>) -> Seq<PairV> {
    ps.map_values(|p: PairV| (p.0, read_back_value(p.1)))
}

/// The written line starts and ends (before its line feed) with characters
/// that trimming keeps: the first key does not start with white space and a
/// last value written as it is does not end with it.
pub open spec fn line_ends_safe(ps: Seq<PairV>) -> bool {
    ps.len() > 0 ==> {
        &&& (ps[0].0.len() == 0 || !is_white_space(ps[0].0[0]))
        &&& (needs_quotes(ps.last().1) || !is_white_space(ps.last().1.last()))
    }
}

/// A key with no `=` and no white space, followed by `=`, spans the key.
pub proof fn lemma_key_span_append(a: Seq<u8>, b: Seq<u8>)
    requires
        forall|j: int| 0 <= j < a.len() ==> #[trigger] a[j] != 0x3Du8 && !is_ascii_ws(a[j]),
        b.len() > 0,
        b[0] == 0x3Du8,
    ensures
        key_span(a + b) == a.len(),
    decreases a.len(),
{
    if a.len() == 0 {
        assert(a + b =~= b);
    } else {
        assert((a + b).drop_first() =~= a.drop_first() + b);
        assert((a + b)[0] == a[0]);
        let r = a.drop_first();
        assert forall|j: int| 0 <= j < r.len() implies #[trigger] r[j] != 0x3Du8 && !is_ascii_ws(
            r[j],
        ) by {
            assert(r[j] == a[j + 1]);
        }
        lemma_key_span_append(a.drop_first(), b);
    }
}

/// A word with no white space, followed by nothing or white space, spans
/// the word.
pub proof fn lemma_word_span_append(a: Seq<u8>, b: Seq<u8>)
    requires
        forall|j: int| 0 <= j < a.len() ==> !is_ascii_ws(#[trigger] a[j]),
        b.len() == 0 || is_ascii_ws(b[0]),
    ensures
        word_span(a + b) == a.len(),
    decreases a.len(),
{
    if a.len() == 0 {
        assert(a + b =~= b);
    } else {
        assert((a + b).drop_first() =~= a.drop_first() + b);
        assert((a + b)[0] == a[0]);
        let r = a.drop_first();
        assert forall|j: int| 0 <= j < r.len() implies !is_ascii_ws(#[trigger] r[j]) by {
            assert(r[j] == a[j + 1]);
        }
        lemma_word_span_append(a.drop_first(), b);
    }
}

/// An escaped ASCII text, its closing quote and anything after: the quoted
/// body reads back the text and stops at the closing quote.
pub proof fn lemma_quoted_body_escaped(v: Seq<char>, t: Seq<u8>)
    requires
        forall|i: int| 0 <= i < v.len() ==> #[trigger] v[i] <= '\u{7f}',
    ensures
        quoted_body(encode_utf8(escape_chars(v)) + seq![0x22u8] + t) == Some(
            (v, encode_utf8(escape_chars(v)).len()),
        ),
    decreases v.len(),
{
    let q = encode_utf8(escape_chars(v)) + seq![0x22u8] + t;
    if v.len() == 0 {
        assert(escape_chars(v) =~= Seq::<char>::empty());
        assert(q[0] == 0x22u8);
    } else {
        let c = v[0];
        let rest = v.drop_first();
        assert forall|i: int| 0 <= i < rest.len() implies #[trigger] rest[i] <= '\u{7f}' by {
            assert(rest[i] == v[i + 1]);
        }
        lemma_quoted_body_escaped(rest, t);
        let ec = escape_char(c);
        lemma_encode_append(ec, escape_chars(rest));
        lemma_escape_char_bytes(c);
        let eb = encode_utf8(ec);
        let tail = encode_utf8(escape_chars(rest)) + seq![0x22u8] + t;
        assert(q =~= eb + tail);
        if ec.len() == 2 {
            assert(q.skip(2) =~= tail);
        } else {
            assert(q.drop_first() =~= tail);
        }
        assert(seq![c] + rest =~= v);
    }
}

/// The bytes of one escaped ASCII character.
pub proof fn lemma_escape_char_bytes(c: char)
    requires
        c <= '\u{7f}',
    ensures
        ({
            let ec = escape_char(c);
            let eb = encode_utf8(ec);
            ||| (ec.len() == 2 && eb.len() == 2 && eb[0] == 0x5Cu8 && unescape_byte(eb[1]) == c)
            ||| (ec.len() == 1 && eb.len() == 1 && eb[0] != 0x5Cu8 && eb[0] != 0x22u8 && byte_char(
                eb[0],
            ) == c)
        }),
{
    let ec = escape_char(c);
    assert forall|i: int| 0 <= i < ec.len() implies '\0' <= #[trigger] ec[i] <= '\u{7f}' by {
        if c == '\n' || c == '\r' || c == '\t' || c == '"' || c == '\\' {
            assert(i == 0 || i == 1);
        } else {
            assert(ec =~= seq![c]);
        }
    }
    assert(is_ascii_chars(ec));
    is_ascii_chars_encode_utf8(ec);
}

/// An ASCII character is encoded as its one byte.
pub proof fn lemma_encode_ascii_char(c: char)
    requires
        c <= '\u{7f}',
    ensures
        encode_utf8(seq![c]) == seq![c as u8],
{
    assert(is_ascii_chars(seq![c]));
    is_ascii_chars_encode_utf8(seq![c]);
    assert(encode_utf8(seq![c]) =~= seq![c as u8]);
}

/// A non-empty text has a non-empty encoding.
pub proof fn lemma_encode_nonempty(s: Seq<char>)
    requires
        s.len() > 0,
    ensures
        encode_utf8(s).len() > 0,
{
    assert(encode_scalar(s[0] as u32).len() > 0);
}

/// A pair written by `logfmt_pair`, followed by nothing or by ASCII white
/// space, reads back as the same pair and takes all of its bytes.
pub proof fn lemma_pair_at_written(p: PairV, t: Seq<u8>)
    requires
        key_safe(p.0),
        value_safe(p.1),
        t.len() == 0 || is_ascii_ws(t[0]),
    ensures
        pair_at(encode_utf8(logfmt_pair(p)) + t) == Ok::<(PairV, nat), Seq<char>>((p, encode_utf8(logfmt_pair(p)).len())),
        encode_utf8(logfmt_pair(p)).len() > 0,
        !is_ascii_ws(encode_utf8(logfmt_pair(p))[0]),
{
    let k = p.0;
    let v = p.1;
    let lv = logfmt_value(v);
    let ek = encode_utf8(k);
    let elv = encode_utf8(lv);
    lemma_encode_append(k + seq!['='], lv);
    lemma_encode_append(k, seq!['=']);
    lemma_encode_ascii_char('=');
    assert(encode_utf8(logfmt_pair(p)) =~= ek + seq![0x3Du8] + elv);
    let r = encode_utf8(logfmt_pair(p)) + t;
    assert(r =~= ek + (seq![0x3Du8] + elv + t));
    let kbad = |b: u8| b == 0x3Du8 || is_ascii_ws(b);
    assert forall|i: int| 0 <= i < k.len() implies (#[trigger] k[i] as u32) > 0x7f || !kbad(
        k[i] as u32 as u8,
    ) by {
        assert(k[i] != '=' && !is_ascii_ws_char(k[i]));
        lemma_char_code(k[i]);
        lemma_small_u32_as_u8(k[i] as u32);
    }
    lemma_encoded_bytes_avoid(k, kbad);
    lemma_key_span_append(ek, seq![0x3Du8] + elv + t);
    assert(key_span(r) == ek.len());
    assert(!is_ascii_ws(encode_utf8(logfmt_pair(p))[0])) by {
        if ek.len() > 0 {
            assert(encode_utf8(logfmt_pair(p))[0] == ek[0]);
        } else {
            assert(encode_utf8(logfmt_pair(p))[0] == 0x3Du8);
        }
    }
    assert(r[ek.len() as int] == 0x3Du8);
    assert(r.take(ek.len() as int) =~= ek);
    encode_utf8_decode_utf8(k);
    let rest = r.skip(ek.len() + 1int);
    assert(rest =~= elv + t);
    if needs_quotes(v) {
        let esc = escape_chars(v);
        lemma_encode_ascii_char('"');
        lemma_encode_append(seq!['"'] + esc, seq!['"']);
        lemma_encode_append(seq!['"'], esc);
        assert(elv =~= seq![0x22u8] + encode_utf8(esc) + seq![0x22u8]);
        assert(rest.drop_first() =~= encode_utf8(esc) + seq![0x22u8] + t);
        lemma_quoted_body_escaped(v, t);
        assert(pair_value(rest) == Ok::<(Seq<char>, nat), Seq<char>>((v, (encode_utf8(esc).len() + 2) as nat)));
    } else {
        assert(lv == v);
        let vbad = |b: u8| b == 0x22u8 || is_ascii_ws(b);
        assert forall|i: int| 0 <= i < v.len() implies (#[trigger] v[i] as u32) > 0x7f || !vbad(
            v[i] as u32 as u8,
        ) by {
            assert(!is_ascii_ws_char(v[i]));
            lemma_char_code(v[i]);
            lemma_small_u32_as_u8(v[i] as u32);
            if v[i] == '"' {
                assert(v.contains('"'));
            }
        }
        lemma_encoded_bytes_avoid(v, vbad);
        lemma_encode_nonempty(v);
        assert(rest[0] == elv[0]);
        lemma_word_span_append(elv, t);
        assert(rest.take(elv.len() as int) =~= elv);
        encode_utf8_decode_utf8(v);
        assert(pair_value(rest) == Ok::<(Seq<char>, nat), Seq<char>>((v, elv.len())));
    }
}

/// A code below 128 keeps its value as a byte.
pub proof fn lemma_small_u32_as_u8(x: u32)
    ensures
        x <= 0x7f ==> (x as u8) as u32 == x,
{
    assert(x <= 0x7f ==> (x as u8) as u32 == x) by (bit_vector);
}

/// The codes of `=`, the quote and ASCII white space.
pub proof fn lemma_char_code(c: char)
    ensures
        (c == '=') == ((c as u32) == 0x3D),
        (c == '"') == ((c as u32) == 0x22),
        is_ascii_ws_char(c) == ((c as u32) == 0x20 || (c as u32) == 0x09 || (c as u32) == 0x0A
            || (c as u32) == 0x0C || (c as u32) == 0x0D),
{
}

/// White space in front of a non-empty line that does not start with white
/// space changes nothing in what is read.
pub proof fn lemma_logfmt_pairs_after_ws(b: Seq<u8>)
    requires
        b.len() > 1,
        is_ascii_ws(b[0]),
        !is_ascii_ws(b[1]),
    ensures
        logfmt_pairs(b) == logfmt_pairs(b.drop_first()),
{
    let c = b.drop_first();
    assert(ws_span(c) == 0);
    assert(ws_span(b) == 1);
    assert(b.skip(1) =~= c);
    assert(c.skip(0) =~= c);
}

/// A written pair in front of bytes that start with white space (or of
/// nothing) is read, then reading goes on with those bytes.
pub proof fn lemma_pair_then(p: PairV, t: Seq<u8>)
    requires
        key_safe(p.0),
        value_safe(p.1),
        t.len() == 0 || is_ascii_ws(t[0]),
    ensures
        logfmt_pairs(encode_utf8(logfmt_pair(p)) + t) == prepend_pairs(seq![p], logfmt_pairs(t)),
{
    lemma_pair_at_written(p, t);
    let pb = encode_utf8(logfmt_pair(p));
    let b = pb + t;
    assert(b[0] == pb[0]);
    assert(ws_span(b) == 0);
    assert(b.skip(0) =~= b);
    assert(b.skip(pb.len() as int) =~= t);
}

/// Pairs written one after another read back as the same pairs.
pub proof fn lemma_join_reads_back(ps: Seq<PairV>)
    requires
        pairs_safe(ps),
    ensures
        logfmt_pairs(encode_utf8(logfmt_join(ps))) == Ok::<Seq<PairV>, Seq<char>>(ps),
        ps.len() > 0 ==> encode_utf8(logfmt_join(ps)).len() > 0 && !is_ascii_ws(
            encode_utf8(logfmt_join(ps))[0],
        ),
    decreases ps.len(),
{
    if ps.len() == 0 {
        assert(encode_utf8(logfmt_join(ps)) =~= Seq::<u8>::empty());
        assert(ps =~= Seq::<PairV>::empty());
    } else {
        let p = ps[0];
        assert(key_safe(p.0) && value_safe(p.1));
        let pb = encode_utf8(logfmt_pair(p));
        lemma_pair_at_written(p, Seq::<u8>::empty());
        if ps.len() == 1 {
            lemma_pair_then(p, Seq::<u8>::empty());
            assert(pb + Seq::<u8>::empty() =~= pb);
            assert(seq![p] + Seq::<PairV>::empty() =~= ps);
        } else {
            let rest = ps.drop_first();
            assert forall|i: int| 0 <= i < rest.len() implies key_safe(#[trigger] rest[i].0)
                && value_safe(rest[i].1) by {
                assert(rest[i] == ps[i + 1]);
            }
            lemma_join_reads_back(rest);
            let rb = encode_utf8(logfmt_join(rest));
            lemma_encode_ascii_char(' ');
            lemma_encode_append(logfmt_pair(p) + seq![' '], logfmt_join(rest));
            lemma_encode_append(logfmt_pair(p), seq![' ']);
            let t = seq![0x20u8] + rb;
            assert(encode_utf8(logfmt_join(ps)) =~= pb + t);
            lemma_pair_then(p, t);
            assert(t.drop_first() =~= rb);
            lemma_logfmt_pairs_after_ws(t);
            assert(seq![p] + rest =~= ps);
            assert((pb + t)[0] == pb[0]);
        }
    }
}

/// A written value is not empty, and ends with a quote when quoted, else
/// with the value's last character.
pub proof fn lemma_value_ends(v: Seq<char>)
    ensures
        logfmt_value(v).len() > 0,
        logfmt_value(v).last() == if needs_quotes(v) {
            '"'
        } else {
            v.last()
        },
{
}

/// The first and last characters of written pairs.
pub proof fn lemma_join_ends(ps: Seq<PairV>)
    requires
        ps.len() > 0,
    ensures
        logfmt_join(ps).len() > 0,
        logfmt_join(ps)[0] == logfmt_pair(ps[0])[0],
        logfmt_join(ps).last() == logfmt_pair(ps.last()).last(),
    decreases ps.len(),
{
    lemma_value_ends(ps[0].1);
    if ps.len() > 1 {
        lemma_join_ends(ps.drop_first());
        lemma_value_ends(ps.last().1);
    }
}

/// Trimming a written line takes off its line feed and nothing else.
pub proof fn lemma_trim_line(ps: Seq<PairV>)
    requires
        line_ends_safe(ps),
    ensures
        trim_chars(logfmt_line(ps)) == logfmt_join(ps),
{
    let line = logfmt_line(ps);
    if ps.len() == 0 {
        assert(line =~= seq!['\n']);
        reveal_with_fuel(trim_start_chars, 2);
        assert(line.drop_first() =~= Seq::<char>::empty());
        assert(trim_start_chars(line) =~= Seq::<char>::empty());
        assert(logfmt_join(ps) =~= Seq::<char>::empty());
    } else {
        lemma_join_ends(ps);
        lemma_value_ends(ps.last().1);
        let j = logfmt_join(ps);
        let k = ps[0].0;
        if k.len() > 0 {
            assert(logfmt_pair(ps[0])[0] == k[0]);
        } else {
            assert(logfmt_pair(ps[0])[0] == '=');
        }
        assert(line[0] == j[0]);
        assert(trim_start_chars(line) == line);
        assert(line.drop_last() =~= j);
        assert(logfmt_pair(ps.last()).last() == logfmt_value(ps.last().1).last());
        assert(trim_end_chars(j) == j);
    }
}

/// A pair written by `logfmt_pair`, followed by nothing or by ASCII white
/// space, reads back as its key and the value read back, and takes all of its
/// bytes.
pub proof fn lemma_pair_at_read_back(p: PairV, t: Seq<u8>)
    requires
        key_safe(p.0),
        value_unquoted_ok(p.1),
        t.len() == 0 || is_ascii_ws(t[0]),
    ensures
        pair_at(encode_utf8(logfmt_pair(p)) + t) == Ok::<(PairV, nat), Seq<char>>(
            ((p.0, read_back_value(p.1)), encode_utf8(logfmt_pair(p)).len()),
        ),
        encode_utf8(logfmt_pair(p)).len() > 0,
        !is_ascii_ws(encode_utf8(logfmt_pair(p))[0]),
{
    let k = p.0;
    let v = p.1;
    let lv = logfmt_value(v);
    let ek = encode_utf8(k);
    let elv = encode_utf8(lv);
    lemma_encode_append(k + seq!['='], lv);
    lemma_encode_append(k, seq!['=']);
    lemma_encode_ascii_char('=');
    assert(encode_utf8(logfmt_pair(p)) =~= ek + seq![0x3Du8] + elv);
    let r = encode_utf8(logfmt_pair(p)) + t;
    assert(r =~= ek + (seq![0x3Du8] + elv + t));
    let kbad = |b: u8| b == 0x3Du8 || is_ascii_ws(b);
    assert forall|i: int| 0 <= i < k.len() implies (#[trigger] k[i] as u32) > 0x7f || !kbad(
        k[i] as u32 as u8,
    ) by {
        assert(k[i] != '=' && !is_ascii_ws_char(k[i]));
        lemma_char_code(k[i]);
        lemma_small_u32_as_u8(k[i] as u32);
    }
    lemma_encoded_bytes_avoid(k, kbad);
    lemma_key_span_append(ek, seq![0x3Du8] + elv + t);
    assert(key_span(r) == ek.len());
    assert(!is_ascii_ws(encode_utf8(logfmt_pair(p))[0])) by {
        if ek.len() > 0 {
            assert(encode_utf8(logfmt_pair(p))[0] == ek[0]);
        } else {
            assert(encode_utf8(logfmt_pair(p))[0] == 0x3Du8);
        }
    }
    assert(r[ek.len() as int] == 0x3Du8);
    assert(r.take(ek.len() as int) =~= ek);
    encode_utf8_decode_utf8(k);
    let rest = r.skip(ek.len() + 1int);
    assert(rest =~= elv + t);
    if needs_quotes(v) {
        let esc = escape_chars(v);
        lemma_encode_ascii_char('"');
        lemma_encode_append(seq!['"'] + esc, seq!['"']);
        lemma_encode_append(seq!['"'], esc);
        assert(elv =~= seq![0x22u8] + encode_utf8(esc) + seq![0x22u8]);
        assert(rest.drop_first() =~= encode_utf8(esc) + seq![0x22u8] + t);
        lemma_quoted_body_any(v, t);
        assert(pair_value(rest) == Ok::<(Seq<char>, nat), Seq<char>>(
            (byte_chars(encode_utf8(v)), (encode_utf8(esc).len() + 2) as nat),
        ));
    } else {
        assert(lv == v);
        let vbad = |b: u8| b == 0x22u8 || is_ascii_ws(b);
        assert forall|i: int| 0 <= i < v.len() implies (#[trigger] v[i] as u32) > 0x7f || !vbad(
            v[i] as u32 as u8,
        ) by {
            assert(!is_ascii_ws_char(v[i]));
            lemma_char_code(v[i]);
            lemma_small_u32_as_u8(v[i] as u32);
            if v[i] == '"' {
                assert(v.contains('"'));
            }
        }
        lemma_encoded_bytes_avoid(v, vbad);
        lemma_encode_nonempty(v);
        assert(rest[0] == elv[0]);
        lemma_word_span_append(elv, t);
        assert(rest.take(elv.len() as int) =~= elv);
        encode_utf8_decode_utf8(v);
        assert(pair_value(rest) == Ok::<(Seq<char>, nat), Seq<char>>((v, elv.len())));
    }
}

/// A written pair in front of bytes that start with white space (or of
/// nothing) is read, then reading goes on with those bytes.
pub proof fn lemma_pair_then_read_back(p: PairV, t: Seq<u8>)
    requires
        key_safe(p.0),
        value_unquoted_ok(p.1),
        t.len() == 0 || is_ascii_ws(t[0]),
    ensures
        logfmt_pairs(encode_utf8(logfmt_pair(p)) + t) == prepend_pairs(
            seq![(p.0, read_back_value(p.1))],
            logfmt_pairs(t),
        ),
{
    lemma_pair_at_read_back(p, t);
    let pb = encode_utf8(logfmt_pair(p));
    let b = pb + t;
    assert(b[0] == pb[0]);
    assert(ws_span(b) == 0);
    assert(b.skip(0) =~= b);
    assert(b.skip(pb.len() as int) =~= t);
}

/// Pairs written one after another read back as their keys and values read
/// back.
pub proof fn lemma_join_read_back(ps: Seq<PairV>)
    requires
        pairs_writable(ps),
    ensures
        logfmt_pairs(encode_utf8(logfmt_join(ps))) == Ok::<Seq<PairV>, Seq<char>>(read_back_pairs(ps)),
        ps.len() > 0 ==> encode_utf8(logfmt_join(ps)).len() > 0 && !is_ascii_ws(
            encode_utf8(logfmt_join(ps))[0],
        ),
    decreases ps.len(),
{
    if ps.len() == 0 {
        assert(encode_utf8(logfmt_join(ps)) =~= Seq::<u8>::empty());
        assert(read_back_pairs(ps) =~= Seq::<PairV>::empty());
    } else {
        let p = ps[0];
        let q = (p.0, read_back_value(p.1));
        assert(key_safe(p.0) && value_unquoted_ok(p.1));
        let pb = encode_utf8(logfmt_pair(p));
        lemma_pair_at_read_back(p, Seq::<u8>::empty());
        if ps.len() == 1 {
            lemma_pair_then_read_back(p, Seq::<u8>::empty());
            assert(pb + Seq::<u8>::empty() =~= pb);
            assert(seq![q] + Seq::<PairV>::empty() =~= read_back_pairs(ps));
        } else {
            let rest = ps.drop_first();
            assert forall|i: int| 0 <= i < rest.len() implies key_safe(#[trigger] rest[i].0)
                && value_unquoted_ok(rest[i].1) by {
                assert(rest[i] == ps[i + 1]);
            }
            lemma_join_read_back(rest);
            let rb = encode_utf8(logfmt_join(rest));
            lemma_encode_ascii_char(' ');
            lemma_encode_append(logfmt_pair(p) + seq![' '], logfmt_join(rest));
            lemma_encode_append(logfmt_pair(p), seq![' ']);
            let t = seq![0x20u8] + rb;
            assert(encode_utf8(logfmt_join(ps)) =~= pb + t);
            lemma_pair_then_read_back(p, t);
            assert(t.drop_first() =~= rb);
            lemma_logfmt_pairs_after_ws(t);
            assert(seq![q] + read_back_pairs(rest) =~= read_back_pairs(ps));
            assert((pb + t)[0] == pb[0]);
        }
    }
}

/// Writing pairs as a logfmt line and reading the line back gives the same
/// keys, in the same order, each with its value read back: a quoted value
/// (one that is empty or holds a space, a quote, a backslash, a line feed, a
/// carriage return or a tab), whatever characters it holds, as the bytes of
/// its UTF-8 encoding, each as one character; any other value as itself. This
/// holds when every key has no `=` and no ASCII white space, every unquoted
/// value has no ASCII white space, and the line does not start or end (before
/// its line feed) with white space.
pub proof fn law_logfmt_line_read_back(ps: Seq<PairV>)
    requires
        pairs_writable(ps),
        line_ends_safe(ps),
    ensures
        logfmt_pairs(encode_utf8(trim_chars(logfmt_line(ps)))) == Ok::<Seq<PairV>, Seq<char>>(
            read_back_pairs(ps),
        ),
{
    lemma_trim_line(ps);
    lemma_join_read_back(ps);
}

/// Writing pairs as a logfmt line and reading the line back gives the same
/// pairs, in the same order, when every key has no `=` and no ASCII white
/// space, every quoted value is ASCII, every unquoted value has no ASCII white
/// space, and the line does not start or end (before its line feed) with
/// white space.
pub proof fn law_logfmt_round_trip(ps: Seq<PairV>)
    requires
        pairs_safe(ps),
        line_ends_safe(ps),
    ensures
        logfmt_pairs(encode_utf8(trim_chars(logfmt_line(ps)))) == Ok::<Seq<PairV>, Seq<char>>(ps),
{
    lemma_trim_line(ps);
    lemma_join_reads_back(ps);
}


/// Putting the pairs of an object whose values are all strings into an
/// object, one after another, gives the object back.
pub proof fn lemma_pairs_object_strings(es: Seq<(Seq<char>, JsonV)>)
    requires
        keys_ascending(es),
        forall|i: int| 0 <= i < es.len() ==> #[trigger] es[i].1 is String,
    ensures
        pairs_object(member_pairs(es)) == es,
    decreases es.len(),
{
    if es.len() > 0 {
        let init = es.drop_last();
        let last = es.last();
        assert(keys_ascending(init)) by {
            assert forall|i: int, j: int| 0 <= i < j < init.len() implies key_lt(
                #[trigger] init[i].0,
                #[trigger] init[j].0,
            ) by {
                assert(init[i] == es[i] && init[j] == es[j]);
            }
        }
        assert forall|i: int| 0 <= i < init.len() implies #[trigger] init[i].1 is String by {
            assert(init[i] == es[i]);
        }
        lemma_pairs_object_strings(init);
        assert(member_pairs(es).drop_last() =~= member_pairs(init));
        assert(es[es.len() - 1].1 is String);
        assert(member_pairs(es).last() == (last.0, value_text(last.1)));
        assert(JsonV::String(value_text(last.1)) == last.1);
        assert forall|i: int| 0 <= i < init.len() implies key_lt(#[trigger] init[i].0, last.0) by {
            assert(init[i] == es[i]);
        }
        lemma_insert_greatest(init, last.0, last.1);
        assert(init.push(last) =~= es);
    }
}

/// Reading a JSON object of strings into pairs, writing them as a logfmt
/// line, reading the line back and putting the pairs into an object gives
/// the object read, when every key has no `=` and no ASCII white space, every
/// value that is quoted is ASCII, every value written as it is has no ASCII
/// white space, and the line does not start or end with white space.
pub proof fn law_json_logfmt_json(text: Seq<char>, es: Seq<(Seq<char>, JsonV)>)
    requires
        json_parse(trim_chars(text)) == Ok::<JsonV, Seq<char>>(JsonV::Object(es)),
        keys_ascending(es),
        forall|i: int| 0 <= i < es.len() ==> #[trigger] es[i].1 is String,
        pairs_safe(member_pairs(es)),
        line_ends_safe(member_pairs(es)),
    ensures
        json_pairs(text) == Ok::<Seq<PairV>, Seq<char>>(member_pairs(es)),
        logfmt_pairs(encode_utf8(trim_chars(logfmt_line(member_pairs(es))))) == Ok::<
            Seq<PairV>,
            Seq<char>,
        >(member_pairs(es)),
        pairs_object(member_pairs(es)) == es,
{
    law_logfmt_round_trip(member_pairs(es));
    lemma_pairs_object_strings(es);
}

} // verus!
