//! Pair-list conversions: logfmt lines and JSON objects read into and written
//! from ordered lists of `(key, value)` string pairs.

use vstd::prelude::*;
use vstd::utf8::*;
use vstd::string::StringSliceAdditionalSpecFns;
use crate::logfmt::coerce_view;
use crate::pair_laws::{law_logfmt_line_read_back, line_ends_safe, pairs_writable, read_back_pairs};
use crate::object_laws::{lemma_coerce_integer, lemma_float_reads_back, lemma_words, number_reads_back};
use crate::json::{JsonObject, JsonV, JsonValue, entries_insert, entries_view, number_text, push_number};
use crate::serde_bridge::{json_compact, json_parse, parse_json_text, text_result_view, write_json_compact};
use crate::text::{ascii_ws, is_ascii_ws, lemma_valid_between_ascii, push_char, str_from_utf8, trim_chars, trim_str};

verus! {

/// A key/value pair as the contracts see it.
pub type PairV = (Seq<char>, Seq<char>);

/// The view of a list of string pairs.
pub open spec fn pairs_view(p: Seq<(String, String)>) -> Seq<PairV> {
    p.map_values(|x: (String, String)| (x.0@, x.1@))
}

/// Number of leading ASCII white-space bytes.
pub open spec fn ws_span(s: Seq<u8>) -> nat
    decreases s.len(),
{
    if s.len() > 0 && is_ascii_ws(s[0]) {
        1 + ws_span(s.drop_first())
    } else {
        0
    }
}

/// Number of leading bytes that may form a key: neither `=` nor ASCII white space.
pub open spec fn key_span(s: Seq<u8>) -> nat
    decreases s.len(),
{
    if s.len() > 0 && s[0] != 0x3Du8 && !is_ascii_ws(s[0]) {
        1 + key_span(s.drop_first())
    } else {
        0
    }
}

/// Number of leading bytes that are not ASCII white space.
pub open spec fn word_span(s: Seq<u8>) -> nat
    decreases s.len(),
{
    if s.len() > 0 && !is_ascii_ws(s[0]) {
        1 + word_span(s.drop_first())
    } else {
        0
    }
}

/// The character a byte stands for when it is copied as is.
pub open spec fn byte_char(b: u8) -> char {
    b as char
}

/// The character that the escape `\` followed by `b` stands for.
pub open spec fn unescape_byte(b: u8) -> char {
    if b == 0x6Eu8 {
        '\n'
    } else if b == 0x72u8 {
        '\r'
    } else if b == 0x74u8 {
        '\t'
    } else {
        b as char
    }
}

/// The body of a quoted value, `q` starting right after the opening quote:
/// the characters it stands for and the offset of the closing quote, or
/// `None` when no closing quote comes.
pub open spec fn quoted_body(q: Seq<u8>) -> Option<(Seq<char>, nat)>
    decreases q.len(),
{
    if q.len() == 0 {
        None
    } else if q[0] == 0x5Cu8 && q.len() > 1 {
        match quoted_body(q.skip(2)) {
            Some((s, e)) => Some((seq![unescape_byte(q[1])] + s, e + 2)),
            None => None,
        }
    } else if q[0] == 0x22u8 {
        Some((seq![], 0))
    } else {
        match quoted_body(q.drop_first()) {
            Some((s, e)) => Some((seq![byte_char(q[0])] + s, e + 1)),
            None => None,
        }
    }
}

/// The value that starts `v` (right after `=`): its characters and the number
/// of bytes it takes.
pub open spec fn pair_value(v: Seq<u8>) -> Result<(Seq<char>, nat), Seq<char>> {
    if v.len() > 0 && v[0] == 0x22u8 {
        match quoted_body(v.drop_first()) {
            Some((s, e)) => Ok((s, e + 2)),
            None => Err("unterminated quoted value"@),
        }
    } else {
        Ok((decode_utf8(v.take(word_span(v) as int)), word_span(v)))
    }
}

/// The white space, key and word spans fit in the bytes.
pub proof fn lemma_spans_bounded(s: Seq<u8>)
    ensures
        ws_span(s) <= s.len(),
        key_span(s) <= s.len(),
        word_span(s) <= s.len(),
    decreases s.len(),
{
    if s.len() > 0 {
        lemma_spans_bounded(s.drop_first());
    }
}

/// A quoted body fits in the bytes.
pub proof fn lemma_quoted_body_bounded(q: Seq<u8>)
    ensures
        quoted_body(q) matches Some((s, e)) ==> e < q.len() && q[e as int] == 0x22u8,
    decreases q.len(),
{
    if q.len() == 0 {
    } else if q[0] == 0x5Cu8 && q.len() > 1 {
        lemma_quoted_body_bounded(q.skip(2));
    } else if q[0] == 0x22u8 {
    } else {
        lemma_quoted_body_bounded(q.drop_first());
    }
}

/// A pair value fits in the bytes.
pub proof fn lemma_pair_value_bounded(v: Seq<u8>)
    ensures
        pair_value(v) matches Ok((s, n)) ==> n <= v.len(),
{
    lemma_spans_bounded(v);
    if v.len() > 0 && v[0] == 0x22u8 {
        lemma_quoted_body_bounded(v.drop_first());
    }
}

/// The pair that starts `r` (at its key): the pair and the number of bytes it
/// takes, or the message of the error.
pub open spec fn pair_at(r: Seq<u8>) -> Result<(PairV, nat), Seq<char>> {
    let k = key_span(r);
    if k >= r.len() || r[k as int] != 0x3Du8 {
        Err("expected key=value"@)
    } else {
        match pair_value(r.skip(k + 1int)) {
            Err(e) => Err(e),
            Ok((v, n)) => Ok(((decode_utf8(r.take(k as int)), v), k + 1 + n)),
        }
    }
}

/// A pair fits in the bytes.
pub proof fn lemma_pair_at_bounded(r: Seq<u8>)
    ensures
        pair_at(r) matches Ok((p, n)) ==> 0 < n <= r.len(),
{
    lemma_spans_bounded(r);
    lemma_pair_value_bounded(r.skip(key_span(r) + 1int));
}

/// The pairs of a logfmt line given as bytes, in the order they appear, or
/// the message of the first error.
pub open spec fn logfmt_pairs(b: Seq<u8>) -> Result<Seq<PairV>, Seq<char>>
    decreases b.len(),
{
    let r = b.skip(ws_span(b) as int);
    if ws_span(b) >= b.len() {
        Ok(seq![])
    } else {
        match pair_at(r) {
            Err(e) => Err(e),
            Ok((p, n)) => {
                proof {
                    lemma_spans_bounded(b);
                    lemma_pair_at_bounded(r);
                }
                match logfmt_pairs(r.skip(n as int)) {
                    Ok(ps) => Ok(seq![p] + ps),
                    Err(e) => Err(e),
                }
            },
        }
    }
}

/// `ps` put in front of the pairs of a result.
pub open spec fn prepend_pairs(ps: Seq<PairV>, r: Result<Seq<PairV>, Seq<char>>) -> Result<
    Seq<PairV>,
    Seq<char>,
> {
    match r {
        Ok(rest) => Ok(ps + rest),
        Err(e) => Err(e),
    }
}

/// The view of a result of pair parsing.
pub open spec fn pairs_result_view(r: Result<Vec<(String, String)>, String>) -> Result<
    Seq<PairV>,
    Seq<char>,
> {
    match r {
        Ok(p) => Ok(pairs_view(p@)),
        Err(e) => Err(e@),
    }
}

} // verus!

verus! {

/// The position of the first byte at or after `i` that is not ASCII white space.
fn scan_ws(b: &[u8], i: usize) -> (j: usize)
    requires
        i <= b@.len(),
    ensures
        i <= j <= b@.len(),
        j - i == ws_span(b@.skip(i as int)),
        forall|k: int| i <= k < j ==> is_ascii_ws(#[trigger] b@[k]),
        j < b@.len() ==> !is_ascii_ws(b@[j as int]),
{
    let mut j = i;
    while j < b.len() && ascii_ws(b[j])
        invariant
            i <= j <= b@.len(),
            ws_span(b@.skip(i as int)) == (j - i) + ws_span(b@.skip(j as int)),
            forall|k: int| i <= k < j ==> is_ascii_ws(#[trigger] b@[k]),
        decreases b@.len() - j,
    {
        assert(b@.skip(j as int).drop_first() =~= b@.skip(j + 1));
        j += 1;
    }
    j
}

/// The position of the first byte at or after `i` that is `=` or ASCII white space.
fn scan_key(b: &[u8], i: usize) -> (j: usize)
    requires
        i <= b@.len(),
    ensures
        i <= j <= b@.len(),
        j - i == key_span(b@.skip(i as int)),
        j < b@.len() ==> (b@[j as int] == 0x3Du8 || is_ascii_ws(b@[j as int])),
{
    let mut j = i;
    while j < b.len() && b[j] != 0x3Du8 && !ascii_ws(b[j])
        invariant
            i <= j <= b@.len(),
            key_span(b@.skip(i as int)) == (j - i) + key_span(b@.skip(j as int)),
        decreases b@.len() - j,
    {
        assert(b@.skip(j as int).drop_first() =~= b@.skip(j + 1));
        j += 1;
    }
    j
}

/// The position of the first ASCII white-space byte at or after `i`, or the end.
fn scan_word(b: &[u8], i: usize) -> (j: usize)
    requires
        i <= b@.len(),
    ensures
        i <= j <= b@.len(),
        j - i == word_span(b@.skip(i as int)),
        j < b@.len() ==> is_ascii_ws(b@[j as int]),
{
    let mut j = i;
    while j < b.len() && !ascii_ws(b[j])
        invariant
            i <= j <= b@.len(),
            word_span(b@.skip(i as int)) == (j - i) + word_span(b@.skip(j as int)),
        decreases b@.len() - j,
    {
        assert(b@.skip(j as int).drop_first() =~= b@.skip(j + 1));
        j += 1;
    }
    j
}

/// The character that the escape `\` followed by `b` stands for.
pub fn unescape(b: u8) -> (c: char)
    ensures
        c == unescape_byte(b),
{
    if b == 0x6Eu8 {
        '\n'
    } else if b == 0x72u8 {
        '\r'
    } else if b == 0x74u8 {
        '\t'
    } else {
        b as char
    }
}

/// Reads the body of a quoted value that starts at `start` (right after the
/// opening quote); gives its characters and the position of the closing quote.
fn read_quoted(b: &[u8], start: usize) -> (r: Option<(String, usize)>)
    requires
        start <= b@.len(),
    ensures
        match quoted_body(b@.skip(start as int)) {
            Some((s, e)) => r matches Some((out, end)) && out@ == s && end == start + e,
            None => r is None,
        },
{
    let mut out = String::new();
    let mut i = start;
    while i < b.len()
        invariant
            start <= i <= b@.len(),
            quoted_body(b@.skip(start as int)) == match quoted_body(b@.skip(i as int)) {
                Some((s, e)) => Some((out@ + s, (e + (i - start)) as nat)),
                None => None,
            },
        decreases b@.len() - i,
    {
        let ghost q = b@.skip(i as int);
        if b[i] == 0x5Cu8 && i + 1 < b.len() {
            let c = unescape(b[i + 1]);
            assert(q.skip(2) =~= b@.skip(i + 2));
            let ghost old_out = out@;
            push_char(&mut out, c);
            proof {
                match quoted_body(b@.skip(i + 2)) {
                    Some((s, e)) => {
                        assert(old_out + (seq![c] + s) =~= out@ + s);
                    },
                    None => {},
                }
            }
            i = i + 2;
        } else if b[i] == 0x22u8 {
            assert(out@ + seq![] =~= out@);
            return Some((out, i));
        } else {
            let c = b[i] as char;
            assert(q.drop_first() =~= b@.skip(i + 1));
            let ghost old_out = out@;
            push_char(&mut out, c);
            proof {
                match quoted_body(b@.skip(i + 1)) {
                    Some((s, e)) => {
                        assert(old_out + (seq![c] + s) =~= out@ + s);
                    },
                    None => {},
                }
            }
            i = i + 1;
        }
    }
    None
}

} // verus!

verus! {

/// Reads the pair whose key starts at `ks`; gives its key, its value and the
/// position right after it.
fn read_pair(b: &[u8], ks: usize) -> (r: Result<(String, String, usize), String>)
    requires
        valid_utf8(b@),
        ks < b@.len(),
        ks == 0 || b@[ks - 1] <= 0x7f,
    ensures
        match pair_at(b@.skip(ks as int)) {
            Ok((p, n)) => r matches Ok((k, v, e)) && k@ == p.0 && v@ == p.1 && e == ks + n && (
            e == b@.len() || b@[e - 1] <= 0x7f || is_ascii_ws(b@[e as int])),
            Err(m) => r matches Err(x) && x@ == m,
        },
{
    let ghost bs = b@;
    let ke = scan_key(b, ks);
    let ghost r0 = bs.skip(ks as int);
    if ke >= b.len() || b[ke] != 0x3Du8 {
        return Err("expected key=value".to_owned());
    }
    assert(r0[(ke - ks) as int] == bs[ke as int]);
    proof {
        lemma_valid_between_ascii(bs, ks as int, ke as int);
    }
    assert(r0.take((ke - ks) as int) =~= bs.subrange(ks as int, ke as int));
    let key = match str_from_utf8(&b[ks..ke]) {
        Some(s) => s.to_owned(),
        None => return Err("invalid UTF-8 in key".to_owned()),
    };
    let vs = ke + 1;
    let ghost rest = r0.skip((ke - ks) + 1int);
    assert(rest =~= bs.skip(vs as int));
    if vs < b.len() && b[vs] == 0x22u8 {
        assert(rest.drop_first() =~= bs.skip(vs + 1));
        proof {
            lemma_quoted_body_bounded(bs.skip(vs + 1));
        }
        match read_quoted(b, vs + 1) {
            Some((s, e)) => Ok((key, s, e + 1)),
            None => Err("unterminated quoted value".to_owned()),
        }
    } else {
        let ve = scan_word(b, vs);
        proof {
            lemma_valid_between_ascii(bs, vs as int, ve as int);
        }
        assert(rest.take((ve - vs) as int) =~= bs.subrange(vs as int, ve as int));
        let val = match str_from_utf8(&b[vs..ve]) {
            Some(s) => s.to_owned(),
            None => return Err("invalid UTF-8 in value".to_owned()),
        };
        Ok((key, val, ve))
    }
}

/// Reads a logfmt line (after trimming white space from both ends) into its
/// `key=value` pairs, in the order they appear. A value is either a run of
/// bytes up to the next ASCII white space, or a double-quoted text in which
/// `\n`, `\r`, `\t`, `\"` and `\\` are escapes and every other byte stands
/// for the character with the same number.
pub fn parse_logfmt(input: &str) -> (r: Result<Vec<(String, String)>, String>)
    ensures
        pairs_result_view(r) == logfmt_pairs(encode_utf8(trim_chars(input@))),
{
    let t = trim_str(input);
    let b = t.as_bytes();
    let ghost bs = b@;
    proof {
        encode_utf8_valid_utf8(t@);
    }
    let mut pairs: Vec<(String, String)> = Vec::new();
    let mut i: usize = 0;
    assert(bs.skip(0) =~= bs);
    assert(pairs_view(pairs@) =~= seq![]);
    while i < b.len()
        invariant
            bs == b@,
            bs == encode_utf8(trim_chars(input@)),
            valid_utf8(bs),
            i <= bs.len(),
            i == 0 || i == bs.len() || bs[i - 1] <= 0x7f || is_ascii_ws(bs[i as int]),
            logfmt_pairs(bs) == prepend_pairs(
                pairs_view(pairs@),
                logfmt_pairs(bs.skip(i as int)),
            ),
        decreases bs.len() - i,
    {
        let ghost s0 = bs.skip(i as int);
        let ks = scan_ws(b, i);
        assert(s0.skip(ws_span(s0) as int) =~= bs.skip(ks as int));
        if ks >= b.len() {
            assert(pairs_view(pairs@) + seq![] =~= pairs_view(pairs@));
            return Ok(pairs);
        }
        let (key, val, e) = match read_pair(b, ks) {
            Ok(x) => x,
            Err(m) => return Err(m),
        };
        proof {
            lemma_pair_at_bounded(bs.skip(ks as int));
        }
        assert(bs.skip(ks as int).skip((e - ks) as int) =~= bs.skip(e as int));
        let ghost old_pairs = pairs_view(pairs@);
        pairs.push((key, val));
        proof {
            assert(pairs_view(pairs@) =~= old_pairs + seq![(key@, val@)]);
            match logfmt_pairs(bs.skip(e as int)) {
                Ok(ps) => {
                    assert(old_pairs + (seq![(key@, val@)] + ps) =~= pairs_view(pairs@) + ps);
                },
                Err(m) => {},
            }
        }
        i = e;
    }
    assert(bs.skip(i as int) =~= seq![]);
    assert(pairs_view(pairs@) + seq![] =~= pairs_view(pairs@));
    Ok(pairs)
}

} // verus!

verus! {

/// Whether a value is written between quotes: when it is empty or holds a
/// space, a quote, a backslash, a line feed, a carriage return or a tab.
pub open spec fn needs_quotes(v: Seq<char>) -> bool {
    ||| v.len() == 0
    ||| v.contains(' ')
    ||| v.contains('"')
    ||| v.contains('\\')
    ||| v.contains('\n')
    ||| v.contains('\r')
    ||| v.contains('\t')
}

/// How one character is written inside quotes.
pub open spec fn escape_char(c: char) -> Seq<char> {
    if c == '\n' {
        seq!['\\', 'n']
    } else if c == '\r' {
        seq!['\\', 'r']
    } else if c == '\t' {
        seq!['\\', 't']
    } else if c == '"' {
        seq!['\\', '"']
    } else if c == '\\' {
        seq!['\\', '\\']
    } else {
        seq![c]
    }
}

/// How a text is written inside quotes.
pub open spec fn escape_chars(v: Seq<char>) -> Seq<char>
    decreases v.len(),
{
    if v.len() == 0 {
        seq![]
    } else {
        escape_char(v[0]) + escape_chars(v.drop_first())
    }
}

/// How a value is written.
pub open spec fn logfmt_value(v: Seq<char>) -> Seq<char> {
    if needs_quotes(v) {
        seq!['"'] + escape_chars(v) + seq!['"']
    } else {
        v
    }
}

/// How a pair is written: the key as it is, `=`, then the value.
pub open spec fn logfmt_pair(p: PairV) -> Seq<char> {
    p.0 + seq!['='] + logfmt_value(p.1)
}

/// The pairs written one after another, separated by single spaces.
pub open spec fn logfmt_join(ps: Seq<PairV>) -> Seq<char>
    decreases ps.len(),
{
    if ps.len() == 0 {
        seq![]
    } else if ps.len() == 1 {
        logfmt_pair(ps[0])
    } else {
        logfmt_pair(ps[0]) + seq![' '] + logfmt_join(ps.drop_first())
    }
}

/// A whole logfmt line: the pairs, then a line feed.
pub open spec fn logfmt_line(ps: Seq<PairV>) -> Seq<char> {
    logfmt_join(ps) + seq!['\n']
}

/// Escaping two texts one after the other.
pub proof fn lemma_escape_chars_append(a: Seq<char>, b: Seq<char>)
    ensures
        escape_chars(a + b) == escape_chars(a) + escape_chars(b),
    decreases a.len(),
{
    if a.len() == 0 {
        assert(a + b =~= b);
    } else {
        lemma_escape_chars_append(a.drop_first(), b);
        assert((a + b).drop_first() =~= a.drop_first() + b);
    }
}

/// Escaping a single character.
pub proof fn lemma_escape_chars_one(c: char)
    ensures
        escape_chars(seq![c]) == escape_char(c),
{
    reveal_with_fuel(escape_chars, 2);
    assert(seq![c].drop_first() =~= Seq::<char>::empty());
    assert(escape_char(c) + Seq::<char>::empty() =~= escape_char(c));
}

/// Joining pairs with one more at the end.
pub proof fn lemma_logfmt_join_push(ps: Seq<PairV>, p: PairV)
    ensures
        logfmt_join(ps.push(p)) == if ps.len() == 0 {
            logfmt_pair(p)
        } else {
            logfmt_join(ps) + seq![' '] + logfmt_pair(p)
        },
    decreases ps.len(),
{
    reveal_with_fuel(logfmt_join, 2);
    if ps.len() == 0 {
        assert(ps.push(p) =~= seq![p]);
    } else if ps.len() == 1 {
        assert(ps.push(p).drop_first() =~= seq![p]);
        assert(ps.push(p)[0] == ps[0]);
    } else {
        assert(ps.push(p)[0] == ps[0]);
        lemma_logfmt_join_push(ps.drop_first(), p);
        assert(ps.push(p).drop_first() =~= ps.drop_first().push(p));
        assert(logfmt_pair(ps[0]) + seq![' '] + (logfmt_join(ps.drop_first()) + seq![' ']
            + logfmt_pair(p)) =~= logfmt_pair(ps[0]) + seq![' '] + logfmt_join(ps.drop_first())
            + seq![' '] + logfmt_pair(p));
    }
}

/// Whether `v` needs quotes, reading it once.
fn value_needs_quotes(v: &str) -> (r: bool)
    ensures
        r == needs_quotes(v@),
{
    if v.is_empty() {
        return true;
    }
    for c in it: v.chars()
        invariant
            it.seq() == v@,
            forall|j: int|
                0 <= j < it.index() ==> {
                    let d = #[trigger] v@[j];
                    d != ' ' && d != '"' && d != '\\' && d != '\n' && d != '\r' && d != '\t'
                },
    {
        if c == ' ' || c == '"' || c == '\\' || c == '\n' || c == '\r' || c == '\t' {
            assert(v@[it.index() as int] == c);
            return true;
        }
    }
    false
}

/// Appends `v` written inside quotes (without the quotes).
pub fn push_escaped(out: &mut String, v: &str)
    ensures
        final(out)@ == old(out)@ + escape_chars(v@),
{
    let ghost start = out@;
    assert(v@.take(0) =~= Seq::<char>::empty());
    for c in it: v.chars()
        invariant
            it.seq() == v@,
            out@ == start + escape_chars(v@.take(it.index() as int)),
    {
        let ghost k = it.index() as int;
        proof {
            assert(v@[k] == c);
            assert(v@.take(k + 1) =~= v@.take(k) + seq![c]);
            lemma_escape_chars_append(v@.take(k), seq![c]);
            lemma_escape_chars_one(c);
        }
        if c == '\n' {
            push_char(out, '\\');
            push_char(out, 'n');
        } else if c == '\r' {
            push_char(out, '\\');
            push_char(out, 'r');
        } else if c == '\t' {
            push_char(out, '\\');
            push_char(out, 't');
        } else if c == '"' {
            push_char(out, '\\');
            push_char(out, '"');
        } else if c == '\\' {
            push_char(out, '\\');
            push_char(out, '\\');
        } else {
            push_char(out, c);
        }
        assert(out@ =~= start + escape_chars(v@.take(k + 1)));
    }
    assert(v@.take(v@.len() as int) =~= v@);
}

/// Writes pairs as one logfmt line: `key=value` pairs separated by single
/// spaces and ended by a line feed. A value that is empty or holds a space, a
/// quote, a backslash, a line feed, a carriage return or a tab is put between
/// quotes, with those five characters (but the space) escaped, whatever
/// other characters it holds.
pub fn emit_logfmt(pairs: &[(String, String)]) -> (out: String)
    ensures
        out@ == logfmt_line(pairs_view(pairs@)),
        pairs_writable(pairs_view(pairs@)) && line_ends_safe(pairs_view(pairs@)) ==> logfmt_pairs(
            encode_utf8(trim_chars(out@)),
        ) == Ok::<Seq<PairV>, Seq<char>>(read_back_pairs(pairs_view(pairs@))),
{
    proof {
        if pairs_writable(pairs_view(pairs@)) && line_ends_safe(pairs_view(pairs@)) {
            law_logfmt_line_read_back(pairs_view(pairs@));
        }
    }
    let mut out = String::new();
    let n = pairs.len();
    assert(pairs_view(pairs@).take(0) =~= Seq::<PairV>::empty());
    for i in 0..n
        invariant
            n == pairs@.len(),
            out@ == logfmt_join(pairs_view(pairs@).take(i as int)),
    {
        let k = &pairs[i].0;
        let v = &pairs[i].1;
        let ghost before = out@;
        let ghost p = (k@, v@);
        proof {
            assert(pairs_view(pairs@).take(i + 1) =~= pairs_view(pairs@).take(i as int).push(p));
            lemma_logfmt_join_push(pairs_view(pairs@).take(i as int), p);
        }
        if i > 0 {
            push_char(&mut out, ' ');
        }
        out.append(k.as_str());
        push_char(&mut out, '=');
        if value_needs_quotes(v.as_str()) {
            push_char(&mut out, '"');
            push_escaped(&mut out, v.as_str());
            push_char(&mut out, '"');
        } else {
            out.append(v.as_str());
        }
        assert(out@ =~= logfmt_join(pairs_view(pairs@).take(i + 1)));
    }
    assert(pairs_view(pairs@).take(n as int) =~= pairs_view(pairs@));
    push_char(&mut out, '\n');
    out
}

/// A JSON value as a pair's value text: a string as it is; `null`, `true`,
/// `false` and numbers as they are written; an array or an object as its
/// compact JSON text (empty if that could not be written).
pub open spec fn value_text(v: JsonV) -> Seq<char> {
    match v {
        JsonV::String(s) => s,
        JsonV::Null => "null"@,
        JsonV::Bool(b) => if b {
            "true"@
        } else {
            "false"@
        },
        JsonV::Number(n) => number_text(n),
        _ => match json_compact(v) {
            Ok(t) => t,
            Err(_) => seq![],
        },
    }
}

/// Each member's key and value text, in order.
pub open spec fn member_pairs(es: Seq<(Seq<char>, JsonV)>) -> Seq<PairV> {
    es.map_values(|e: (Seq<char>, JsonV)| (e.0, value_text(e.1)))
}

/// The pairs of a JSON object text (trimmed first): each member's key and
/// value text, in the object's key order.
pub open spec fn json_pairs(text: Seq<char>) -> Result<Seq<PairV>, Seq<char>> {
    match json_parse(trim_chars(text)) {
        Err(e) => Err(e),
        Ok(JsonV::Object(es)) => Ok(member_pairs(es)),
        Ok(_) => Err("expected JSON object"@),
    }
}

/// The members of an object made by putting the pairs in one after another
/// as string values (a later value of a key replaces an earlier one).
pub open spec fn pairs_object(ps: Seq<PairV>) -> Seq<(Seq<char>, JsonV)>
    decreases ps.len(),
{
    if ps.len() == 0 {
        seq![]
    } else {
        entries_insert(pairs_object(ps.drop_last()), ps.last().0, JsonV::String(ps.last().1))
    }
}

/// A JSON value as a pair's value text.
pub fn value_to_str(v: &JsonValue) -> (r: String)
    ensures
        r@ == value_text(v@),
        v@ matches JsonV::String(s) ==> r@ == s,
        v@ is Bool || v@ is Null || (v@ is Number && number_reads_back(v@->Number_0)) ==> coerce_view(
            r@,
        ) == v@,
{
    proof {
        lemma_words();
        if let JsonV::Number(n) = v@ {
            if number_reads_back(n) {
                if n is Float {
                    lemma_float_reads_back(n->Float_0);
                } else {
                    lemma_coerce_integer(n);
                }
            }
        }
    }
    match v {
        JsonValue::String(s) => s.clone(),
        JsonValue::Null => "null".to_owned(),
        JsonValue::Bool(b) => if *b {
            "true".to_owned()
        } else {
            "false".to_owned()
        },
        JsonValue::Number(n) => {
            let mut out = String::new();
            push_number(&mut out, n);
            assert(out@ =~= number_text(n@));
            out
        },
        _ => match write_json_compact(v) {
            Ok(t) => t,
            Err(_) => String::new(),
        },
    }
}

/// Reads a JSON object text (trimmed first) into pairs: each member's key and
/// value text, in the object's key order. Fails with the JSON error's message,
/// or when the value is not an object.
pub fn parse_json(input: &str) -> (r: Result<Vec<(String, String)>, String>)
    ensures
        pairs_result_view(r) == json_pairs(input@),
{
    let v = match parse_json_text(trim_str(input)) {
        Ok(v) => v,
        Err(e) => return Err(e),
    };
    match v {
        JsonValue::Object(o) => {
            let es = o.entries();
            let ghost ev = o@;
            let mut out: Vec<(String, String)> = Vec::new();
            let n = es.len();
            for i in 0..n
                invariant
                    n == es@.len(),
                    entries_view(es@) == ev,
                    out@.len() == i,
                    pairs_view(out@) == member_pairs(ev.take(i as int)),
            {
                let k = es[i].0.clone();
                let t = value_to_str(&es[i].1);
                let ghost before = pairs_view(out@);
                let ghost old_out = out@;
                out.push((k, t));
                assert(ev[i as int] == (es@[i as int].0@, es@[i as int].1@));
                assert forall|j: int| 0 <= j < i + 1 implies #[trigger] pairs_view(out@)[j]
                    == member_pairs(ev.take(i + 1))[j] by {
                    if j < i {
                        assert(out@[j] == old_out[j]);
                        assert(before[j] == member_pairs(ev.take(i as int))[j]);
                    }
                }
                assert(pairs_view(out@) =~= member_pairs(ev.take(i + 1)));
            }
            assert(ev.take(n as int) =~= ev);
            Ok(out)
        },
        _ => Err("expected JSON object".to_owned()),
    }
}

/// Writes pairs as a compact JSON object of strings, keys in ascending order
/// (a later value of a key replaces an earlier one).
pub fn emit_json(pairs: &[(String, String)]) -> (r: Result<String, String>)
    ensures
        text_result_view(r) == json_compact(JsonV::Object(pairs_object(pairs_view(pairs@)))),
{
    let mut map = JsonObject::new();
    let n = pairs.len();
    assert(pairs_view(pairs@).take(0) =~= Seq::<PairV>::empty());
    for i in 0..n
        invariant
            n == pairs@.len(),
            map@ == pairs_object(pairs_view(pairs@).take(i as int)),
    {
        let k = pairs[i].0.clone();
        let v = pairs[i].1.clone();
        assert(pairs_view(pairs@).take(i + 1).drop_last() =~= pairs_view(pairs@).take(i as int));
        map.insert(k, JsonValue::String(v));
    }
    assert(pairs_view(pairs@).take(n as int) =~= pairs_view(pairs@));
    write_json_compact(&JsonValue::Object(map))
}

} // verus!
