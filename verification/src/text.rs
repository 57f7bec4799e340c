//! Character classes, string building blocks and decimal numerals shared by
//! the logfmt and JSON conversions.

use vstd::prelude::*;
use vstd::utf8::*;

verus! {

/// `u8::is_ascii_whitespace`: space, tab, line feed, form feed, carriage return.
pub open spec fn is_ascii_ws(b: u8) -> bool {
    b == 0x20u8 || b == 0x09u8 || b == 0x0Au8 || b == 0x0Cu8 || b == 0x0Du8
}

/// `char::is_ascii_whitespace`: space, tab, line feed, form feed, carriage return.
pub open spec fn is_ascii_ws_char(c: char) -> bool {
    c == ' ' || c == '\t' || c == '\n' || c == '\u{c}' || c == '\r'
}

/// The Unicode `White_Space` property, which `char::is_whitespace` and
/// `str::trim` use.
pub open spec fn is_white_space(c: char) -> bool {
    ||| ('\u{9}' <= c && c <= '\u{d}')
    ||| c == ' '
    ||| c == '\u{85}'
    ||| c == '\u{a0}'
    ||| c == '\u{1680}'
    ||| ('\u{2000}' <= c && c <= '\u{200a}')
    ||| c == '\u{2028}'
    ||| c == '\u{2029}'
    ||| c == '\u{202f}'
    ||| c == '\u{205f}'
    ||| c == '\u{3000}'
}

/// `s` without its leading white space.
pub open spec fn trim_start_chars(s: Seq<char>) -> Seq<char>
    decreases s.len(),
{
    if s.len() > 0 && is_white_space(s[0]) {
        trim_start_chars(s.drop_first())
    } else {
        s
    }
}

/// `s` without its trailing white space.
pub open spec fn trim_end_chars(s: Seq<char>) -> Seq<char>
    decreases s.len(),
{
    if s.len() > 0 && is_white_space(s.last()) {
        trim_end_chars(s.drop_last())
    } else {
        s
    }
}

/// `s` without leading and trailing white space.
pub open spec fn trim_chars(s: Seq<char>) -> Seq<char> {
    trim_end_chars(trim_start_chars(s))
}

/// Calls `str::trim`, which removes the leading and trailing characters that
/// have the Unicode `White_Space` property (as its documentation says).
#[verifier::external_body]
pub(crate) fn trim_str(s: &str) -> (r: &str)
    ensures
        r@ == trim_chars(s@),
{
    s.trim()
}

/// Calls `String::push`, which appends one character.
#[verifier::external_body]
pub(crate) fn push_char(s: &mut String, c: char)
    ensures
        final(s)@ == old(s)@.push(c),
{
    s.push(c)
}

/// Calls `std::str::from_utf8`, which succeeds exactly on valid UTF-8 and
/// then reads the characters that the bytes encode.
#[verifier::external_body]
pub(crate) fn str_from_utf8(b: &[u8]) -> (r: Option<&str>)
    ensures
        r is Some <==> valid_utf8(b@),
        r matches Some(s) ==> s@ == decode_utf8(b@),
{
    std::str::from_utf8(b).ok()
}

} // verus!

verus! {

/// `u8::is_ascii_whitespace`.
pub fn ascii_ws(b: u8) -> (r: bool)
    ensures
        r == is_ascii_ws(b),
{
    b == 0x20u8 || b == 0x09u8 || b == 0x0Au8 || b == 0x0Cu8 || b == 0x0Du8
}

/// In valid UTF-8, a byte that follows an ASCII byte starts a character.
pub proof fn lemma_after_ascii_starts_char(b: Seq<u8>, p: int)
    requires
        valid_utf8(b),
        0 < p < b.len(),
        b[p - 1] <= 0x7f,
    ensures
        !is_continuation_byte(b[p]),
{
    is_char_boundary_iff_not_is_continuation_byte(b, p - 1);
    valid_utf8_split(b, p - 1);
    let t = b.subrange(p - 1, b.len() as int);
    assert(valid_first_scalar(t));
    assert(length_of_first_scalar(t) == 1);
    let u = pop_first_scalar(t);
    assert(valid_utf8(u));
    assert(u.len() > 0);
    assert(valid_first_scalar(u));
    assert(u[0] == b[p]);
}

/// A character boundary in valid UTF-8: the start, the end, or a position
/// right after an ASCII byte.
pub proof fn lemma_boundary_after_ascii(b: Seq<u8>, p: int)
    requires
        valid_utf8(b),
        0 <= p <= b.len(),
        p == 0 || b[p - 1] <= 0x7f,
    ensures
        is_char_boundary(b, p),
{
    is_char_boundary_start_end_of_seq(b);
    if 0 < p < b.len() {
        lemma_after_ascii_starts_char(b, p);
        is_char_boundary_iff_not_is_continuation_byte(b, p);
    }
}

/// The bytes between two positions of valid UTF-8 that each sit at the edge
/// of the sequence or next to an ASCII byte are themselves valid UTF-8.
pub proof fn lemma_valid_between_ascii(b: Seq<u8>, s: int, e: int)
    requires
        valid_utf8(b),
        0 <= s <= e <= b.len(),
        s == 0 || b[s - 1] <= 0x7f,
        e == b.len() || b[e] <= 0x7f,
    ensures
        valid_utf8(b.subrange(s, e)),
{
    lemma_boundary_after_ascii(b, s);
    valid_utf8_split(b, s);
    let t = b.subrange(s, b.len() as int);
    is_char_boundary_start_end_of_seq(t);
    if e < b.len() {
        assert(t[e - s] == b[e]);
        is_char_boundary_iff_not_is_continuation_byte(t, e - s);
    }
    valid_utf8_split(t, e - s);
    assert(t.subrange(0, e - s) =~= b.subrange(s, e));
}

} // verus!

verus! {

/// The character of a decimal digit.
pub open spec fn digit_char(d: nat) -> char {
    ((d + 48) as u8) as char
}

/// The decimal numeral of `n`, without leading zeros.
pub open spec fn decimal(n: nat) -> Seq<char>
    decreases n,
{
    if n < 10 {
        seq![digit_char(n)]
    } else {
        decimal(n / 10).push(digit_char(n % 10))
    }
}

/// The decimal numeral of an integer: `-` in front of negative ones.
pub open spec fn int_decimal(n: int) -> Seq<char> {
    if n < 0 {
        seq!['-'] + decimal((-n) as nat)
    } else {
        decimal(n as nat)
    }
}

/// Appends the decimal numeral of `n`.
pub fn push_decimal(out: &mut String, n: u64)
    ensures
        final(out)@ == old(out)@ + decimal(n as nat),
    decreases n,
{
    if n >= 10 {
        push_decimal(out, n / 10);
    }
    let d = (n % 10) as u8;
    push_char(out, (d + 48u8) as char);
    proof {
        if n >= 10 {
            assert(old(out)@ + decimal(n as nat) =~= old(out)@ + decimal((n / 10) as nat) + seq![
                digit_char((n % 10) as nat),
            ]);
        } else {
            assert(old(out)@ + decimal(n as nat) =~= old(out)@ + seq![digit_char(n as nat)]);
        }
    }
}

/// Appends the decimal numeral of `n` (with `-` when negative).
pub fn push_int_decimal(out: &mut String, n: i64)
    ensures
        final(out)@ == old(out)@ + int_decimal(n as int),
{
    if n < 0 {
        push_char(out, '-');
        let m: u64 = ((-(n + 1)) as u64) + 1;
        push_decimal(out, m);
        assert(old(out)@ + int_decimal(n as int) =~= old(out)@ + seq!['-'] + decimal(m as nat));
    } else {
        push_decimal(out, n as u64);
    }
}

/// Whether a character is an ASCII decimal digit.
pub open spec fn is_digit(c: char) -> bool {
    '0' <= c && c <= '9'
}

/// The value of a digit character.
pub open spec fn digit_value(c: char) -> int {
    (c as u32) - 48
}

/// The value of a run of decimal digits.
pub open spec fn digits_value(s: Seq<char>) -> int
    decreases s.len(),
{
    if s.len() == 0 {
        0
    } else {
        digits_value(s.drop_last()) * 10 + digit_value(s.last())
    }
}

/// The digits of a signed decimal numeral: all after a leading `+` or `-`.
pub open spec fn numeral_digits(s: Seq<char>) -> Seq<char> {
    if s.len() > 0 && (s[0] == '-' || s[0] == '+') {
        s.drop_first()
    } else {
        s
    }
}

/// What `str::parse::<i64>` gives: an optional sign, then one or more ASCII
/// digits whose value (negated after `-`) lies in the range of `i64`.
pub open spec fn parse_i64_spec(s: Seq<char>) -> Option<int> {
    let d = numeral_digits(s);
    let v = if s.len() > 0 && s[0] == '-' {
        -digits_value(d)
    } else {
        digits_value(d)
    };
    if d.len() > 0 && (forall|i: int| 0 <= i < d.len() ==> is_digit(#[trigger] d[i])) && i64::MIN
        <= v <= i64::MAX {
        Some(v)
    } else {
        None
    }
}

/// A run of digits is worth zero or more.
pub proof fn lemma_digits_value_nonneg(s: Seq<char>)
    requires
        forall|i: int| 0 <= i < s.len() ==> is_digit(#[trigger] s[i]),
    ensures
        digits_value(s) >= 0,
    decreases s.len(),
{
    if s.len() > 0 {
        lemma_digits_value_nonneg(s.drop_last());
    }
}

/// Reads a signed decimal numeral, as `str::parse::<i64>` does.
pub fn parse_i64(s: &str) -> (r: Option<i64>)
    ensures
        match parse_i64_spec(s@) {
            Some(v) => r == Some(v as i64),
            None => r is None,
        },
{
    let ghost cs = s@;
    let ghost neg = cs.len() > 0 && cs[0] == '-';
    let ghost signed = cs.len() > 0 && (cs[0] == '-' || cs[0] == '+');
    let ghost start: int = if signed {
        1
    } else {
        0
    };
    let ghost d = numeral_digits(cs);
    let ghost mut count: int = 0;
    let mut is_neg = false;
    let mut first = true;
    let mut any = false;
    let mut acc: u64 = 0;
    let bound: u64 = 0x8000_0000_0000_0000;
    for c in it: s.chars()
        invariant
            first == (it.index() == 0),
            it.seq() == cs,
            cs == s@,
            neg == (cs.len() > 0 && cs[0] == '-'),
            signed == (cs.len() > 0 && (cs[0] == '-' || cs[0] == '+')),
            start == (if signed { 1int } else { 0int }),
            d == numeral_digits(cs),
            d == cs.skip(start),
            0 <= start <= 1,
            is_neg == (neg && it.index() > 0),
            it.index() >= start ==> count == it.index() - start,
            it.index() < start ==> count == 0 && acc == 0,
            any == (count > 0),
            0 <= count <= d.len(),
            forall|i: int| 0 <= i < count ==> is_digit(#[trigger] d[i]),
            acc == digits_value(d.take(count)),
            acc <= bound,
            bound == 0x8000_0000_0000_0000u64,
    {
        let ghost k = it.index();
        assert(cs[k] == c);
        if first && (c == '-' || c == '+') {
            is_neg = c == '-';
        } else {
            assert(k >= start);
            if !('0' <= c && c <= '9') {
                assert(d[count] == c);
                return None;
            }
            let dv = (c as u32 - 48) as u64;
            assert(d[count] == c);
            assert(d.take(count + 1).drop_last() =~= d.take(count));
            if acc > 922337203685477580u64 || (acc == 922337203685477580u64 && dv > 8) {
                proof {
                    assert(acc * 10 + dv > bound) by (nonlinear_arith)
                        requires
                            acc > 922337203685477580u64 || (acc == 922337203685477580u64 && dv > 8),
                            bound == 0x8000_0000_0000_0000u64,
                    ;
                    lemma_digits_tail_grows(d, count + 1, acc * 10 + dv);
                }
                return None;
            }
            assert(acc * 10 + dv <= bound) by (nonlinear_arith)
                requires
                    acc <= 922337203685477580u64,
                    acc < 922337203685477580u64 || dv <= 8,
                    dv <= 9,
                    bound == 0x8000_0000_0000_0000u64,
            ;
            acc = acc * 10 + dv;
            proof {
                count = count + 1;
            }
            any = true;
        }
        first = false;
    }
    assert(d.take(count) =~= d);
    if !any {
        return None;
    }
    if is_neg {
        if acc == bound {
            Some(i64::MIN)
        } else {
            Some(-(acc as i64))
        }
    } else {
        if acc > 0x7fff_ffff_ffff_ffffu64 {
            None
        } else {
            Some(acc as i64)
        }
    }
}

/// Once the digits read so far are worth more than `v`, all of them are worth
/// at least as much (when they are all digits).
pub proof fn lemma_digits_tail_grows(d: Seq<char>, n: int, v: int)
    requires
        0 <= n <= d.len(),
        digits_value(d.take(n)) == v,
        v >= 0,
        forall|i: int| 0 <= i < n ==> is_digit(#[trigger] d[i]),
    ensures
        (forall|i: int| 0 <= i < d.len() ==> is_digit(#[trigger] d[i])) ==> digits_value(d) >= v,
    decreases d.len() - n,
{
    if n < d.len() && (forall|i: int| 0 <= i < d.len() ==> is_digit(#[trigger] d[i])) {
        assert(d.take(n + 1).drop_last() =~= d.take(n));
        let w = digits_value(d.take(n + 1));
        assert(w >= v) by (nonlinear_arith)
            requires
                w == v * 10 + digit_value(d[n]),
                v >= 0,
                digit_value(d[n]) >= 0,
        ;
        lemma_digits_tail_grows(d, n + 1, w);
    } else if n == d.len() {
        assert(d.take(n) =~= d);
    }
}

} // verus!
