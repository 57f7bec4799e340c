//! What reading a logfmt line made of two lines and a bare key between them
//! gives, and the facts about putting members into an object that it rests on.

use vstd::prelude::*;
use crate::json::{entries_get, entries_insert, key_lt, keys_ascending, lemma_entries_insert_ascending, lemma_key_order};
use crate::error::KvfmtErrorV;
use crate::pair_laws::{key_safe, lemma_encode_append, lemma_encode_ascii_char};
use crate::object_laws::{law_get_after_insert, lemma_member_at, lemma_member_text, member_reads_back, lemma_members_same_start, lemma_ws_end_stops};
use crate::text::is_ascii_ws;
use crate::json::JsonV;
use crate::logfmt::{coerce_view, logfmt_members, key_end, lemma_ends, lemma_quoted_from, lemma_value_at, members_from, quoted_from, value_at, word_end, ws_end};
use vstd::utf8::*;

verus! {

/// `acc` with the members of `es` put in one after another (a later value of
/// a key replaces an earlier one).
pub open spec fn insert_all<V>(acc: Seq<(Seq<char>, V)>, es: Seq<(Seq<char>, V)>) -> Seq<
    (Seq<char>, V),
>
    decreases es.len(),
{
    if es.len() == 0 {
        acc
    } else {
        entries_insert(insert_all(acc, es.drop_last()), es.last().0, es.last().1)
    }
}

/// The value of the last member of `es` whose key is `k`, if any.
pub open spec fn last_value<V>(es: Seq<(Seq<char>, V)>, k: Seq<char>) -> Option<V>
    decreases es.len(),
{
    if es.len() == 0 {
        None
    } else if es.last().0 == k {
        Some(es.last().1)
    } else {
        last_value(es.drop_last(), k)
    }
}

/// The entries after the first, still in ascending key order.
pub proof fn lemma_ascending_tail<V>(es: Seq<(Seq<char>, V)>)
    requires
        keys_ascending(es),
        es.len() > 0,
    ensures
        keys_ascending(es.drop_first()),
        keys_ascending(es.drop_last()),
        forall|i: int| 0 < i < es.len() ==> key_lt(es[0].0, #[trigger] es[i].0),
{
    let t = es.drop_first();
    assert forall|i: int, j: int| 0 <= i < j < t.len() implies key_lt(
        #[trigger] t[i].0,
        #[trigger] t[j].0,
    ) by {
        assert(t[i] == es[i + 1] && t[j] == es[j + 1]);
    }
    let d = es.drop_last();
    assert forall|i: int, j: int| 0 <= i < j < d.len() implies key_lt(
        #[trigger] d[i].0,
        #[trigger] d[j].0,
    ) by {
        assert(d[i] == es[i] && d[j] == es[j]);
    }
}

/// A key that no entry has has no value.
pub proof fn lemma_get_none<V>(es: Seq<(Seq<char>, V)>, k: Seq<char>)
    requires
        forall|i: int| 0 <= i < es.len() ==> #[trigger] es[i].0 != k,
    ensures
        entries_get(es, k) == None::<V>,
    decreases es.len(),
{
    if es.len() > 0 {
        assert(es[0].0 != k);
        let t = es.drop_first();
        assert forall|i: int| 0 <= i < t.len() implies #[trigger] t[i].0 != k by {
            assert(t[i] == es[i + 1]);
        }
        lemma_get_none(t, k);
    }
}

/// In ascending entries, the key of an entry has that entry's value.
pub proof fn lemma_get_index<V>(es: Seq<(Seq<char>, V)>, i: int)
    requires
        keys_ascending(es),
        0 <= i < es.len(),
    ensures
        entries_get(es, es[i].0) == Some(es[i].1),
    decreases i,
{
    if i > 0 {
        lemma_key_order(es[0].0, es[i].0, es[i].0);
        assert(key_lt(es[0].0, es[i].0));
        lemma_ascending_tail(es);
        assert(es.drop_first()[i - 1] == es[i]);
        lemma_get_index(es.drop_first(), i - 1);
    }
}

/// A key with a value is the key of an entry with that value.
pub proof fn lemma_get_some<V>(es: Seq<(Seq<char>, V)>, k: Seq<char>)
    ensures
        entries_get(es, k) matches Some(v) ==> exists|i: int|
            0 <= i < es.len() && #[trigger] es[i] == (k, v),
    decreases es.len(),
{
    if es.len() > 0 && es[0].0 != k {
        let t = es.drop_first();
        lemma_get_some(t, k);
        if let Some(v) = entries_get(t, k) {
            let j = choose|j: int| 0 <= j < t.len() && #[trigger] t[j] == (k, v);
            assert(es[j + 1] == (k, v));
        }
    } else if es.len() > 0 {
        assert(es[0] == (k, es[0].1));
    }
}

/// Reading a key after an entry is added at the end.
pub proof fn lemma_get_push<V>(es: Seq<(Seq<char>, V)>, e: (Seq<char>, V), k: Seq<char>)
    ensures
        entries_get(es.push(e), k) == match entries_get(es, k) {
            Some(v) => Some(v),
            None => if e.0 == k {
                Some(e.1)
            } else {
                None
            },
        },
    decreases es.len(),
{
    let p = es.push(e);
    if es.len() == 0 {
        assert(p.drop_first() =~= Seq::<(Seq<char>, V)>::empty());
        assert(entries_get(p.drop_first(), k) == None::<V>);
        assert(p[0] == e);
        assert(entries_get(es, k) == None::<V>);
    } else {
        assert(p[0] == es[0]);
        assert(p.drop_first() =~= es.drop_first().push(e));
        lemma_get_push(es.drop_first(), e, k);
        if es[0].0 != k {
            assert(entries_get(p, k) == entries_get(p.drop_first(), k));
            assert(entries_get(es, k) == entries_get(es.drop_first(), k));
        }
    }
}

/// In ascending entries, the last value of a key is its value.
pub proof fn lemma_last_value_is_get<V>(es: Seq<(Seq<char>, V)>, k: Seq<char>)
    requires
        keys_ascending(es),
    ensures
        last_value(es, k) == entries_get(es, k),
    decreases es.len(),
{
    if es.len() > 0 {
        let n = es.len() - 1;
        lemma_ascending_tail(es);
        assert(es.drop_last().push(es.last()) =~= es);
        lemma_get_push(es.drop_last(), es.last(), k);
        if es.last().0 == k {
            assert forall|i: int| 0 <= i < es.drop_last().len() implies #[trigger] es.drop_last()[i].0
                != k by {
                assert(es.drop_last()[i] == es[i]);
                assert(key_lt(es[i].0, es[n].0));
                lemma_key_order(k, k, k);
            }
            lemma_get_none(es.drop_last(), k);
        } else {
            lemma_last_value_is_get(es.drop_last(), k);
        }
    }
}

/// Putting members into ascending entries keeps them ascending.
pub proof fn lemma_insert_all_ascending<V>(acc: Seq<(Seq<char>, V)>, es: Seq<(Seq<char>, V)>)
    requires
        keys_ascending(acc),
    ensures
        keys_ascending(insert_all(acc, es)),
    decreases es.len(),
{
    if es.len() > 0 {
        lemma_insert_all_ascending(acc, es.drop_last());
        lemma_entries_insert_ascending(insert_all(acc, es.drop_last()), es.last().0, es.last().1, es.last().0);
    }
}

/// After putting members in, a key has its last value among them, or else
/// the value it had.
pub proof fn lemma_insert_all_get<V>(acc: Seq<(Seq<char>, V)>, es: Seq<(Seq<char>, V)>, k: Seq<char>)
    requires
        keys_ascending(acc),
    ensures
        entries_get(insert_all(acc, es), k) == match last_value(es, k) {
            Some(v) => Some(v),
            None => entries_get(acc, k),
        },
    decreases es.len(),
{
    if es.len() > 0 {
        lemma_insert_all_get(acc, es.drop_last(), k);
        lemma_insert_all_ascending(acc, es.drop_last());
        law_get_after_insert(insert_all(acc, es.drop_last()), es.last().0, es.last().1, k);
    }
}

/// Two ascending entry lists in which every key has the same value are equal.
pub proof fn lemma_entries_ext<V>(x: Seq<(Seq<char>, V)>, y: Seq<(Seq<char>, V)>)
    requires
        keys_ascending(x),
        keys_ascending(y),
        forall|k: Seq<char>| #[trigger] entries_get(x, k) == entries_get(y, k),
    ensures
        x == y,
    decreases x.len(),
{
    if x.len() == 0 && y.len() == 0 {
        assert(x =~= y);
    } else if x.len() == 0 {
        lemma_get_index(y, 0);
        assert(entries_get(x, y[0].0) == None::<V>);
    } else if y.len() == 0 {
        lemma_get_index(x, 0);
        assert(entries_get(y, x[0].0) == None::<V>);
    } else {
        let a = x[0].0;
        let b = y[0].0;
        lemma_get_index(x, 0);
        lemma_get_index(y, 0);
        lemma_ascending_tail(x);
        lemma_ascending_tail(y);
        lemma_get_some(y, a);
        lemma_get_some(x, b);
        lemma_key_order(a, b, a);
        lemma_key_order(b, a, b);
        if a != b {
            let j = choose|j: int| 0 <= j < y.len() && #[trigger] y[j] == (a, x[0].1);
            let i = choose|i: int| 0 <= i < x.len() && #[trigger] x[i] == (b, y[0].1);
            assert(j != 0);
            assert(i != 0);
            assert(key_lt(b, y[j].0));
            assert(key_lt(a, x[i].0));
            assert(false);
        }
        assert(x[0] == y[0]);
        let tx = x.drop_first();
        let ty = y.drop_first();
        assert forall|k: Seq<char>| #[trigger] entries_get(tx, k) == entries_get(ty, k) by {
            assert(entries_get(x, k) == entries_get(y, k));
            if k == a {
                assert forall|i: int| 0 <= i < tx.len() implies #[trigger] tx[i].0 != k by {
                    assert(tx[i] == x[i + 1]);
                    assert(key_lt(a, x[i + 1].0));
                }
                assert forall|i: int| 0 <= i < ty.len() implies #[trigger] ty[i].0 != k by {
                    assert(ty[i] == y[i + 1]);
                    assert(key_lt(a, y[i + 1].0));
                }
                lemma_get_none(tx, k);
                lemma_get_none(ty, k);
            }
        }
        lemma_entries_ext(tx, ty);
        assert(x =~= seq![x[0]] + tx);
        assert(y =~= seq![y[0]] + ty);
    }
}



/// `acc` with `k` put in, then the members of `es`: the same as putting `k`
/// in front of the members of `es` and then all of them into `acc`.
pub proof fn lemma_insert_all_after<V>(acc: Seq<(Seq<char>, V)>, k: Seq<char>, v: V, es: Seq<(Seq<char>, V)>)
    requires
        keys_ascending(acc),
    ensures
        insert_all(acc, insert_all(entries_insert(Seq::<(Seq<char>, V)>::empty(), k, v), es))
            == insert_all(entries_insert(acc, k, v), es),
{
    let e0 = Seq::<(Seq<char>, V)>::empty();
    let one = entries_insert(e0, k, v);
    lemma_entries_insert_ascending(e0, k, v, k);
    lemma_entries_insert_ascending(acc, k, v, k);
    let m = insert_all(one, es);
    lemma_insert_all_ascending(one, es);
    lemma_insert_all_ascending(acc, m);
    lemma_insert_all_ascending(entries_insert(acc, k, v), es);
    assert forall|k2: Seq<char>| #[trigger] entries_get(insert_all(acc, m), k2) == entries_get(
        insert_all(entries_insert(acc, k, v), es),
        k2,
    ) by {
        lemma_insert_all_get(acc, m, k2);
        lemma_insert_all_get(entries_insert(acc, k, v), es, k2);
        lemma_insert_all_get(one, es, k2);
        lemma_last_value_is_get(m, k2);
        law_get_after_insert(e0, k, v, k2);
        law_get_after_insert(acc, k, v, k2);
    }
    lemma_entries_ext(insert_all(acc, m), insert_all(entries_insert(acc, k, v), es));
}

/// A reading position or error position moved on by `d`.
pub open spec fn shift_read(r: Result<(Seq<char>, int), (int, Seq<char>)>, d: int) -> Result<
    (Seq<char>, int),
    (int, Seq<char>),
> {
    match r {
        Ok((s, e)) => Ok((s, e + d)),
        Err((q, m)) => Err((q + d, m)),
    }
}

/// An error position moved on by `d`.
pub open spec fn shift_members(r: Result<Seq<(Seq<char>, JsonV)>, (int, Seq<char>)>, d: int) -> Result<
    Seq<(Seq<char>, JsonV)>,
    (int, Seq<char>),
> {
    match r {
        Ok(m) => Ok(m),
        Err((q, msg)) => Err((q + d, msg)),
    }
}

/// Skipping white space, a key or a word after bytes put in front.
pub proof fn lemma_ends_shift(p: Seq<u8>, b: Seq<u8>, i: int)
    requires
        0 <= i <= b.len(),
    ensures
        ws_end(p + b, p.len() + i) == p.len() + ws_end(b, i),
        key_end(p + b, p.len() + i) == p.len() + key_end(b, i),
        word_end(p + b, p.len() + i) == p.len() + word_end(b, i),
    decreases b.len() - i,
{
    if i < b.len() {
        assert((p + b)[p.len() + i] == b[i]);
        lemma_ends_shift(p, b, i + 1);
    }
}

/// A quoted value after bytes put in front.
pub proof fn lemma_quoted_shift(p: Seq<u8>, b: Seq<u8>, i: int)
    requires
        0 <= i,
    ensures
        quoted_from(p + b, p.len() + i) == shift_read(quoted_from(b, i), p.len() as int),
    decreases b.len() - i,
{
    if i < b.len() {
        assert((p + b)[p.len() + i] == b[i]);
        if b[i] == 0x5Cu8 {
            if i + 1 < b.len() {
                assert((p + b)[p.len() + i + 1] == b[i + 1]);
                lemma_quoted_shift(p, b, i + 2);
            }
        } else if b[i] == 0x22u8 {
            lemma_ends(b, i + 1);
            lemma_ends_shift(p, b, i + 1);
        } else {
            lemma_quoted_shift(p, b, i + 1);
        }
    }
}

/// A value after bytes put in front.
pub proof fn lemma_value_shift(p: Seq<u8>, b: Seq<u8>, i: int)
    requires
        0 <= i <= b.len(),
    ensures
        value_at(p + b, p.len() + i) == shift_read(value_at(b, i), p.len() as int),
{
    if i < b.len() {
        assert((p + b)[p.len() + i] == b[i]);
        if b[i] == 0x22u8 {
            lemma_quoted_shift(p, b, i + 1);
        } else {
            lemma_ends_shift(p, b, i);
            lemma_ends(b, i);
            let e = word_end(b, i);
            assert((p + b).subrange(p.len() + i, p.len() + e) =~= b.subrange(i, e));
        }
    }
}

/// Reading members after bytes put in front: the same members, the error
/// positions moved on.
pub proof fn lemma_members_shift(p: Seq<u8>, b: Seq<u8>, j: int, acc: Seq<(Seq<char>, JsonV)>)
    requires
        0 <= j <= b.len(),
    ensures
        members_from(p + b, p.len() + j, acc) == shift_members(members_from(b, j, acc), p.len() as int),
    decreases b.len() - j,
{
    let pb = p + b;
    let d = p.len() as int;
    lemma_ends_shift(p, b, j);
    lemma_ends(b, j);
    let s = ws_end(b, j);
    if s < b.len() {
        lemma_ends_shift(p, b, s);
        lemma_ends(b, s);
        let e = key_end(b, s);
        assert(pb.subrange(d + s, d + e) =~= b.subrange(s, e));
        if e != s && valid_utf8(b.subrange(s, e)) {
            let key = decode_utf8(b.subrange(s, e));
            if e < b.len() {
                assert(pb[d + e] == b[e]);
            }
            if e >= b.len() || b[e] != 0x3Du8 {
                lemma_members_shift(p, b, e, entries_insert(acc, key, JsonV::Bool(true)));
            } else {
                lemma_value_shift(p, b, e + 1);
                lemma_value_at(b, e + 1);
                if let Ok((raw, n)) = value_at(b, e + 1) {
                    lemma_members_shift(p, b, n, entries_insert(acc, key, coerce_view(raw)));
                }
            }
        }
    }
}


/// Reading members into `acc` puts into `acc` the members that reading them
/// into an empty object gives.
pub proof fn lemma_members_acc(b: Seq<u8>, j: int, acc: Seq<(Seq<char>, JsonV)>)
    requires
        keys_ascending(acc),
    ensures
        members_from(b, j, acc) == match members_from(b, j, Seq::<(Seq<char>, JsonV)>::empty()) {
            Ok(m) => Ok::<Seq<(Seq<char>, JsonV)>, (int, Seq<char>)>(insert_all(acc, m)),
            Err(x) => Err(x),
        },
    decreases b.len() - j,
{
    let e0 = Seq::<(Seq<char>, JsonV)>::empty();
    let s = ws_end(b, j);
    if !(j < 0 || j > b.len() || s >= b.len()) {
        lemma_ends(b, j);
        lemma_ends(b, s);
        let e = key_end(b, s);
        if e != s && valid_utf8(b.subrange(s, e)) {
            let key = decode_utf8(b.subrange(s, e));
            let v = if e >= b.len() || b[e] != 0x3Du8 {
                JsonV::Bool(true)
            } else {
                match value_at(b, e + 1) {
                    Ok((raw, n)) => coerce_view(raw),
                    Err(_) => JsonV::Null,
                }
            };
            let next = if e >= b.len() || b[e] != 0x3Du8 {
                e
            } else {
                match value_at(b, e + 1) {
                    Ok((raw, n)) => n,
                    Err(_) => 0,
                }
            };
            if e >= b.len() || b[e] != 0x3Du8 || value_at(b, e + 1) is Ok {
                if !(e >= b.len() || b[e] != 0x3Du8) {
                    lemma_value_at(b, e + 1);
                }
                lemma_entries_insert_ascending(acc, key, v, key);
                lemma_entries_insert_ascending(e0, key, v, key);
                lemma_members_acc(b, next, entries_insert(acc, key, v));
                lemma_members_acc(b, next, entries_insert(e0, key, v));
                if let Ok(m1) = members_from(b, next, e0) {
                    lemma_insert_all_after(acc, key, v, m1);
                }
            }
        }
    } else {
        assert(insert_all(acc, e0) == acc);
    }
}

/// Whether bytes appended after a line leave its last word where it is:
/// nothing, or bytes that start with ASCII white space.
pub open spec fn ends_word(t: Seq<u8>) -> bool {
    t.len() == 0 || is_ascii_ws(t[0])
}

/// Skipping white space, a key or a word in bytes followed by others.
pub proof fn lemma_ends_prefix(a: Seq<u8>, t: Seq<u8>, i: int)
    requires
        ends_word(t),
        0 <= i <= a.len(),
    ensures
        ws_end(a + t, i) == if ws_end(a, i) < a.len() {
            ws_end(a, i)
        } else {
            ws_end(a + t, a.len() as int)
        },
        key_end(a + t, i) == key_end(a, i),
        word_end(a + t, i) == word_end(a, i),
    decreases a.len() - i,
{
    if i < a.len() {
        assert((a + t)[i] == a[i]);
        lemma_ends_prefix(a, t, i + 1);
    } else if t.len() > 0 {
        assert((a + t)[i] == t[0]);
    }
}

/// A quoted value read in bytes followed by others.
pub proof fn lemma_quoted_prefix(a: Seq<u8>, t: Seq<u8>, i: int)
    requires
        ends_word(t),
        0 <= i,
        quoted_from(a, i) is Ok,
    ensures
        quoted_from(a + t, i) == Ok::<(Seq<char>, int), (int, Seq<char>)>(
            (
                quoted_from(a, i)->Ok_0.0,
                if quoted_from(a, i)->Ok_0.1 < a.len() {
                    quoted_from(a, i)->Ok_0.1
                } else {
                    ws_end(a + t, a.len() as int)
                },
            ),
        ),
    decreases a.len() - i,
{
    assert(i < a.len());
    assert((a + t)[i] == a[i]);
    if a[i] == 0x5Cu8 {
        assert((a + t)[i + 1] == a[i + 1]);
        lemma_quoted_prefix(a, t, i + 2);
    } else if a[i] == 0x22u8 {
        lemma_ends_prefix(a, t, i + 1);
    } else {
        lemma_quoted_prefix(a, t, i + 1);
    }
}

/// A value read in bytes followed by others: the same text, and reading goes
/// on from the same place (or, past the end of the first bytes, from where
/// white space after them ends).
pub proof fn lemma_value_prefix(a: Seq<u8>, t: Seq<u8>, i: int)
    requires
        ends_word(t),
        0 <= i <= a.len(),
        value_at(a, i) is Ok,
    ensures
        value_at(a + t, i) matches Ok((raw2, n2)) && raw2 == value_at(a, i)->Ok_0.0 && (
        value_at(a, i)->Ok_0.1 < a.len() ==> n2 == value_at(a, i)->Ok_0.1) && (value_at(a, i)->Ok_0.1
            >= a.len() ==> a.len() <= n2 <= a.len() + t.len() && ws_end(a + t, n2) == ws_end(
            a + t,
            a.len() as int,
        )),
{
    lemma_value_at(a, i);
    assert((a + t)[i] == a[i]);
    if a[i] == 0x22u8 {
        lemma_quoted_prefix(a, t, i + 1);
        lemma_quoted_from(a, i + 1);
        lemma_ends(a + t, a.len() as int);
        lemma_ws_end_stops(a + t, a.len() as int);
    } else {
        lemma_ends_prefix(a, t, i);
        let e = word_end(a, i);
        assert((a + t).subrange(i, e) =~= a.subrange(i, e));
    }
}

/// Reading members in bytes followed by others (nothing, or bytes that start
/// with white space): what the first bytes give, then reading goes on from
/// their end.
pub proof fn lemma_members_prefix(a: Seq<u8>, t: Seq<u8>, i: int, acc: Seq<(Seq<char>, JsonV)>)
    requires
        ends_word(t),
        0 <= i <= a.len(),
        members_from(a, i, acc) is Ok,
    ensures
        members_from(a + t, i, acc) == members_from(
            a + t,
            a.len() as int,
            members_from(a, i, acc)->Ok_0,
        ),
    decreases a.len() - i,
{
    let at = a + t;
    lemma_ends_prefix(a, t, i);
    lemma_ends(a, i);
    let s = ws_end(a, i);
    if s >= a.len() {
        lemma_ends(at, a.len() as int);
        lemma_members_same_start(at, i, a.len() as int, acc);
    } else {
        lemma_ends_prefix(a, t, s);
        lemma_ends(a, s);
        let e = key_end(a, s);
        assert(at.subrange(s, e) =~= a.subrange(s, e));
        let key = decode_utf8(a.subrange(s, e));
        if e < a.len() {
            assert(at[e] == a[e]);
        } else if t.len() > 0 {
            assert(at[e] == t[0]);
        }
        if e >= a.len() || a[e] != 0x3Du8 {
            lemma_members_prefix(a, t, e, entries_insert(acc, key, JsonV::Bool(true)));
        } else {
            lemma_value_at(a, e + 1);
            lemma_value_prefix(a, t, e + 1);
            let (raw, n) = value_at(a, e + 1)->Ok_0;
            let (raw2, n2) = value_at(at, e + 1)->Ok_0;
            let acc2 = entries_insert(acc, key, coerce_view(raw));
            lemma_members_prefix(a, t, n, acc2);
            if n >= a.len() {
                lemma_members_same_start(at, n2, a.len() as int, acc2);
            }
        }
    }
}


/// Reading the line `a`, a space, a key `k`, a space, then the line `b` gives
/// the members of `a`, then `k` as `true`, then the members of `b` put in one
/// after another (a later value of a key replaces an earlier one), when `a`
/// and `b` each read without error and `k` is non-empty with no `=` and no
/// ASCII white space.
pub proof fn law_parse_concat(
    a: Seq<char>,
    k: Seq<char>,
    b: Seq<char>,
    ma: Seq<(Seq<char>, JsonV)>,
    mb: Seq<(Seq<char>, JsonV)>,
)
    requires
        logfmt_members(encode_utf8(a)) == Ok::<Seq<(Seq<char>, JsonV)>, KvfmtErrorV>(ma),
        logfmt_members(encode_utf8(b)) == Ok::<Seq<(Seq<char>, JsonV)>, KvfmtErrorV>(mb),
        k.len() > 0,
        key_safe(k),
    ensures
        logfmt_members(encode_utf8(a + seq![' '] + k + seq![' '] + b)) == Ok::<
            Seq<(Seq<char>, JsonV)>,
            KvfmtErrorV,
        >(insert_all(entries_insert(ma, k, JsonV::Bool(true)), mb)),
{
    let e0 = Seq::<(Seq<char>, JsonV)>::empty();
    let ea = encode_utf8(a);
    let ek = encode_utf8(k);
    let eb = encode_utf8(b);
    lemma_encode_ascii_char(' ');
    lemma_encode_append(a, seq![' ']);
    lemma_encode_append(a + seq![' '], k);
    lemma_encode_append(a + seq![' '] + k, seq![' ']);
    lemma_encode_append(a + seq![' '] + k + seq![' '], b);
    let sp = seq![0x20u8];
    let pre = ea + sp + ek + sp;
    let full = pre + eb;
    assert(encode_utf8(a + seq![' '] + k + seq![' '] + b) == full);
    assert(e0 =~= seq![]);
    assert(members_from(ea, 0, e0) == Ok::<Seq<(Seq<char>, JsonV)>, (int, Seq<char>)>(ma));
    assert(members_from(eb, 0, e0) == Ok::<Seq<(Seq<char>, JsonV)>, (int, Seq<char>)>(mb));
    // The members of `a`.
    let t = sp + ek + sp + eb;
    assert(full =~= ea + t);
    assert(t[0] == 0x20u8);
    lemma_members_prefix(ea, t, 0, e0);
    lemma_members_acc(ea, 0, e0);
    lemma_insert_all_ascending(e0, ma);
    // The bare key.
    let i = ea.len() as int;
    assert(full[i] == 0x20u8);
    lemma_members_same_start(full, i, i + 1, ma);
    lemma_member_text(k, JsonV::Bool(true));
    assert(member_reads_back(k, JsonV::Bool(true)));
    assert(full.subrange(i + 1, i + 1 + ek.len()) =~= ek);
    assert(full[i + 1 + ek.len()] == 0x20u8);
    lemma_member_at(full, i + 1, k, JsonV::Bool(true), ma);
    let acc2 = entries_insert(ma, k, JsonV::Bool(true));
    let q = i + 1 + ek.len();
    lemma_members_same_start(full, q, q + 1, acc2);
    // The members of `b`.
    assert(q + 1 == pre.len());
    lemma_members_shift(pre, eb, 0, acc2);
    lemma_entries_insert_ascending(ma, k, JsonV::Bool(true), k);
    lemma_members_acc(eb, 0, acc2);
}

} // verus!
