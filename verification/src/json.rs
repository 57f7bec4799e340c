//! A JSON value model: what the conversions read and build of JSON data.
//! Objects keep their members ordered by key, as `serde_json::Map` does by
//! default (the order of `str`, byte by byte).

use vstd::prelude::*;
use vstd::utf8::*;
use vstd::string::{StringExecFns, StringSliceAdditionalSpecFns};
use crate::serde_bridge::{float_reads_back, floats_read_back};
use crate::text::{decimal, int_decimal, push_decimal, push_int_decimal};

verus! {

/// The view of a number.
pub enum JsonNumberV {
    PosInt(u64),
    NegInt(i64),
    Float(Seq<char>),
}

/// The view of a JSON value.
pub enum JsonV {
    Null,
    Bool(bool),
    Number(JsonNumberV),
    String(Seq<char>),
    Array(Seq<JsonV>),
    Object(Seq<(Seq<char>, JsonV)>),
}

/// A floating-point JSON number, held as the number itself (which only the
/// JSON library reads) and the text it is written as, which reads back as
/// the same number.
#[derive(Debug, PartialEq)]
pub struct FloatNumber {
    number: serde_json::Number,
    text: String,
}

impl FloatNumber {
    /// The text the number is written as.
    pub closed spec fn view(&self) -> Seq<char> {
        self.text@
    }

    #[verifier::type_invariant]
    closed spec fn text_reads_back(&self) -> bool {
        float_reads_back(self.text@)
    }

    /// The text the number is written as; it reads back as the same number.
    pub fn text(&self) -> (r: &str)
        ensures
            r@ == self.view(),
            float_reads_back(r@),
    {
        proof {
            use_type_invariant(self);
        }
        self.text.as_str()
    }

    /// The number held.
    pub closed spec fn held_number(&self) -> serde_json::Number {
        self.number
    }

    /// The number.
    pub(crate) fn number(&self) -> (r: &serde_json::Number)
        ensures
            *r == self.held_number(),
    {
        &self.number
    }

    /// A number and the text it is written as, a text that reads back as it.
    /// That the text is the number's `Display` is the caller's word: the
    /// number is opaque here.
    pub(crate) fn new(number: serde_json::Number, text: String) -> (r: FloatNumber)
        requires
            float_reads_back(text@),
        ensures
            r@ == text@,
            r.held_number() == number,
    {
        FloatNumber { number, text }
    }
}

/// A JSON number: a non-negative integer, a negative integer, or a finite
/// floating-point number.
#[derive(Debug, PartialEq)]
pub enum JsonNumber {
    PosInt(u64),
    NegInt(i64),
    Float(FloatNumber),
}

impl JsonNumber {
    pub open spec fn view(&self) -> JsonNumberV {
        match self {
            JsonNumber::PosInt(u) => JsonNumberV::PosInt(*u),
            JsonNumber::NegInt(i) => JsonNumberV::NegInt(*i),
            JsonNumber::Float(f) => JsonNumberV::Float(f.view()),
        }
    }
}

/// A JSON value.
#[derive(Debug, PartialEq)]
pub enum JsonValue {
    Null,
    Bool(bool),
    Number(JsonNumber),
    String(String),
    Array(Vec<JsonValue>),
    Object(JsonObject),
}

impl JsonValue {
    pub open spec fn view(&self) -> JsonV
        decreases self,
    {
        match self {
            JsonValue::Null => JsonV::Null,
            JsonValue::Bool(b) => JsonV::Bool(*b),
            JsonValue::Number(n) => JsonV::Number(n.view()),
            JsonValue::String(s) => JsonV::String(s@),
            JsonValue::Array(a) => JsonV::Array(
                Seq::new(
                    a@.len(),
                    |i: int|
                        if 0 <= i < a@.len() {
                            a@[i].view()
                        } else {
                            JsonV::Null
                        },
                ),
            ),
            JsonValue::Object(o) => JsonV::Object(o.view()),
        }
    }
}

/// The members of entries as the contracts see them.
pub open spec fn entries_view(es: Seq<(String, JsonValue)>) -> Seq<(Seq<char>, JsonV)>
    decreases es,
{
    Seq::new(
        es.len(),
        |i: int|
            if 0 <= i < es.len() {
                (es[i].0@, es[i].1.view())
            } else {
                (Seq::empty(), JsonV::Null)
            },
    )
}

/// Byte-wise lexicographic order (the order of `[u8]` and of `str`).
pub open spec fn bytes_lt(a: Seq<u8>, b: Seq<u8>) -> bool
    decreases a.len(),
{
    if a.len() == 0 {
        b.len() > 0
    } else if b.len() == 0 {
        false
    } else if a[0] != b[0] {
        a[0] < b[0]
    } else {
        bytes_lt(a.drop_first(), b.drop_first())
    }
}

/// The order of keys: that of their UTF-8 bytes.
pub open spec fn key_lt(a: Seq<char>, b: Seq<char>) -> bool {
    bytes_lt(encode_utf8(a), encode_utf8(b))
}

/// Entries in strictly ascending key order (so no key twice).
pub open spec fn keys_ascending<V>(es: Seq<(Seq<char>, V)>) -> bool {
    forall|i: int, j: int| 0 <= i < j < es.len() ==> key_lt(#[trigger] es[i].0, #[trigger] es[j].0)
}

/// `es` with `(k, v)` put in: the value of `k` replaced where `k` is a key,
/// else the entry put in before the first greater key.
pub open spec fn entries_insert<V>(es: Seq<(Seq<char>, V)>, k: Seq<char>, v: V) -> Seq<
    (Seq<char>, V),
>
    decreases es.len(),
{
    if es.len() == 0 {
        seq![(k, v)]
    } else if es[0].0 == k {
        seq![(k, v)] + es.drop_first()
    } else if key_lt(es[0].0, k) {
        seq![es[0]] + entries_insert(es.drop_first(), k, v)
    } else {
        seq![(k, v)] + es
    }
}

/// The value of key `k` among the entries, if any.
pub open spec fn entries_get<V>(es: Seq<(Seq<char>, V)>, k: Seq<char>) -> Option<V>
    decreases es.len(),
{
    if es.len() == 0 {
        None
    } else if es[0].0 == k {
        Some(es[0].1)
    } else {
        entries_get(es.drop_first(), k)
    }
}

/// A JSON object: its members in ascending key order, each key once.
#[derive(Debug, PartialEq)]
pub struct JsonObject {
    entries: Vec<(String, JsonValue)>,
}

impl JsonObject {
    /// The members in ascending key order.
    pub closed spec fn view(&self) -> Seq<(Seq<char>, JsonV)>
        decreases self,
    {
        entries_view(self.entries@)
    }

    #[verifier::type_invariant]
    closed spec fn keys_in_order(&self) -> bool {
        &&& keys_ascending(self.view())
        &&& forall|i: int| 0 <= i < self.view().len() ==> floats_read_back(#[trigger] self.view()[i].1)
    }
}

/// No byte string is below itself.
pub proof fn lemma_bytes_lt_irreflexive(a: Seq<u8>)
    ensures
        !bytes_lt(a, a),
    decreases a.len(),
{
    if a.len() > 0 {
        lemma_bytes_lt_irreflexive(a.drop_first());
    }
}

/// The byte order is transitive.
pub proof fn lemma_bytes_lt_transitive(a: Seq<u8>, b: Seq<u8>, c: Seq<u8>)
    requires
        bytes_lt(a, b),
        bytes_lt(b, c),
    ensures
        bytes_lt(a, c),
    decreases a.len(),
{
    if a.len() > 0 && b.len() > 0 && c.len() > 0 && a[0] == b[0] && b[0] == c[0] {
        lemma_bytes_lt_transitive(a.drop_first(), b.drop_first(), c.drop_first());
    }
}

/// Of two different byte strings, one is below the other.
pub proof fn lemma_bytes_lt_total(a: Seq<u8>, b: Seq<u8>)
    ensures
        a == b || bytes_lt(a, b) || bytes_lt(b, a),
    decreases a.len(),
{
    if a.len() > 0 && b.len() > 0 && a[0] == b[0] {
        lemma_bytes_lt_total(a.drop_first(), b.drop_first());
        if a.drop_first() == b.drop_first() {
            assert(a =~= seq![a[0]] + a.drop_first());
            assert(b =~= seq![b[0]] + b.drop_first());
        }
    } else if a.len() == 0 && b.len() == 0 {
        assert(a =~= b);
    }
}

/// The order of keys is a strict total order.
pub proof fn lemma_key_order(a: Seq<char>, b: Seq<char>, c: Seq<char>)
    ensures
        !key_lt(a, a),
        key_lt(a, b) && key_lt(b, c) ==> key_lt(a, c),
        a == b || key_lt(a, b) || key_lt(b, a),
{
    lemma_bytes_lt_irreflexive(encode_utf8(a));
    if key_lt(a, b) && key_lt(b, c) {
        lemma_bytes_lt_transitive(encode_utf8(a), encode_utf8(b), encode_utf8(c));
    }
    lemma_bytes_lt_total(encode_utf8(a), encode_utf8(b));
    encode_utf8_decode_utf8(a);
    encode_utf8_decode_utf8(b);
}

/// Putting an entry in keeps a property that every value has.
pub proof fn lemma_entries_insert_values<V>(es: Seq<(Seq<char>, V)>, k: Seq<char>, v: V, p: spec_fn(V) -> bool)
    requires
        forall|i: int| 0 <= i < es.len() ==> p(#[trigger] es[i].1),
        p(v),
    ensures
        forall|i: int| 0 <= i < entries_insert(es, k, v).len() ==> p(#[trigger] entries_insert(es, k, v)[i].1),
    decreases es.len(),
{
    let r = entries_insert(es, k, v);
    if es.len() > 0 {
        let t = es.drop_first();
        assert forall|i: int| 0 <= i < t.len() implies p(#[trigger] t[i].1) by {
            assert(t[i] == es[i + 1]);
        }
        lemma_entries_insert_values(t, k, v, p);
        assert forall|i: int| 0 <= i < r.len() implies p(#[trigger] r[i].1) by {
            if es[0].0 == k {
                if i > 0 {
                    assert(r[i] == t[i - 1]);
                }
            } else if key_lt(es[0].0, k) {
                if i > 0 {
                    assert(r[i] == entries_insert(t, k, v)[i - 1]);
                }
            } else {
                if i > 0 {
                    assert(r[i] == es[i - 1]);
                }
            }
        }
    }
}

/// Putting an entry into entries in ascending key order keeps them in
/// ascending key order, and every key of the result is `k` or a key of `es`.
pub proof fn lemma_entries_insert_ascending<V>(es: Seq<(Seq<char>, V)>, k: Seq<char>, v: V, low: Seq<char>)
    requires
        keys_ascending(es),
    ensures
        keys_ascending(entries_insert(es, k, v)),
        key_lt(low, k) && (forall|i: int| 0 <= i < es.len() ==> key_lt(low, #[trigger] es[i].0))
            ==> (forall|i: int|
            0 <= i < entries_insert(es, k, v).len() ==> key_lt(
                low,
                #[trigger] entries_insert(es, k, v)[i].0,
            )),
    decreases es.len(),
{
    let r = entries_insert(es, k, v);
    if es.len() == 0 {
    } else if es[0].0 == k {
        assert forall|i: int| 0 <= i < r.len() implies #[trigger] r[i].0 == es[i].0 by {}
    } else if key_lt(es[0].0, k) {
        let t = es.drop_first();
        assert(keys_ascending(t)) by {
            assert forall|i: int, j: int| 0 <= i < j < t.len() implies key_lt(
                #[trigger] t[i].0,
                #[trigger] t[j].0,
            ) by {
                assert(t[i] == es[i + 1] && t[j] == es[j + 1]);
            }
        }
        assert forall|i: int| 0 <= i < t.len() implies key_lt(es[0].0, #[trigger] t[i].0) by {
            assert(t[i] == es[i + 1]);
        }
        lemma_entries_insert_ascending(t, k, v, es[0].0);
        lemma_entries_insert_ascending(t, k, v, low);
        let rt = entries_insert(t, k, v);
        assert(r =~= seq![es[0]] + rt);
        assert forall|i: int, j: int| 0 <= i < j < r.len() implies key_lt(
            #[trigger] r[i].0,
            #[trigger] r[j].0,
        ) by {
            if i == 0 {
                assert(r[j] == rt[j - 1]);
            } else {
                assert(r[i] == rt[i - 1] && r[j] == rt[j - 1]);
            }
        }
        if key_lt(low, k) && (forall|i: int| 0 <= i < es.len() ==> key_lt(low, #[trigger] es[i].0)) {
            assert forall|i: int| 0 <= i < t.len() implies key_lt(low, #[trigger] t[i].0) by {
                assert(t[i] == es[i + 1]);
            }
            assert forall|i: int| 0 <= i < r.len() implies key_lt(low, #[trigger] r[i].0) by {
                if i > 0 {
                    assert(r[i] == rt[i - 1]);
                }
            }
        }
    } else {
        lemma_key_order(k, es[0].0, k);
        assert(key_lt(k, es[0].0));
        assert forall|i: int, j: int| 0 <= i < j < r.len() implies key_lt(
            #[trigger] r[i].0,
            #[trigger] r[j].0,
        ) by {
            if i == 0 {
                assert(r[j] == es[j - 1]);
                if j > 1 {
                    lemma_key_order(k, es[0].0, es[j - 1].0);
                }
            } else {
                assert(r[i] == es[i - 1] && r[j] == es[j - 1]);
            }
        }
    }
}

/// Whether `a` comes before `b` byte by byte.
pub fn bytes_less(a: &[u8], b: &[u8]) -> (r: bool)
    ensures
        r == bytes_lt(a@, b@),
{
    let mut i: usize = 0;
    assert(a@.skip(0) =~= a@ && b@.skip(0) =~= b@);
    while i < a.len() && i < b.len()
        invariant
            i <= a@.len(),
            i <= b@.len(),
            bytes_lt(a@, b@) == bytes_lt(a@.skip(i as int), b@.skip(i as int)),
        decreases a@.len() - i,
    {
        if a[i] != b[i] {
            return a[i] < b[i];
        }
        assert(a@.skip(i as int).drop_first() =~= a@.skip(i + 1));
        assert(b@.skip(i as int).drop_first() =~= b@.skip(i + 1));
        i = i + 1;
    }
    i == a.len() && i < b.len()
}


/// Whether two texts are equal, comparing their bytes.
pub fn same_text(a: &str, b: &str) -> (r: bool)
    ensures
        r == (a@ == b@),
{
    let x = bytes_less(a.as_bytes(), b.as_bytes());
    let y = bytes_less(b.as_bytes(), a.as_bytes());
    proof {
        lemma_key_order(a@, b@, a@);
    }
    !x && !y
}

/// Whether key `a` comes before key `b`.
pub fn key_less(a: &str, b: &str) -> (r: bool)
    ensures
        r == key_lt(a@, b@),
{
    bytes_less(a.as_bytes(), b.as_bytes())
}

impl JsonObject {
    proof fn lemma_view(&self)
        ensures
            self@ == entries_view(self.entries@),
    {
        assert(self@ =~= entries_view(self.entries@));
    }

    /// An object with no members.
    pub fn new() -> (r: JsonObject)
        ensures
            r@ == Seq::<(Seq<char>, JsonV)>::empty(),
    {
        let r = JsonObject { entries: Vec::new() };
        assert(r@ =~= Seq::<(Seq<char>, JsonV)>::empty());
        r
    }

    /// The number of members.
    pub fn len(&self) -> (n: usize)
        ensures
            n == self@.len(),
    {
        self.entries.len()
    }

    /// The members, in ascending key order.
    pub fn entries(&self) -> (r: &Vec<(String, JsonValue)>)
        ensures
            entries_view(r@) == self@,
            keys_ascending(self@),
            forall|i: int| 0 <= i < self@.len() ==> floats_read_back(#[trigger] self@[i].1),
    {
        proof {
            use_type_invariant(self);
            self.lemma_view();
        }
        &self.entries
    }

    /// The value of key `k`, if it is a key.
    pub fn get(&self, k: &str) -> (r: Option<&JsonValue>)
        ensures
            match entries_get(self@, k@) {
                Some(v) => r matches Some(x) && x@ == v,
                None => r is None,
            },
    {
        proof {
            self.lemma_view();
        }
        let ghost es = self@;
        let mut i: usize = 0;
        assert(es.skip(0) =~= es);
        while i < self.entries.len()
            invariant
                es == self@,
                es == entries_view(self.entries@),
                i <= es.len(),
                entries_get(es, k@) == entries_get(es.skip(i as int), k@),
            decreases es.len() - i,
        {
            if same_text(self.entries[i].0.as_str(), k) {
                return Some(&self.entries[i].1);
            }
            assert(es.skip(i as int).drop_first() =~= es.skip(i + 1));
            i = i + 1;
        }
        None
    }

    /// Puts a member in: replaces the value of `k` where `k` is a key, else
    /// adds the member in its place in key order (as `serde_json::Map::insert`).
    pub fn insert(&mut self, k: String, v: JsonValue)
        ensures
            final(self)@ == entries_insert(old(self)@, k@, v@),
    {
        v.floats_read_back();
        proof {
            use_type_invariant(&*self);
            self.lemma_view();
            lemma_entries_insert_ascending(self@, k@, v@, k@);
            lemma_entries_insert_values(self@, k@, v@, |x: JsonV| floats_read_back(x));
        }
        let ghost es0 = self@;
        let ghost target = entries_insert(es0, k@, v@);
        let mut es: Vec<(String, JsonValue)> = Vec::new();
        std::mem::swap(&mut es, &mut self.entries);
        assert(entries_view(es@) == es0);
        let mut i: usize = 0;
        assert(es0.take(0) + es0.skip(0) =~= es0);
        assert(es0.skip(0) =~= es0);
        while i < es.len()
            invariant
                entries_view(es@) == es0,
                es0 == old(self)@,
                keys_ascending(target),
                forall|j: int| 0 <= j < target.len() ==> floats_read_back(#[trigger] target[j].1),
                target == entries_insert(es0, k@, v@),
                i <= es0.len(),
                target == es0.take(i as int) + entries_insert(es0.skip(i as int), k@, v@),
                self.entries@.len() == 0,
            decreases es0.len() - i,
        {
            let ghost rest = es0.skip(i as int);
            if same_text(es[i].0.as_str(), k.as_str()) {
                let ghost vv = v@;
                assert(rest[0] == es0[i as int]);
                assert(rest[0].0 == k@);
                assert(entries_insert(rest, k@, vv) == seq![(k@, vv)] + rest.drop_first());
                es.set(i, (k, v));
                assert(entries_view(es@) =~= es0.take(i as int) + (seq![(rest[0].0, vv)] + rest.drop_first()));
                assert(entries_view(es@) =~= target);
                self.entries = es;
                proof {
                    self.lemma_view();
                }
                return;
            } else if key_less(es[i].0.as_str(), k.as_str()) {
                assert(rest.drop_first() =~= es0.skip(i + 1));
                assert(es0.take(i + 1) =~= es0.take(i as int) + seq![rest[0]]);
                i = i + 1;
            } else {
                let ghost kk = k@;
                let ghost vv = v@;
                assert(rest[0] == es0[i as int]);
                assert(rest[0].0 != kk && !key_lt(rest[0].0, kk));
                assert(entries_insert(rest, kk, vv) == seq![(kk, vv)] + rest);
                es.insert(i, (k, v));
                assert(entries_view(es@) =~= es0.take(i as int) + (seq![(kk, vv)] + rest));
                assert(entries_view(es@) =~= target);
                self.entries = es;
                proof {
                    self.lemma_view();
                }
                return;
            }
        }
        let ghost kk = k@;
        let ghost vv = v@;
        es.push((k, v));
        assert(es0.skip(i as int) =~= Seq::<(Seq<char>, JsonV)>::empty());
        assert(es0.take(i as int) =~= es0);
        assert(entries_view(es@) =~= es0 + seq![(kk, vv)]);
        self.entries = es;
        proof {
            self.lemma_view();
        }
    }
}

/// Calls `serde_json::Number::clone`. Nothing is stated of the copy: the
/// number is opaque here, and only its text (kept beside it) is read.
#[verifier::external_body]
pub(crate) fn clone_number(n: &serde_json::Number) -> serde_json::Number {
    n.clone()
}

impl FloatNumber {
    /// A copy of the number.
    pub fn duplicate(&self) -> (r: FloatNumber)
        ensures
            r@ == self@,
    {
        proof {
            use_type_invariant(self);
        }
        FloatNumber { number: clone_number(&self.number), text: self.text.clone() }
    }
}

impl JsonNumber {
    /// A copy of the number.
    pub fn duplicate(&self) -> (r: JsonNumber)
        ensures
            r@ == self@,
    {
        match self {
            JsonNumber::PosInt(u) => JsonNumber::PosInt(*u),
            JsonNumber::NegInt(i) => JsonNumber::NegInt(*i),
            JsonNumber::Float(f) => JsonNumber::Float(f.duplicate()),
        }
    }
}

impl JsonValue {
    /// A copy of the value, all the way down.
    pub fn duplicate(&self) -> (r: JsonValue)
        ensures
            r@ == self@,
        decreases self,
    {
        match self {
            JsonValue::Null => JsonValue::Null,
            JsonValue::Bool(b) => JsonValue::Bool(*b),
            JsonValue::Number(n) => JsonValue::Number(n.duplicate()),
            JsonValue::String(s) => JsonValue::String(s.clone()),
            JsonValue::Array(a) => {
                let mut out: Vec<JsonValue> = Vec::new();
                let n = a.len();
                for i in 0..n
                    invariant
                        *self == JsonValue::Array(*a),
                        n == a@.len(),
                        out@.len() == i,
                        forall|j: int| 0 <= j < i ==> (#[trigger] out@[j])@ == a@[j]@,
                {
                    assert(self->Array_0 == *a);
                    assert(decreases_to!(*self => self->Array_0));
                    assert(decreases_to!(self->Array_0 => (self->Array_0)@));
                    assert(decreases_to!(a@ => a@[i as int]));
                    assert(decreases_to!(*self => a@[i as int]));
                    out.push(a[i].duplicate());
                }
                let ghost s2 = Seq::new(
                    a@.len(),
                    |j: int|
                        if 0 <= j < a@.len() {
                            a@[j].view()
                        } else {
                            JsonV::Null
                        },
                );
                let r = JsonValue::Array(out);
                assert(r@->Array_0 =~= s2);
                assert(self@->Array_0 =~= s2);
                r
            },
            JsonValue::Object(o) => JsonValue::Object(o.duplicate()),
        }
    }
}

impl JsonValue {
    /// Brings out, from the invariants of the floating-point numbers and the
    /// objects in the value, that every floating-point number in it has a
    /// text that reads back as itself. It reads the value and changes nothing.
    pub fn floats_read_back(&self)
        ensures
            floats_read_back(self@),
        decreases self,
    {
        match self {
            JsonValue::Number(JsonNumber::Float(f)) => {
                proof {
                    use_type_invariant(f);
                }
            },
            JsonValue::Array(a) => {
                let n = a.len();
                for i in 0..n
                    invariant
                        *self == JsonValue::Array(*a),
                        n == a@.len(),
                        forall|j: int| 0 <= j < i ==> floats_read_back(#[trigger] a@[j]@),
                {
                    assert(self->Array_0 == *a);
                    assert(decreases_to!(*self => self->Array_0));
                    assert(decreases_to!(self->Array_0 => (self->Array_0)@));
                    assert(decreases_to!(a@ => a@[i as int]));
                    assert(decreases_to!(*self => a@[i as int]));
                    a[i].floats_read_back();
                }
                assert forall|j: int| 0 <= j < self@->Array_0.len() implies floats_read_back(
                    #[trigger] self@->Array_0[j],
                ) by {
                    assert(self@->Array_0[j] == a@[j]@);
                }
            },
            JsonValue::Object(o) => {
                proof {
                    use_type_invariant(o);
                }
            },
            _ => {},
        }
    }
}

impl JsonObject {
    /// A copy of the object, all the way down.
    pub fn duplicate(&self) -> (r: JsonObject)
        ensures
            r@ == self@,
        decreases self,
    {
        proof {
            use_type_invariant(self);
        }
        let mut es: Vec<(String, JsonValue)> = Vec::new();
        let n = self.entries.len();
        for i in 0..n
            invariant
                n == self.entries@.len(),
                es@.len() == i,
                forall|j: int| 0 <= j < i ==> (#[trigger] entries_view(es@)[j]) == entries_view(
                    self.entries@,
                )[j],
        {
            assert(decreases_to!(self => self.entries@[i as int].1));
            let k = self.entries[i].0.clone();
            let v = self.entries[i].1.duplicate();
            let ghost before = es@;
            es.push((k, v));
            assert forall|j: int| 0 <= j < i + 1 implies (#[trigger] entries_view(es@)[j])
                == entries_view(self.entries@)[j] by {
                if j < i {
                    assert(es@[j] == before[j]);
                    assert(entries_view(before)[j] == entries_view(self.entries@)[j]);
                }
            }
        }
        assert(entries_view(es@) =~= entries_view(self.entries@));
        JsonObject { entries: es }
    }
}

/// The text a number is written as (`serde_json::Number`'s `Display`):
/// the decimal numeral of an integer, the kept text of a floating-point number.
pub open spec fn number_text(n: JsonNumberV) -> Seq<char> {
    match n {
        JsonNumberV::PosInt(u) => decimal(u as nat),
        JsonNumberV::NegInt(i) => int_decimal(i as int),
        JsonNumberV::Float(t) => t,
    }
}

/// Appends the text a number is written as.
pub fn push_number(out: &mut String, n: &JsonNumber)
    ensures
        final(out)@ == old(out)@ + number_text(n@),
{
    match n {
        JsonNumber::PosInt(u) => push_decimal(out, *u),
        JsonNumber::NegInt(i) => push_int_decimal(out, *i),
        JsonNumber::Float(f) => out.append(f.text()),
    }
}

} // verus!
