//! The JSON value model produced by the tolerant parser, with its
//! mathematical view and the object-map operations the builder relies on.
use crate::text::{chars_of, int_text, push_i64, push_str, string_push};
use vstd::prelude::*;

verus! {

/// A JSON number. Integers are kept as `i64`; any other number is kept as the
/// decimal text it was written with (already checked to be a valid decimal
/// float literal), so that converting it to a binary float is left to callers.
#[derive(Debug, Clone, PartialEq)]
pub enum Number {
    Integer(i64),
    Float(String),
}

/// A JSON value. Objects keep their entries in insertion order; a key occurs
/// at most once (inserting an existing key replaces its value in place).
/// `==` compares object entries in order; [`JsonValue::same_value`] compares
/// them by key.
#[derive(Debug, PartialEq)]
pub enum JsonValue {
    Object(Vec<(String, JsonValue)>),
    Array(Vec<JsonValue>),
    String(String),
    Number(Number),
    Boolean(bool),
    Null,
}

#[derive(Debug, Clone, PartialEq)]
pub enum JsonError {
    DuplicateKey(String),
    UnexpectedChar(char),
    UnexpectedEof,
    EOF,
    InvalidNumber(String),
    InvalidEscape,
    InvalidKey,
    /// a closing bracket with no open container to close, or a value with
    /// no container or key to hold it
    Unbalanced,
    /// text that would outgrow the machine's memory
    TooLong,
}

/// Mathematical value of a [`JsonValue`].
pub enum JVal {
    Object(Seq<(Seq<char>, JVal)>),
    Array(Seq<JVal>),
    Str(Seq<char>),
    Int(i64),
    Float(Seq<char>),
    Bool(bool),
    Null,
}

pub open spec fn view_value(v: JsonValue) -> JVal
    decreases v,
{
    match v {
        JsonValue::Object(es) => JVal::Object(view_entries(es@)),
        JsonValue::Array(a) => JVal::Array(view_values(a@)),
        JsonValue::String(s) => JVal::Str(s@),
        JsonValue::Number(Number::Integer(i)) => JVal::Int(i),
        JsonValue::Number(Number::Float(t)) => JVal::Float(t@),
        JsonValue::Boolean(b) => JVal::Bool(b),
        JsonValue::Null => JVal::Null,
    }
}

pub open spec fn view_values(s: Seq<JsonValue>) -> Seq<JVal>
    decreases s,
{
    if s.len() == 0 {
        Seq::empty()
    } else {
        view_values(s.drop_last()).push(view_value(s.last()))
    }
}

pub open spec fn view_entries(s: Seq<(String, JsonValue)>) -> Seq<(Seq<char>, JVal)>
    decreases s,
{
    if s.len() == 0 {
        Seq::empty()
    } else {
        view_entries(s.drop_last()).push((s.last().0@, view_value(s.last().1)))
    }
}

impl View for JsonValue {
    type V = JVal;

    open spec fn view(&self) -> JVal {
        view_value(*self)
    }
}

/// Position of the first entry with key `k`, or -1.
pub open spec fn key_pos(s: Seq<(Seq<char>, JVal)>, k: Seq<char>) -> int
    decreases s.len(),
{
    if s.len() == 0 {
        -1
    } else if key_pos(s.drop_last(), k) >= 0 {
        key_pos(s.drop_last(), k)
    } else if s.last().0 == k {
        s.len() - 1
    } else {
        -1
    }
}

/// The value stored under `k`, if any.
pub open spec fn obj_get(s: Seq<(Seq<char>, JVal)>, k: Seq<char>) -> Option<JVal> {
    if key_pos(s, k) >= 0 {
        Some(s[key_pos(s, k)].1)
    } else {
        None
    }
}

/// Map insertion over an entry list: replace in place, or append.
pub open spec fn obj_insert(s: Seq<(Seq<char>, JVal)>, k: Seq<char>, v: JVal) -> Seq<(Seq<char>, JVal)> {
    if key_pos(s, k) >= 0 {
        s.update(key_pos(s, k), (k, v))
    } else {
        s.push((k, v))
    }
}

/// Keys occur at most once.
pub open spec fn keys_distinct(s: Seq<(Seq<char>, JVal)>) -> bool {
    forall|i: int, j: int| 0 <= i < j < s.len() ==> s[i].0 != s[j].0
}

pub proof fn lemma_view_values_len(s: Seq<JsonValue>)
    ensures
        view_values(s).len() == s.len(),
        forall|i: int| 0 <= i < s.len() ==> #[trigger] view_values(s)[i] == view_value(s[i]),
    decreases s.len(),
{
    if s.len() > 0 {
        lemma_view_values_len(s.drop_last());
    }
}

/// Replacing one element replaces its view.
pub proof fn lemma_view_values_update(s: Seq<JsonValue>, i: int)
    requires
        0 <= i < s.len(),
    ensures
        forall|x: JsonValue| #[trigger] view_values(s.update(i, x)) == view_values(s).update(i, view_value(x)),
{
    lemma_view_values_len(s);
    assert forall|x: JsonValue| #[trigger] view_values(s.update(i, x)) == view_values(s).update(i, view_value(x)) by {
        lemma_view_values_len(s.update(i, x));
        assert(view_values(s.update(i, x)) =~= view_values(s).update(i, view_value(x)));
    }
}

/// Replacing one entry replaces its view.
pub proof fn lemma_view_entries_update(s: Seq<(String, JsonValue)>, i: int)
    requires
        0 <= i < s.len(),
    ensures
        forall|x: JsonValue| #[trigger] view_entries(s.update(i, (s[i].0, x))) == view_entries(s).update(i, (s[i].0@, view_value(x))),
{
    lemma_view_entries_len(s);
    assert forall|x: JsonValue| #[trigger] view_entries(s.update(i, (s[i].0, x))) == view_entries(s).update(i, (s[i].0@, view_value(x))) by {
        lemma_view_entries_len(s.update(i, (s[i].0, x)));
        assert(view_entries(s.update(i, (s[i].0, x))) =~= view_entries(s).update(i, (s[i].0@, view_value(x))));
    }
}

pub proof fn lemma_view_entries_len(s: Seq<(String, JsonValue)>)
    ensures
        view_entries(s).len() == s.len(),
        forall|i: int|
            0 <= i < s.len() ==> #[trigger] view_entries(s)[i] == (s[i].0@, view_value(s[i].1)),
    decreases s.len(),
{
    if s.len() > 0 {
        lemma_view_entries_len(s.drop_last());
    }
}

pub proof fn lemma_view_values_push(s: Seq<JsonValue>, v: JsonValue)
    ensures
        view_values(s.push(v)) == view_values(s).push(view_value(v)),
{
    assert(s.push(v).drop_last() =~= s);
}

pub proof fn lemma_view_entries_push(s: Seq<(String, JsonValue)>, e: (String, JsonValue))
    ensures
        view_entries(s.push(e)) == view_entries(s).push((e.0@, view_value(e.1))),
{
    assert(s.push(e).drop_last() =~= s);
}

pub proof fn lemma_key_pos(s: Seq<(Seq<char>, JVal)>, k: Seq<char>)
    ensures
        -1 <= key_pos(s, k) < s.len(),
        key_pos(s, k) >= 0 ==> s[key_pos(s, k)].0 == k,
        forall|i: int| 0 <= i < s.len() && (key_pos(s, k) < 0 || i < key_pos(s, k)) ==> #[trigger] s[i].0 != k,
    decreases s.len(),
{
    if s.len() > 0 {
        let d = s.drop_last();
        lemma_key_pos(d, k);
        assert forall|i: int| 0 <= i < s.len() && (key_pos(s, k) < 0 || i < key_pos(s, k)) implies #[trigger] s[i].0 != k by {
            if i < s.len() - 1 {
                assert(d[i] == s[i]);
            }
        }
    }
}

pub proof fn lemma_key_pos_eq(a: Seq<(Seq<char>, JVal)>, b: Seq<(Seq<char>, JVal)>, k: Seq<char>)
    requires
        a.len() == b.len(),
        forall|i: int| 0 <= i < a.len() ==> #[trigger] a[i].0 == b[i].0,
    ensures
        key_pos(a, k) == key_pos(b, k),
    decreases a.len(),
{
    if a.len() > 0 {
        lemma_key_pos_eq(a.drop_last(), b.drop_last(), k);
    }
}

/// Inserting keeps keys distinct.
pub proof fn lemma_insert_distinct(s: Seq<(Seq<char>, JVal)>, k: Seq<char>, v: JVal)
    requires
        keys_distinct(s),
    ensures
        keys_distinct(obj_insert(s, k, v)),
{
    lemma_key_pos(s, k);
}

/// Reading back a key just written gives the written value.
pub proof fn lemma_insert_get(s: Seq<(Seq<char>, JVal)>, k: Seq<char>, v: JVal, k2: Seq<char>)
    requires
        keys_distinct(s),
    ensures
        obj_get(obj_insert(s, k, v), k) == Some(v),
        k2 != k ==> obj_get(obj_insert(s, k, v), k2) == obj_get(s, k2),
{
    lemma_key_pos(s, k);
    lemma_key_pos(s, k2);
    let t = obj_insert(s, k, v);
    lemma_key_pos(t, k);
    lemma_key_pos(t, k2);
    lemma_insert_distinct(s, k, v);
    if key_pos(s, k) < 0 {
        assert(t.drop_last() =~= s);
    }
    if k2 != k {
        if key_pos(s, k) >= 0 {
            assert forall|i: int| 0 <= i < s.len() implies #[trigger] s[i].0 == t[i].0 by {}
            lemma_key_pos_eq(s, t, k2);
        } else {
            assert(t.drop_last() =~= s);
        }
    }
}

/// Deep copy; the copy has the same value.
pub fn clone_value(v: &JsonValue) -> (r: JsonValue)
    ensures
        r@ == v@,
    decreases v,
{
    match v {
        JsonValue::Object(es) => JsonValue::Object(clone_entries(es)),
        JsonValue::Array(a) => JsonValue::Array(clone_values(a)),
        JsonValue::String(s) => JsonValue::String(s.clone()),
        JsonValue::Number(Number::Integer(i)) => JsonValue::Number(Number::Integer(*i)),
        JsonValue::Number(Number::Float(t)) => JsonValue::Number(Number::Float(t.clone())),
        JsonValue::Boolean(b) => JsonValue::Boolean(*b),
        JsonValue::Null => JsonValue::Null,
    }
}

pub fn clone_values(a: &Vec<JsonValue>) -> (r: Vec<JsonValue>)
    ensures
        view_values(r@) == view_values(a@),
        r@.len() == a@.len(),
    decreases a,
{
    let mut r: Vec<JsonValue> = Vec::new();
    let mut i: usize = 0;
    while i < a.len()
        invariant
            i <= a@.len(),
            r@.len() == i,
            view_values(r@) == view_values(a@.take(i as int)),
        decreases a@.len() - i,
    {
        proof {
            assert(decreases_to!(a => a@));
            assert(decreases_to!(a@ => a@[i as int]));
        }
        let c = clone_value(&a[i]);
        proof {
            lemma_view_values_push(r@, c);
            lemma_view_values_push(a@.take(i as int), a@[i as int]);
            assert(a@.take(i as int).push(a@[i as int]) =~= a@.take(i + 1));
        }
        r.push(c);
        i += 1;
    }
    assert(a@.take(i as int) =~= a@);
    r
}

pub fn clone_entries(a: &Vec<(String, JsonValue)>) -> (r: Vec<(String, JsonValue)>)
    ensures
        view_entries(r@) == view_entries(a@),
        r@.len() == a@.len(),
    decreases a,
{
    let mut r: Vec<(String, JsonValue)> = Vec::new();
    let mut i: usize = 0;
    while i < a.len()
        invariant
            i <= a@.len(),
            r@.len() == i,
            view_entries(r@) == view_entries(a@.take(i as int)),
        decreases a@.len() - i,
    {
        proof {
            assert(decreases_to!(a => a@));
            assert(decreases_to!(a@ => a@[i as int]));
            assert(decreases_to!(a@[i as int] => a@[i as int].1));
        }
        let k = a[i].0.clone();
        let c = clone_value(&a[i].1);
        proof {
            lemma_view_entries_push(r@, (k, c));
            lemma_view_entries_push(a@.take(i as int), a@[i as int]);
            assert(a@.take(i as int).push(a@[i as int]) =~= a@.take(i + 1));
        }
        r.push((k, c));
        i += 1;
    }
    assert(a@.take(i as int) =~= a@);
    r
}

impl Clone for JsonValue {
    /// A deep copy with the same value.
    fn clone(&self) -> (r: Self)
        ensures
            r@ == self@,
    {
        clone_value(self)
    }
}

/// Index of the entry with key `key` in an entry list, if any.
pub fn find_key(es: &Vec<(String, JsonValue)>, key: &str) -> (r: Option<usize>)
    ensures
        match r {
            Some(i) => key_pos(view_entries(es@), key@) == i && i < es@.len(),
            None => key_pos(view_entries(es@), key@) == -1,
        },
{
    proof {
        lemma_view_entries_len(es@);
        lemma_key_pos(view_entries(es@), key@);
    }
    let owned = key.to_owned();
    let mut i: usize = 0;
    while i < es.len()
        invariant
            owned@ == key@,
            i <= es@.len(),
            view_entries(es@).len() == es@.len(),
            forall|j: int| 0 <= j < es@.len() ==> #[trigger] view_entries(es@)[j] == (es@[j].0@, view_value(es@[j].1)),
            forall|j: int| 0 <= j < i ==> #[trigger] view_entries(es@)[j].0 != key@,
            -1 <= key_pos(view_entries(es@), key@) < es@.len(),
            key_pos(view_entries(es@), key@) >= 0 ==> view_entries(es@)[key_pos(view_entries(es@), key@)].0 == key@,
            forall|j: int| 0 <= j < es@.len() && (key_pos(view_entries(es@), key@) < 0 || j < key_pos(view_entries(es@), key@)) ==> #[trigger] view_entries(es@)[j].0 != key@,
        decreases es@.len() - i,
    {
        if es[i].0 == owned {
            proof {
                assert(view_entries(es@)[i as int] == (es@[i as int].0@, view_value(es@[i as int].1)));
                assert(view_entries(es@)[i as int].0 == key@);
                let p = key_pos(view_entries(es@), key@);
                if p < 0 || i < p {
                    assert(view_entries(es@)[i as int].0 != key@);
                }
                if 0 <= p < i {
                    assert(view_entries(es@)[p].0 != key@);
                }
            }
            return Some(i);
        }
        proof {
            assert(view_entries(es@)[i as int] == (es@[i as int].0@, view_value(es@[i as int].1)));
        }
        i += 1;
    }
    None
}

/// Map insertion on an entry list (replace in place, or append).
pub fn insert_entry(es: &mut Vec<(String, JsonValue)>, key: String, val: JsonValue)
    ensures
        view_entries(final(es)@) == obj_insert(view_entries(old(es)@), key@, val@),
{
    match find_key(es, key.as_str()) {
        Some(i) => {
            let ghost old_es = es@;
            es.set(i, (key, val));
            proof {
                lemma_view_entries_len(old_es);
                lemma_view_entries_len(es@);
                assert(view_entries(es@) =~= view_entries(old_es).update(i as int, (key@, val@)));
            }
        },
        None => {
            proof {
                lemma_view_entries_push(es@, (key, val));
            }
            es.push((key, val));
        },
    }
}

impl Number {
    pub fn is_i64(&self) -> (r: bool)
        ensures
            r == (self is Integer),
    {
        match self {
            Number::Integer(_) => true,
            _ => false,
        }
    }

    /// The integer value; only defined for integers.
    pub fn as_i64(&self) -> (r: i64)
        requires
            self is Integer,
        ensures
            r == self->Integer_0,
    {
        match self {
            Number::Integer(i) => *i,
            _ => 0,
        }
    }
}

impl JsonValue {
    pub fn as_string(&self) -> (r: Option<&String>)
        ensures
            match *self {
                JsonValue::String(s) => r == Some(&s),
                _ => r is None,
            },
    {
        match self {
            JsonValue::String(s) => Some(s),
            _ => None,
        }
    }

    pub fn as_array(&self) -> (r: Option<&Vec<JsonValue>>)
        ensures
            match *self {
                JsonValue::Array(a) => r == Some(&a),
                _ => r is None,
            },
    {
        match self {
            JsonValue::Array(a) => Some(a),
            _ => None,
        }
    }

    pub fn as_object(&self) -> (r: Option<&Vec<(String, JsonValue)>>)
        ensures
            match *self {
                JsonValue::Object(o) => r == Some(&o),
                _ => r is None,
            },
    {
        match self {
            JsonValue::Object(o) => Some(o),
            _ => None,
        }
    }

    pub fn as_number(&self) -> (r: Option<&Number>)
        ensures
            match *self {
                JsonValue::Number(n) => r == Some(&n),
                _ => r is None,
            },
    {
        match self {
            JsonValue::Number(n) => Some(n),
            _ => None,
        }
    }

    pub fn as_bool(&self) -> (r: Option<bool>)
        ensures
            match *self {
                JsonValue::Boolean(b) => r == Some(b),
                _ => r is None,
            },
    {
        match self {
            JsonValue::Boolean(b) => Some(*b),
            _ => None,
        }
    }

    pub fn is_null(&self) -> (r: bool)
        ensures
            r == (*self is Null),
    {
        match self {
            JsonValue::Null => true,
            _ => false,
        }
    }

    /// Borrow a child by an object key (`&str`) or an array position
    /// (`usize`).
    pub fn get<K: JsonIndex>(&self, key: K) -> (r: Option<&JsonValue>)
        ensures
            match r {
                Some(v) => key.index_spec(self@) == Some(v@),
                None => key.index_spec(self@) is None,
            },
    {
        key.at(self)
    }

    /// Borrow a child by object key.
    pub fn get_key(&self, key: &str) -> (r: Option<&JsonValue>)
        ensures
            match self@ {
                JVal::Object(es) => match obj_get(es, key@) {
                    Some(v) => r is Some && r->0@ == v,
                    None => r is None,
                },
                _ => r is None,
            },
    {
        match self {
            JsonValue::Object(es) => match find_key(es, key) {
                Some(i) => {
                    proof {
                        lemma_view_entries_len(es@);
                    }
                    Some(&es[i].1)
                },
                None => None,
            },
            _ => None,
        }
    }

    /// Borrow a child by array index.
    pub fn get_idx(&self, idx: usize) -> (r: Option<&JsonValue>)
        ensures
            match self@ {
                JVal::Array(a) => if idx < a.len() {
                    r is Some && r->0@ == a[idx as int]
                } else {
                    r is None
                },
                _ => r is None,
            },
    {
        match self {
            JsonValue::Array(a) => {
                proof {
                    lemma_view_values_len(a@);
                }
                if idx < a.len() {
                    Some(&a[idx])
                } else {
                    None
                }
            },
            _ => None,
        }
    }

    /// Borrow a child mutably by object key; what is written through it
    /// replaces that entry's value.
    pub fn get_mut(&mut self, key: &str) -> (r: Option<&mut JsonValue>)
        ensures
            match old(self)@ {
                JVal::Object(es) => if key_pos(es, key@) >= 0 {
                    &&& r matches Some(m)
                    &&& (*m)@ == es[key_pos(es, key@)].1
                    &&& final(self)@ == JVal::Object(obj_insert(es, key@, (*final(m))@))
                } else {
                    r is None && final(self)@ == old(self)@
                },
                _ => r is None && final(self)@ == old(self)@,
            },
    {
        match self {
            JsonValue::Object(es) => match find_key(es, key) {
                Some(i) => {
                    proof {
                        lemma_view_entries_len(es@);
                        lemma_view_entries_update(es@, i as int);
                        lemma_key_pos(view_entries(es@), key@);
                    }
                    let ghost e0 = es@;
                    let slot = &mut es[i];
                    let m = &mut slot.1;
                    proof {
                        assert(view_entries(e0.update(i as int, (e0[i as int].0, *final(m)))) == view_entries(e0).update(
                            i as int,
                            (e0[i as int].0@, view_value(*final(m))),
                        ));
                    }
                    Some(m)
                },
                None => None,
            },
            _ => None,
        }
    }

    /// Borrow a child mutably by array index; what is written through it
    /// replaces that element.
    pub fn get_idx_mut(&mut self, idx: usize) -> (r: Option<&mut JsonValue>)
        ensures
            match old(self)@ {
                JVal::Array(a) => if idx < a.len() {
                    &&& r matches Some(m)
                    &&& (*m)@ == a[idx as int]
                    &&& final(self)@ == JVal::Array(a.update(idx as int, (*final(m))@))
                } else {
                    r is None && final(self)@ == old(self)@
                },
                _ => r is None && final(self)@ == old(self)@,
            },
    {
        match self {
            JsonValue::Array(a) => {
                proof {
                    lemma_view_values_len(a@);
                }
                if idx < a.len() {
                    proof {
                        lemma_view_values_update(a@, idx as int);
                    }
                    let ghost a0 = a@;
                    let e = &mut a[idx];
                    proof {
                        assert(view_values(a0.update(idx as int, *final(e))) == view_values(a0).update(idx as int, view_value(*final(e))));
                    }
                    Some(e)
                } else {
                    None
                }
            },
            _ => None,
        }
    }

    /// Number of entries of an object or elements of an array.
    pub fn len(&self) -> (r: usize)
        ensures
            match self@ {
                JVal::Object(es) => r == es.len(),
                JVal::Array(a) => r == a.len(),
                _ => r == 0,
            },
    {
        match self {
            JsonValue::Object(es) => {
                proof {
                    lemma_view_entries_len(es@);
                }
                es.len()
            },
            JsonValue::Array(a) => {
                proof {
                    lemma_view_values_len(a@);
                }
                a.len()
            },
            _ => 0,
        }
    }
}


// ───────────────────────── display ─────────────────────────

/// A float's text as displayed: given a `.0` when it has neither `.` nor `e`.
pub open spec fn float_text(t: Seq<char>) -> Seq<char> {
    if t.contains('.') || t.contains('e') {
        t
    } else {
        t + ".0"@
    }
}

/// `s` with each `"` preceded by a backslash.
pub open spec fn quote_escape(s: Seq<char>) -> Seq<char>
    decreases s.len(),
{
    if s.len() == 0 {
        Seq::empty()
    } else {
        quote_escape(s.drop_last()) + (if s.last() == '"' {
            seq!['\\', '"']
        } else {
            seq![s.last()]
        })
    }
}

/// The display text of a JSON value.
pub open spec fn json_text(v: JVal) -> Seq<char>
    decreases v,
{
    match v {
        JVal::Object(es) => "{"@ + entries_text(es) + "}"@,
        JVal::Array(vs) => "["@ + values_text(vs) + "]"@,
        JVal::Str(s) => "\""@ + quote_escape(s) + "\""@,
        JVal::Int(i) => int_text(i as int),
        JVal::Float(t) => float_text(t),
        JVal::Bool(b) => if b {
            "true"@
        } else {
            "false"@
        },
        JVal::Null => "null"@,
    }
}

/// `"key": value` for each entry, separated by `, `.
pub open spec fn entries_text(es: Seq<(Seq<char>, JVal)>) -> Seq<char>
    decreases es,
{
    if es.len() == 0 {
        Seq::empty()
    } else {
        let item = "\""@ + es.last().0 + "\": "@ + json_text(es.last().1);
        if es.len() == 1 {
            item
        } else {
            entries_text(es.drop_last()) + ", "@ + item
        }
    }
}

pub open spec fn values_text(vs: Seq<JVal>) -> Seq<char>
    decreases vs,
{
    if vs.len() == 0 {
        Seq::empty()
    } else if vs.len() == 1 {
        json_text(vs[0])
    } else {
        values_text(vs.drop_last()) + ", "@ + json_text(vs.last())
    }
}

fn has_char(s: &Vec<char>, c: char) -> (r: bool)
    ensures
        r == s@.contains(c),
{
    let mut i: usize = 0;
    while i < s.len()
        invariant
            i <= s@.len(),
            forall|k: int| 0 <= k < i ==> s@[k] != c,
        decreases s@.len() - i,
    {
        if s[i] == c {
            assert(s@[i as int] == c);
            return true;
        }
        i += 1;
    }
    false
}

impl Number {
    /// The number's display text.
    pub fn to_string(&self) -> (r: String)
        ensures
            r@ == json_text(JsonValue::Number(*self)@),
    {
        let mut out = String::new();
        match self {
            Number::Integer(i) => push_i64(&mut out, *i),
            Number::Float(t) => {
                push_str(&mut out, t.as_str());
                let cs = chars_of(t.as_str());
                if !has_char(&cs, '.') && !has_char(&cs, 'e') {
                    push_str(&mut out, ".0");
                }
            },
        }
        out
    }
}

fn push_quote_escaped(out: &mut String, s: &str)
    ensures
        final(out)@ == old(out)@ + quote_escape(s@),
{
    let cs = chars_of(s);
    let mut i: usize = 0;
    while i < cs.len()
        invariant
            i <= cs@.len(),
            cs@ == s@,
            out@ == old(out)@ + quote_escape(cs@.take(i as int)),
        decreases cs@.len() - i,
    {
        if cs[i] == '"' {
            string_push(out, '\\');
            string_push(out, '"');
        } else {
            string_push(out, cs[i]);
        }
        proof {
            assert(cs@.take(i + 1).drop_last() =~= cs@.take(i as int));
        }
        i += 1;
        assert(out@ =~= old(out)@ + quote_escape(cs@.take(i as int)));
    }
    assert(cs@.take(i as int) =~= cs@);
}

impl JsonValue {
    /// The display text of the value (keys in entry order).
    pub fn to_string(&self) -> (r: String)
        ensures
            r@ == json_text(self@),
        decreases self,
    {
        let mut out = String::new();
        match self {
            JsonValue::Object(es) => {
                push_str(&mut out, "{");
                let ghost head = out@;
                proof {
                    lemma_view_entries_len(es@);
                    assert(es@.take(0) =~= Seq::<(String, JsonValue)>::empty());
                    assert forall|k: int| 0 <= k < es@.len() implies decreases_to!(*self => es@[k].1) by {
                        assert(decreases_to!(*self => *es));
                        assert(decreases_to!(*es => es@));
                        assert(decreases_to!(es@ => es@[k]));
                        assert(decreases_to!(es@[k] => es@[k].1));
                    }
                }
                let mut i: usize = 0;
                while i < es.len()
                    invariant
                        i <= es@.len(),
                        view_entries(es@).len() == es@.len(),
                        forall|k: int| 0 <= k < es@.len() ==> #[trigger] view_entries(es@)[k] == (es@[k].0@, es@[k].1@),
                        out@ == head + entries_text(view_entries(es@).take(i as int)),
                        forall|k: int| 0 <= k < es@.len() ==> decreases_to!(*self => es@[k].1),
                    decreases es@.len() - i,
                {
                    if i > 0 {
                        push_str(&mut out, ", ");
                    }
                    push_str(&mut out, "\"");
                    push_str(&mut out, es[i].0.as_str());
                    push_str(&mut out, "\": ");
                    let t = es[i].1.to_string();
                    push_str(&mut out, t.as_str());
                    proof {
                        let w = view_entries(es@);
                        assert(w.take(i + 1).drop_last() =~= w.take(i as int));
                        assert(w.take(i + 1).last() == w[i as int]);
                    }
                    i += 1;
                    assert(out@ =~= head + entries_text(view_entries(es@).take(i as int)));
                }
                assert(view_entries(es@).take(i as int) =~= view_entries(es@));
                push_str(&mut out, "}");
            },
            JsonValue::Array(vs) => {
                push_str(&mut out, "[");
                let ghost head = out@;
                proof {
                    lemma_view_values_len(vs@);
                    assert forall|k: int| 0 <= k < vs@.len() implies decreases_to!(*self => vs@[k]) by {
                        assert(decreases_to!(*self => *vs));
                        assert(decreases_to!(*vs => vs@));
                        assert(decreases_to!(vs@ => vs@[k]));
                    }
                }
                let mut i: usize = 0;
                while i < vs.len()
                    invariant
                        i <= vs@.len(),
                        view_values(vs@).len() == vs@.len(),
                        forall|k: int| 0 <= k < vs@.len() ==> #[trigger] view_values(vs@)[k] == vs@[k]@,
                        out@ == head + values_text(view_values(vs@).take(i as int)),
                        forall|k: int| 0 <= k < vs@.len() ==> decreases_to!(*self => vs@[k]),
                    decreases vs@.len() - i,
                {
                    if i > 0 {
                        push_str(&mut out, ", ");
                    }
                    let t = vs[i].to_string();
                    push_str(&mut out, t.as_str());
                    proof {
                        let w = view_values(vs@);
                        assert(w.take(i + 1).drop_last() =~= w.take(i as int));
                        assert(w.take(i + 1).last() == w[i as int]);
                        assert(w.take(i + 1)[0] == w[0]);
                    }
                    i += 1;
                    assert(out@ =~= head + values_text(view_values(vs@).take(i as int)));
                }
                assert(view_values(vs@).take(i as int) =~= view_values(vs@));
                push_str(&mut out, "]");
            },
            JsonValue::String(s) => {
                push_str(&mut out, "\"");
                push_quote_escaped(&mut out, s.as_str());
                push_str(&mut out, "\"");
            },
            JsonValue::Number(n) => {
                let t = n.to_string();
                push_str(&mut out, t.as_str());
            },
            JsonValue::Boolean(b) => {
                if *b {
                    push_str(&mut out, "true");
                } else {
                    push_str(&mut out, "false");
                }
            },
            JsonValue::Null => {
                push_str(&mut out, "null");
            },
        }
        out
    }
}


/// A place in a JSON value: an object key or an array position.
pub trait JsonIndex {
    /// The child this names in `parent`, if any.
    spec fn index_spec(&self, parent: JVal) -> Option<JVal>;

    fn at<'v>(self, parent: &'v JsonValue) -> (r: Option<&'v JsonValue>)
        ensures
            match r {
                Some(v) => self.index_spec(parent@) == Some(v@),
                None => self.index_spec(parent@) is None,
            },
    ;
}

impl<'a> JsonIndex for &'a str {
    open spec fn index_spec(&self, parent: JVal) -> Option<JVal> {
        match parent {
            JVal::Object(es) => obj_get(es, (*self)@),
            _ => None,
        }
    }

    fn at<'v>(self, parent: &'v JsonValue) -> (r: Option<&'v JsonValue>) {
        parent.get_key(self)
    }
}

impl JsonIndex for usize {
    open spec fn index_spec(&self, parent: JVal) -> Option<JVal> {
        match parent {
            JVal::Array(a) => if *self < a.len() {
                Some(a[*self as int])
            } else {
                None
            },
            _ => None,
        }
    }

    fn at<'v>(self, parent: &'v JsonValue) -> (r: Option<&'v JsonValue>) {
        parent.get_idx(self)
    }
}


/// `a` matches `b` with object entries looked up by key rather than by
/// position: objects have as many entries, each key of `a`'s object occurs in
/// `b`'s and the values under it match in turn; arrays match item by item;
/// everything else (numbers by their written text) must be equal.
pub open spec fn covers(a: JVal, b: JVal) -> bool
    decreases a,
{
    match a {
        JVal::Object(x) => match b {
            JVal::Object(y) => x.len() == y.len() && entries_covered(x, y),
            _ => false,
        },
        JVal::Array(x) => match b {
            JVal::Array(y) => x.len() == y.len() && items_covered(x, y),
            _ => false,
        },
        _ => a == b,
    }
}

/// Every entry of `x` has its key in `y`, with a value it covers.
pub open spec fn entries_covered(x: Seq<(Seq<char>, JVal)>, y: Seq<(Seq<char>, JVal)>) -> bool
    decreases x,
{
    if x.len() == 0 {
        true
    } else {
        entries_covered(x.drop_last(), y) && match obj_get(y, x.last().0) {
            Some(w) => covers(x.last().1, w),
            None => false,
        }
    }
}

/// Item `i` of `x` covers item `i` of `y`, for each `i` of `x`.
pub open spec fn items_covered(x: Seq<JVal>, y: Seq<JVal>) -> bool
    decreases x,
{
    if x.len() == 0 {
        true
    } else {
        items_covered(x.drop_last(), y.drop_last()) && covers(x.last(), y.last())
    }
}

/// Equality of JSON values that ignores the order of object entries.
pub open spec fn same_json(a: JVal, b: JVal) -> bool {
    covers(a, b) && covers(b, a)
}

fn covers_value(a: &JsonValue, b: &JsonValue) -> (r: bool)
    ensures
        r == covers(a@, b@),
    decreases a,
{
    match a {
        JsonValue::Object(x) => match b {
            JsonValue::Object(y) => {
                proof {
                    lemma_view_entries_len(x@);
                    lemma_view_entries_len(y@);
                    assert(a@ == JVal::Object(view_entries(x@)));
                    assert(b@ == JVal::Object(view_entries(y@)));
                }
                if x.len() != y.len() {
                    false
                } else {
                    entries_cover(x, y)
                }
            },
            _ => {
                assert(!covers(a@, b@));
                false
            },
        },
        JsonValue::Array(x) => match b {
            JsonValue::Array(y) => {
                proof {
                    lemma_view_values_len(x@);
                    lemma_view_values_len(y@);
                    assert(a@ == JVal::Array(view_values(x@)));
                    assert(b@ == JVal::Array(view_values(y@)));
                }
                if x.len() != y.len() {
                    false
                } else {
                    items_cover(x, y)
                }
            },
            _ => {
                assert(!covers(a@, b@));
                false
            },
        },
        JsonValue::String(s) => match b {
            JsonValue::String(t) => {
                let r = *s == *t;
                assert(r == (s@ == t@));
                r
            },
            _ => {
                assert(!covers(a@, b@));
                false
            },
        },
        JsonValue::Number(Number::Integer(i)) => match b {
            JsonValue::Number(Number::Integer(j)) => *i == *j,
            _ => {
                assert(!covers(a@, b@));
                false
            },
        },
        JsonValue::Number(Number::Float(t)) => match b {
            JsonValue::Number(Number::Float(u)) => *t == *u,
            _ => {
                assert(!covers(a@, b@));
                false
            },
        },
        JsonValue::Boolean(p) => match b {
            JsonValue::Boolean(q) => *p == *q,
            _ => {
                assert(!covers(a@, b@));
                false
            },
        },
        JsonValue::Null => match b {
            JsonValue::Null => true,
            _ => {
                assert(!covers(a@, b@));
                false
            },
        },
    }
}

fn entries_cover(x: &Vec<(String, JsonValue)>, y: &Vec<(String, JsonValue)>) -> (r: bool)
    ensures
        r == entries_covered(view_entries(x@), view_entries(y@)),
    decreases x,
{
    proof {
        lemma_view_entries_len(x@);
        lemma_view_entries_len(y@);
    }
    let ghost vx = view_entries(x@);
    let ghost vy = view_entries(y@);
    let mut i: usize = 0;
    while i < x.len()
        invariant
            i <= x@.len(),
            vx == view_entries(x@),
            vy == view_entries(y@),
            vx.len() == x@.len(),
            vy.len() == y@.len(),
            forall|j: int| 0 <= j < x@.len() ==> #[trigger] vx[j] == (x@[j].0@, view_value(x@[j].1)),
            forall|j: int| 0 <= j < y@.len() ==> #[trigger] vy[j] == (y@[j].0@, view_value(y@[j].1)),
            entries_covered(vx.take(i as int), vy),
        decreases x@.len() - i,
    {
        proof {
            assert(decreases_to!(x => x@));
            assert(decreases_to!(x@ => x@[i as int]));
            assert(decreases_to!(x@[i as int] => x@[i as int].1));
            assert(vx.take(i + 1).drop_last() =~= vx.take(i as int));
            assert(vx.take(i + 1).last() == vx[i as int]);
        }
        match find_key(y, x[i].0.as_str()) {
            Some(j) => {
                proof {
                    assert(obj_get(vy, vx[i as int].0) == Some(vy[j as int].1));
                }
                if !covers_value(&x[i].1, &y[j].1) {
                    proof {
                        assert(vx.take(vx.len() as int) =~= vx);
                        if entries_covered(vx, vy) {
                            lemma_covered_prefix(vx, vy, i as int + 1, vx.len() as int);
                        }
                    }
                    return false;
                }
            },
            None => {
                proof {
                    assert(vx.take(vx.len() as int) =~= vx);
                    if entries_covered(vx, vy) {
                        lemma_covered_prefix(vx, vy, i as int + 1, vx.len() as int);
                    }
                }
                return false;
            },
        }
        i += 1;
    }
    assert(vx.take(i as int) =~= vx);
    true
}

/// Coverage of a longer prefix implies coverage of a shorter one.
proof fn lemma_covered_prefix(x: Seq<(Seq<char>, JVal)>, y: Seq<(Seq<char>, JVal)>, i: int, n: int)
    requires
        0 <= i <= n <= x.len(),
        entries_covered(x.take(n), y),
    ensures
        entries_covered(x.take(i), y),
    decreases n - i,
{
    if i < n {
        assert(x.take(n).drop_last() =~= x.take(n - 1));
        lemma_covered_prefix(x, y, i, n - 1);
    }
}

fn items_cover(x: &Vec<JsonValue>, y: &Vec<JsonValue>) -> (r: bool)
    requires
        x@.len() == y@.len(),
    ensures
        r == items_covered(view_values(x@), view_values(y@)),
    decreases x,
{
    proof {
        lemma_view_values_len(x@);
        lemma_view_values_len(y@);
    }
    let ghost vx = view_values(x@);
    let ghost vy = view_values(y@);
    let mut i: usize = 0;
    while i < x.len()
        invariant
            i <= x@.len(),
            x@.len() == y@.len(),
            vx == view_values(x@),
            vy == view_values(y@),
            vx.len() == x@.len(),
            vy.len() == y@.len(),
            forall|j: int| 0 <= j < x@.len() ==> #[trigger] vx[j] == view_value(x@[j]),
            forall|j: int| 0 <= j < y@.len() ==> #[trigger] vy[j] == view_value(y@[j]),
            items_covered(vx.take(i as int), vy.take(i as int)),
        decreases x@.len() - i,
    {
        proof {
            assert(decreases_to!(x => x@));
            assert(decreases_to!(x@ => x@[i as int]));
            assert(vx.take(i + 1).drop_last() =~= vx.take(i as int));
            assert(vy.take(i + 1).drop_last() =~= vy.take(i as int));
            assert(vx.take(i + 1).last() == vx[i as int]);
            assert(vy.take(i + 1).last() == vy[i as int]);
        }
        if !covers_value(&x[i], &y[i]) {
            proof {
                assert(vx.take(vx.len() as int) =~= vx);
                assert(vy.take(vy.len() as int) =~= vy);
                if items_covered(vx, vy) {
                    lemma_items_prefix(vx, vy, i as int + 1, vx.len() as int);
                }
            }
            return false;
        }
        i += 1;
    }
    assert(vx.take(i as int) =~= vx);
    assert(vy.take(i as int) =~= vy);
    true
}

/// Item coverage of longer prefixes implies that of shorter ones.
proof fn lemma_items_prefix(x: Seq<JVal>, y: Seq<JVal>, i: int, n: int)
    requires
        0 <= i <= n <= x.len(),
        n <= y.len(),
        items_covered(x.take(n), y.take(n)),
    ensures
        items_covered(x.take(i), y.take(i)),
    decreases n - i,
{
    if i < n {
        assert(x.take(n).drop_last() =~= x.take(n - 1));
        assert(y.take(n).drop_last() =~= y.take(n - 1));
        lemma_items_prefix(x, y, i, n - 1);
    }
}

impl JsonValue {
    /// Whether `self` and `other` are the same JSON value when the order of
    /// object entries is not taken into account (the derived `==` compares
    /// entries in order).
    pub fn same_value(&self, other: &JsonValue) -> (r: bool)
        ensures
            r == same_json(self@, other@),
    {
        covers_value(self, other) && covers_value(other, self)
    }
}

}
