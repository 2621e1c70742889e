//! Definitions of a WAIL program (objects, templates, calls) and the prompt
//! renderer: placeholders, `{{path}}` lookups and `{{#each}}` loops.
use crate::json_types::{
    clone_value, insert_entry, key_pos, lemma_key_pos, lemma_view_entries_len, lemma_view_values_len, obj_get,
    obj_insert, view_entries, view_values, json_text, JVal, JsonValue,
};
use crate::tag_finder::{find_from, lemma_find_from};
use crate::template_parser::{
    find_pat, occurs_at, template_spec, lemma_segs_view_push, parse_template, seg_view, segs_view, trim_chars, trim_spec, TSeg, TemplateSegment,
};
use crate::text::{chars_of, find_ws, int_text, is_white_space, push_i64, push_str, string_from_chars, string_push};
use vstd::prelude::*;
use vstd::slice::slice_subrange;
use vstd::string::StringExecFns;

pub use crate::types::{WAILAnnotation, WAILField};
use crate::types::{schema_spec, type_data_of};

verus! {

/// A value passed to a template.
#[derive(Debug, PartialEq)]
pub enum TemplateArgument {
    String(String),
    Number(i64),
    /// a float, by its decimal text
    Float(String),
    /// a reference to a type such as `String` or `Number`
    TypeRef(String),
    TemplateArgRef(String),
    ObjectRef(String),
    Array(Vec<TemplateArgument>),
    /// named arguments in order, without repeats
    Object(Vec<(String, TemplateArgument)>),
}

/// Mathematical value of a [`TemplateArgument`].
pub enum TArg {
    String(Seq<char>),
    Number(i64),
    Float(Seq<char>),
    TypeRef(Seq<char>),
    TemplateArgRef(Seq<char>),
    ObjectRef(Seq<char>),
    Array(Seq<TArg>),
    Object(Seq<(Seq<char>, TArg)>),
}

pub open spec fn targ_view(a: TemplateArgument) -> TArg
    decreases a,
{
    match a {
        TemplateArgument::String(s) => TArg::String(s@),
        TemplateArgument::Number(n) => TArg::Number(n),
        TemplateArgument::Float(s) => TArg::Float(s@),
        TemplateArgument::TypeRef(s) => TArg::TypeRef(s@),
        TemplateArgument::TemplateArgRef(s) => TArg::TemplateArgRef(s@),
        TemplateArgument::ObjectRef(s) => TArg::ObjectRef(s@),
        TemplateArgument::Array(v) => TArg::Array(targs_view(v@)),
        TemplateArgument::Object(es) => TArg::Object(tentries_view(es@)),
    }
}

pub open spec fn targs_view(s: Seq<TemplateArgument>) -> Seq<TArg>
    decreases s,
{
    if s.len() == 0 {
        Seq::empty()
    } else {
        targs_view(s.drop_last()).push(targ_view(s.last()))
    }
}

pub open spec fn tentries_view(s: Seq<(String, TemplateArgument)>) -> Seq<(Seq<char>, TArg)>
    decreases s,
{
    if s.len() == 0 {
        Seq::empty()
    } else {
        tentries_view(s.drop_last()).push((s.last().0@, targ_view(s.last().1)))
    }
}

impl View for TemplateArgument {
    type V = TArg;

    open spec fn view(&self) -> TArg {
        targ_view(*self)
    }
}

/// A copy of a template argument.
pub fn clone_targ(a: &TemplateArgument) -> (r: TemplateArgument)
    ensures
        targ_view(r) == targ_view(*a),
    decreases a, 0nat,
{
    match a {
        TemplateArgument::String(s) => TemplateArgument::String(s.clone()),
        TemplateArgument::Number(n) => TemplateArgument::Number(*n),
        TemplateArgument::Float(s) => TemplateArgument::Float(s.clone()),
        TemplateArgument::TypeRef(s) => TemplateArgument::TypeRef(s.clone()),
        TemplateArgument::TemplateArgRef(s) => TemplateArgument::TemplateArgRef(s.clone()),
        TemplateArgument::ObjectRef(s) => TemplateArgument::ObjectRef(s.clone()),
        TemplateArgument::Array(v) => TemplateArgument::Array(clone_targs(v)),
        TemplateArgument::Object(es) => TemplateArgument::Object(clone_tentries(es)),
    }
}

/// A copy of a list of template arguments.
pub fn clone_targs(v: &Vec<TemplateArgument>) -> (r: Vec<TemplateArgument>)
    ensures
        targs_view(r@) == targs_view(v@),
    decreases v, 1nat,
{
    let mut out: Vec<TemplateArgument> = Vec::new();
    let mut i: usize = 0;
    while i < v.len()
        invariant
            i <= v@.len(),
            targs_view(out@) == targs_view(v@.take(i as int)),
        decreases v@.len() - i,
    {
        proof {
            assert(decreases_to!(v => v@[i as int]));
        }
        let x = clone_targ(&v[i]);
        let ghost o0 = out@;
        out.push(x);
        proof {
            assert(out@.drop_last() =~= o0);
            assert(v@.take(i + 1).drop_last() =~= v@.take(i as int));
        }
        i += 1;
    }
    assert(v@.take(v@.len() as int) =~= v@);
    out
}

/// A copy of named template arguments.
pub fn clone_tentries(v: &Vec<(String, TemplateArgument)>) -> (r: Vec<(String, TemplateArgument)>)
    ensures
        tentries_view(r@) == tentries_view(v@),
    decreases v, 1nat,
{
    let mut out: Vec<(String, TemplateArgument)> = Vec::new();
    let mut i: usize = 0;
    while i < v.len()
        invariant
            i <= v@.len(),
            tentries_view(out@) == tentries_view(v@.take(i as int)),
        decreases v@.len() - i,
    {
        proof {
            assert(decreases_to!(v => v@[i as int].1));
        }
        let x = (v[i].0.clone(), clone_targ(&v[i].1));
        let ghost o0 = out@;
        out.push(x);
        proof {
            assert(out@.drop_last() =~= o0);
            assert(v@.take(i + 1).drop_last() =~= v@.take(i as int));
        }
        i += 1;
    }
    assert(v@.take(v@.len() as int) =~= v@);
    out
}

pub proof fn lemma_targs_view(s: Seq<TemplateArgument>)
    ensures
        targs_view(s).len() == s.len(),
        forall|i: int| 0 <= i < s.len() ==> #[trigger] targs_view(s)[i] == targ_view(s[i]),
    decreases s.len(),
{
    if s.len() > 0 {
        lemma_targs_view(s.drop_last());
    }
}

pub proof fn lemma_tentries_view(s: Seq<(String, TemplateArgument)>)
    ensures
        tentries_view(s).len() == s.len(),
        forall|i: int| 0 <= i < s.len() ==> #[trigger] tentries_view(s)[i] == (s[i].0@, targ_view(s[i].1)),
    decreases s.len(),
{
    if s.len() > 0 {
        lemma_tentries_view(s.drop_last());
    }
}

/// A call of a template with named arguments.
#[derive(Debug, PartialEq)]
pub struct WAILTemplateCall {
    pub template_name: String,
    pub arguments: Vec<(String, TemplateArgument)>,
}

#[derive(Debug)]
pub struct WAILObjectDef {
    pub name: String,
    pub fields: Vec<WAILField>,
}

/// `let binding = Type { field: value, … }`.
#[derive(Debug)]
pub struct WAILObjectInstantiation {
    pub binding_name: String,
    pub object_type: String,
    pub fields: Vec<(String, TemplateArgument)>,
}

/// `template Name(inputs) -> output { prompt: """…""" }`.
#[derive(Debug, PartialEq)]
pub struct WAILTemplateDef {
    pub name: String,
    pub inputs: Vec<WAILField>,
    pub output: WAILField,
    pub prompt_template: String,
    pub annotations: Vec<WAILAnnotation>,
}

// ───────────────────────── argument text ─────────────────────────

/// How an argument reads when written into a prompt.
pub open spec fn arg_text(a: TArg) -> Seq<char>
    decreases a,
{
    match a {
        TArg::String(s) => s,
        TArg::Number(n) => int_text(n as int),
        TArg::Float(s) => s,
        TArg::TypeRef(s) => s,
        TArg::TemplateArgRef(s) => "$"@ + s,
        TArg::ObjectRef(s) => s,
        TArg::Object(es) => "{"@ + kv_join(es) + "}"@,
        TArg::Array(items) => "["@ + args_join(items) + "]"@,
    }
}

/// The texts of the arguments, separated by `, `.
pub open spec fn args_join(s: Seq<TArg>) -> Seq<char>
    decreases s,
{
    if s.len() == 0 {
        Seq::empty()
    } else if s.len() == 1 {
        arg_text(s[0])
    } else {
        args_join(s.drop_last()) + ", "@ + arg_text(s.last())
    }
}

/// `key: text` for each named argument, separated by `, `.
pub open spec fn kv_join(s: Seq<(Seq<char>, TArg)>) -> Seq<char>
    decreases s,
{
    if s.len() == 0 {
        Seq::empty()
    } else {
        let item = s.last().0 + ": "@ + arg_text(s.last().1);
        if s.len() == 1 {
            item
        } else {
            kv_join(s.drop_last()) + ", "@ + item
        }
    }
}

fn push_args_join(out: &mut String, items: &Vec<TemplateArgument>, Ghost(outer): Ghost<TemplateArgument>)
    requires
        forall|k: int| 0 <= k < items@.len() ==> decreases_to!(outer => items@[k]),
    ensures
        final(out)@ == old(out)@ + args_join(targs_view(items@)),
    decreases outer, 0int,
{
    proof {
        lemma_targs_view(items@);
    }
    let ghost w = targs_view(items@);
    let mut i: usize = 0;
    while i < items.len()
        invariant
            i <= items@.len(),
            w == targs_view(items@),
            w.len() == items@.len(),
            forall|k: int| 0 <= k < items@.len() ==> #[trigger] w[k] == targ_view(items@[k]),
            forall|k: int| 0 <= k < items@.len() ==> decreases_to!(outer => items@[k]),
            out@ == old(out)@ + args_join(w.take(i as int)),
        decreases items@.len() - i,
    {
        if i > 0 {
            push_str(out, ", ");
        }
        let t = items[i].to_string_inner(Ghost(items@[i as int]));
        push_str(out, t.as_str());
        proof {
            assert(w.take(i + 1).drop_last() =~= w.take(i as int));
            assert(w.take(i + 1).last() == w[i as int]);
            assert(w.take(i + 1)[0] == w[0]);
        }
        i += 1;
        assert(out@ =~= old(out)@ + args_join(w.take(i as int)));
    }
    assert(w.take(i as int) =~= w);
}

fn push_kv_join(out: &mut String, es: &Vec<(String, TemplateArgument)>, Ghost(outer): Ghost<TemplateArgument>)
    requires
        forall|k: int| 0 <= k < es@.len() ==> decreases_to!(outer => es@[k].1),
    ensures
        final(out)@ == old(out)@ + kv_join(tentries_view(es@)),
    decreases outer, 0int,
{
    proof {
        lemma_tentries_view(es@);
    }
    let ghost w = tentries_view(es@);
    let mut i: usize = 0;
    while i < es.len()
        invariant
            i <= es@.len(),
            w == tentries_view(es@),
            w.len() == es@.len(),
            forall|k: int| 0 <= k < es@.len() ==> #[trigger] w[k] == (es@[k].0@, targ_view(es@[k].1)),
            forall|k: int| 0 <= k < es@.len() ==> decreases_to!(outer => es@[k].1),
            out@ == old(out)@ + kv_join(w.take(i as int)),
        decreases es@.len() - i,
    {
        if i > 0 {
            push_str(out, ", ");
        }
        push_str(out, es[i].0.as_str());
        push_str(out, ": ");
        let t = es[i].1.to_string_inner(Ghost(es@[i as int].1));
        push_str(out, t.as_str());
        proof {
            assert(w.take(i + 1).drop_last() =~= w.take(i as int));
            assert(w.take(i + 1).last() == w[i as int]);
        }
        i += 1;
        assert(out@ =~= old(out)@ + kv_join(w.take(i as int)));
    }
    assert(w.take(i as int) =~= w);
}

impl TemplateArgument {
    /// How the argument reads when written into a prompt.
    pub fn to_string(&self) -> (r: String)
        ensures
            r@ == arg_text(self@),
    {
        self.to_string_inner(Ghost(*self))
    }

    fn to_string_inner(&self, Ghost(outer): Ghost<TemplateArgument>) -> (r: String)
        requires
            outer == *self || decreases_to!(outer => *self),
        ensures
            r@ == arg_text(self@),
        decreases outer, 1int,
    {
        let mut out = String::new();
        match self {
            TemplateArgument::String(s) => push_str(&mut out, s.as_str()),
            TemplateArgument::Number(n) => push_i64(&mut out, *n),
            TemplateArgument::Float(s) => push_str(&mut out, s.as_str()),
            TemplateArgument::TypeRef(s) => push_str(&mut out, s.as_str()),
            TemplateArgument::TemplateArgRef(s) => {
                push_str(&mut out, "$");
                push_str(&mut out, s.as_str());
            },
            TemplateArgument::ObjectRef(s) => push_str(&mut out, s.as_str()),
            TemplateArgument::Object(es) => {
                push_str(&mut out, "{");
                proof {
                    assert forall|k: int| 0 <= k < es@.len() implies decreases_to!(*self => es@[k].1) by {
                        assert(decreases_to!(*self => *es));
                        assert(decreases_to!(*es => es@));
                        assert(decreases_to!(es@ => es@[k]));
                        assert(decreases_to!(es@[k] => es@[k].1));
                    }
                }
                push_kv_join(&mut out, es, Ghost(*self));
                push_str(&mut out, "}");
            },
            TemplateArgument::Array(items) => {
                push_str(&mut out, "[");
                proof {
                    assert forall|k: int| 0 <= k < items@.len() implies decreases_to!(*self => items@[k]) by {
                        assert(decreases_to!(*self => *items));
                        assert(decreases_to!(*items => items@));
                        assert(decreases_to!(items@ => items@[k]));
                    }
                }
                push_args_join(&mut out, items, Ghost(*self));
                push_str(&mut out, "]");
            },
        }
        out
    }
}


// ───────────────────────── dotted paths ─────────────────────────

pub open spec fn is_digit(c: char) -> bool {
    '0' <= c <= '9'
}

/// The value of a string of decimal digits.
pub open spec fn digits_value(d: Seq<char>) -> nat
    decreases d.len(),
{
    if d.len() == 0 {
        0
    } else {
        digits_value(d.drop_last()) * 10 + ((d.last() as u32) - 48) as nat
    }
}

/// A string of decimal digits whose value fits in `usize`, as that value.
pub open spec fn digits_usize(d: Seq<char>) -> Option<nat> {
    if d.len() == 0 || exists|i: int| 0 <= i < d.len() && !is_digit(#[trigger] d[i]) {
        None
    } else if digits_value(d) > usize::MAX {
        None
    } else {
        Some(digits_value(d))
    }
}

/// `str::parse::<usize>`: an optional `+`, then one or more decimal digits,
/// whose value fits in `usize`.
pub open spec fn parse_usize_spec(s: Seq<char>) -> Option<nat> {
    digits_usize(
        if s.len() > 0 && s[0] == '+' {
            s.drop_first()
        } else {
            s
        },
    )
}

pub proof fn lemma_digits_mono_pub(d: Seq<char>, k: int)
    requires
        0 <= k <= d.len(),
        forall|i: int| 0 <= i < d.len() ==> is_digit(#[trigger] d[i]),
    ensures
        digits_value(d.take(k)) <= digits_value(d),
{
    lemma_digits_mono(d, k);
}

proof fn lemma_digits_mono(d: Seq<char>, k: int)
    requires
        0 <= k <= d.len(),
        forall|i: int| 0 <= i < d.len() ==> is_digit(#[trigger] d[i]),
    ensures
        digits_value(d.take(k)) <= digits_value(d),
    decreases d.len() - k,
{
    if k < d.len() {
        lemma_digits_mono(d, k + 1);
        assert(d.take(k + 1).drop_last() =~= d.take(k));
    } else {
        assert(d.take(k) =~= d);
    }
}

/// `str::parse::<usize>` on characters.
pub fn parse_usize(s: &[char]) -> (r: Option<usize>)
    ensures
        match r {
            Some(v) => parse_usize_spec(s@) == Some(v as nat),
            None => parse_usize_spec(s@) is None,
        },
{
    let start: usize = if s.len() > 0 && s[0] == '+' {
        1
    } else {
        0
    };
    let d = slice_subrange(s, start, s.len());
    let ghost dd = if s@.len() > 0 && s@[0] == '+' {
        s@.drop_first()
    } else {
        s@
    };
    assert(d@ =~= dd);
    if d.len() == 0 {
        return None;
    }
    let mut v: usize = 0;
    let mut i: usize = 0;
    while i < d.len()
        invariant
            i <= d@.len(),
            d@ == dd,
            parse_usize_spec(s@) == digits_usize(dd),
            forall|k: int| 0 <= k < i ==> is_digit(#[trigger] d@[k]),
            v as nat == digits_value(d@.take(i as int)),
        decreases d@.len() - i,
    {
        let c = d[i];
        if !('0' <= c && c <= '9') {
            assert(!is_digit(dd[i as int]));
            assert(digits_usize(dd) is None);
            return None;
        }
        let digit: usize = ((c as u32) - 48) as usize;
        proof {
            assert(d@.take(i + 1).drop_last() =~= d@.take(i as int));
            assert(d@.take(i + 1).last() == c);
        }
        match v.checked_mul(10) {
            Some(m) => match m.checked_add(digit) {
                Some(n) => {
                    v = n;
                },
                None => {
                    proof {
                        assert(is_digit(d@[i as int]));
                        lemma_rest_digits(dd, i as int);
                    }
                    return None;
                },
            },
            None => {
                proof {
                    assert(is_digit(d@[i as int]));
                    lemma_rest_digits(dd, i as int);
                }
                return None;
            },
        }
        i += 1;
    }
    assert(d@.take(i as int) =~= d@);
    Some(v)
}

/// Once the value of a prefix of digits overflows `usize`, so does the value
/// of the whole string, unless it has a non-digit.
proof fn lemma_rest_digits(d: Seq<char>, i: int)
    requires
        0 <= i < d.len(),
        forall|k: int| 0 <= k <= i ==> is_digit(#[trigger] d[k]),
        digits_value(d.take(i + 1)) > usize::MAX,
    ensures
        digits_usize(d) is None,
{
    if forall|k: int| 0 <= k < d.len() ==> is_digit(#[trigger] d[k]) {
        lemma_digits_mono(d, i + 1);
    }
}

/// The non-empty trimmed pieces of `s` between dots.
pub open spec fn path_parts(s: Seq<char>) -> Seq<Seq<char>>
    decreases s.len(),
{
    let k = find_from(s, '.', 0);
    proof {
        lemma_find_from(s, '.', 0);
    }
    let piece = trim_spec(s.take(k));
    let head: Seq<Seq<char>> = if piece.len() > 0 {
        seq![piece]
    } else {
        Seq::empty()
    };
    if k < s.len() {
        head + path_parts(s.skip(k + 1))
    } else {
        head
    }
}

/// Following the path parts from `cur`: an object is entered by key, an
/// array by a part that parses as an index.
pub open spec fn follow(cur: Option<JVal>, parts: Seq<Seq<char>>) -> Option<JVal>
    decreases parts.len(),
{
    if parts.len() == 0 {
        cur
    } else {
        let next = match cur {
            Some(JVal::Object(es)) => obj_get(es, parts[0]),
            Some(JVal::Array(a)) => match parse_usize_spec(parts[0]) {
                Some(i) => if i < a.len() {
                    Some(a[i as int])
                } else {
                    None
                },
                None => None,
            },
            _ => None,
        };
        if next is None {
            None
        } else {
            follow(next, parts.drop_first())
        }
    }
}

/// The value at a dotted path (`user.address.city`, `items.0`).
pub open spec fn nested_spec(data: Seq<(Seq<char>, JVal)>, path: Seq<char>) -> Option<JVal> {
    let ps = path_parts(path);
    if ps.len() == 0 {
        None
    } else {
        follow(obj_get(data, ps[0]), ps.drop_first())
    }
}


pub(crate) fn find_char_in(cs: &[char], c: char, i: usize) -> (r: usize)
    requires
        i <= cs@.len(),
    ensures
        r == find_from(cs@, c, i as int),
{
    let mut k = i;
    while k < cs.len() && cs[k] != c
        invariant
            i <= k <= cs@.len(),
            find_from(cs@, c, k as int) == find_from(cs@, c, i as int),
        decreases cs@.len() - k,
    {
        k += 1;
    }
    k
}

fn path_parts_of(cs: &[char]) -> (r: Vec<Vec<char>>)
    ensures
        r@.map_values(|p: Vec<char>| p@) == path_parts(cs@),
    decreases cs@.len(),
{
    let k = find_char_in(cs, '.', 0);
    proof {
        lemma_find_from(cs@, '.', 0);
    }
    let piece = trim_chars(slice_subrange(cs, 0, k));
    assert(cs@.subrange(0, k as int) =~= cs@.take(k as int));
    let mut out: Vec<Vec<char>> = Vec::new();
    let pc = chars_of(piece.as_str());
    if pc.len() > 0 {
        out.push(pc);
    }
    if k < cs.len() {
        let mut rest = path_parts_of(slice_subrange(cs, k + 1, cs.len()));
        assert(cs@.subrange(k + 1, cs@.len() as int) =~= cs@.skip(k + 1));
        let ghost o0 = out@;
        let ghost r0 = rest@;
        out.append(&mut rest);
        assert(out@.map_values(|p: Vec<char>| p@) =~= o0.map_values(|p: Vec<char>| p@) + r0.map_values(|p: Vec<char>| p@));
    }
    assert(out@.map_values(|p: Vec<char>| p@) =~= path_parts(cs@));
    out
}

pub open spec fn opt_ref_view(o: Option<&JsonValue>) -> Option<JVal> {
    match o {
        Some(v) => Some(v@),
        None => None,
    }
}

fn entry_get<'a>(es: &'a Vec<(String, JsonValue)>, key: &Vec<char>) -> (r: Option<&'a JsonValue>)
    ensures
        opt_ref_view(r) == obj_get(view_entries(es@), key@),
{
    let k = string_from_chars(key.as_slice());
    match crate::json_types::find_key(es, k.as_str()) {
        Some(i) => {
            proof {
                lemma_view_entries_len(es@);
            }
            Some(&es[i].1)
        },
        None => None,
    }
}

/// The value at a dotted path such as `user.address.city` or `items.0`.
pub fn get_nested_value<'a>(json: &'a Vec<(String, JsonValue)>, path: &str) -> (r: Option<&'a JsonValue>)
    ensures
        opt_ref_view(r) == nested_spec(view_entries(json@), path@),
{
    let cs = chars_of(path);
    let parts = path_parts_of(cs.as_slice());
    let ghost ps = path_parts(path@);
    if parts.len() == 0 {
        return None;
    }
    assert(parts@.map_values(|p: Vec<char>| p@)[0] == parts@[0]@);
    let mut cur = entry_get(json, &parts[0]);
    let mut j: usize = 1;
    assert(ps.drop_first() =~= ps.skip(1));
    while j < parts.len()
        invariant
            1 <= j <= parts@.len(),
            ps == parts@.map_values(|p: Vec<char>| p@),
            ps.len() == parts@.len(),
            nested_spec(view_entries(json@), path@) == follow(opt_ref_view(cur), ps.skip(j as int)),
        decreases parts@.len() - j,
    {
        let part = &parts[j];
        assert(ps[j as int] == part@);
        assert(ps.skip(j as int)[0] == ps[j as int]);
        assert(ps.skip(j as int).drop_first() =~= ps.skip(j + 1));
        let next: Option<&JsonValue> = match cur {
            Some(JsonValue::Object(es)) => entry_get(es, part),
            Some(JsonValue::Array(a)) => match parse_usize(part.as_slice()) {
                Some(i) => {
                    proof {
                        lemma_view_values_len(a@);
                    }
                    if i < a.len() {
                        Some(&a[i])
                    } else {
                        None
                    }
                },
                None => None,
            },
            _ => None,
        };
        if next.is_none() {
            return None;
        }
        cur = next;
        j += 1;
    }
    assert(ps.skip(j as int).len() == 0);
    cur
}


// ───────────────────────── rendering ─────────────────────────

/// How a value found for `{{path}}` is written: strings bare, other values
/// as JSON text.
pub open spec fn value_text(v: JVal) -> Seq<char> {
    match v {
        JVal::Str(s) => s,
        JVal::Bool(b) => if b {
            "true"@
        } else {
            "false"@
        },
        JVal::Null => "null"@,
        _ => json_text(v),
    }
}

/// Inserting entries one after the other.
pub open spec fn insert_all(m: Seq<(Seq<char>, JVal)>, es: Seq<(Seq<char>, JVal)>) -> Seq<(Seq<char>, JVal)>
    decreases es.len(),
{
    if es.len() == 0 {
        m
    } else {
        obj_insert(insert_all(m, es.drop_last()), es.last().0, es.last().1)
    }
}

/// Inside `{{#each}}`: `.` is the item, and an object item's fields are names too.
pub open spec fn local_scope(item: JVal) -> Seq<(Seq<char>, JVal)> {
    let base = seq![("."@, item)];
    match item {
        JVal::Object(es) => insert_all(base, es),
        _ => base,
    }
}

/// Rendering segments: (text written, outcome). Writing stops at the first
/// missing variable.
pub open spec fn render_all(segs: Seq<TSeg>, data: Seq<(Seq<char>, JVal)>) -> (Seq<char>, Result<(), Seq<char>>)
    decreases segs, 0int,
{
    if segs.len() == 0 {
        (Seq::empty(), Ok(()))
    } else {
        let (t, r) = render_all(segs.drop_last(), data);
        if r is Err {
            (t, r)
        } else {
            let (t2, r2) = render_one(segs.last(), data);
            (t + t2, r2)
        }
    }
}

pub open spec fn render_one(seg: TSeg, data: Seq<(Seq<char>, JVal)>) -> (Seq<char>, Result<(), Seq<char>>)
    decreases seg, 0int,
{
    match seg {
        TSeg::Text(x) => (x, Ok(())),
        TSeg::Variable(p) => match var_value(data, p) {
            Some(v) => (value_text(v), Ok(())),
            None => (Seq::empty(), Err("variable not found: "@ + p)),
        },
        TSeg::EachLoop(p, body) => match nested_spec(data, p) {
            Some(JVal::Array(items)) => render_items(body, items, items.len() as int),
            _ => (Seq::empty(), Ok(())),
        },
    }
}

/// The value a `{{ path }}` names: `.` is the current item of a loop,
/// any other path is looked up part by part.
pub open spec fn var_value(data: Seq<(Seq<char>, JVal)>, p: Seq<char>) -> Option<JVal> {
    if p == "."@ {
        obj_get(data, "."@)
    } else {
        nested_spec(data, p)
    }
}

pub open spec fn ends_in_newline(t: Seq<char>) -> bool {
    t.len() > 0 && t.last() == '\n'
}

/// The body once per item, a line break between items unless the item's
/// text already ends in one.
pub open spec fn render_items(body: Seq<TSeg>, items: Seq<JVal>, n: int) -> (Seq<char>, Result<(), Seq<char>>)
    decreases body, items.len() + 1,
{
    if items.len() == 0 {
        (Seq::empty(), Ok(()))
    } else {
        let (t, r) = render_items(body, items.drop_last(), n);
        if r is Err {
            (t, r)
        } else {
            let (t2, r2) = render_all(body, local_scope(items.last()));
            if r2 is Err {
                (t + t2, r2)
            } else if items.len() - 1 < n - 1 && !ends_in_newline(t2) {
                (t + t2 + "\n"@, Ok(()))
            } else {
                (t + t2, Ok(()))
            }
        }
    }
}

fn value_text_of(v: &JsonValue) -> (r: String)
    ensures
        r@ == value_text(v@),
{
    match v {
        JsonValue::String(s) => s.clone(),
        JsonValue::Boolean(b) => if *b {
            String::from_str("true")
        } else {
            String::from_str("false")
        },
        JsonValue::Null => String::from_str("null"),
        _ => v.to_string(),
    }
}

fn build_local(item: &JsonValue) -> (r: Vec<(String, JsonValue)>)
    ensures
        view_entries(r@) == local_scope(item@),
{
    let mut m: Vec<(String, JsonValue)> = Vec::new();
    m.push((String::from_str("."), clone_value(item)));
    let ghost base = view_entries(m@);
    proof {
        lemma_view_entries_len(m@);
        assert(base =~= seq![("."@, item@)]);
    }
    match item {
        JsonValue::Object(es) => {
            let ghost w = view_entries(es@);
            proof {
                lemma_view_entries_len(es@);
                assert(w.take(0) =~= Seq::<(Seq<char>, JVal)>::empty());
            }
            let mut i: usize = 0;
            while i < es.len()
                invariant
                    i <= es@.len(),
                    w == view_entries(es@),
                    w.len() == es@.len(),
                    forall|k: int| 0 <= k < es@.len() ==> #[trigger] w[k] == (es@[k].0@, es@[k].1@),
                    view_entries(m@) == insert_all(base, w.take(i as int)),
                decreases es@.len() - i,
            {
                insert_entry(&mut m, es[i].0.clone(), clone_value(&es[i].1));
                proof {
                    assert(w.take(i + 1).drop_last() =~= w.take(i as int));
                    assert(w.take(i + 1).last() == w[i as int]);
                }
                i += 1;
            }
            assert(w.take(i as int) =~= w);
        },
        _ => {},
    }
    m
}

/// Renders segments into `out`, looking variables up in `data`.
pub fn render_segments(segs: &[TemplateSegment], out: &mut String, data: &Vec<(String, JsonValue)>) -> (r: Result<(), String>)
    ensures
        ({
            let (t, res) = render_all(segs_view(segs@), view_entries(data@));
            &&& final(out)@ == old(out)@ + t
            &&& match r {
                Ok(()) => res == Ok::<(), Seq<char>>(()),
                Err(e) => res == Err::<(), Seq<char>>(e@),
            }
        }),
    decreases segs@,
{
    let ghost d = view_entries(data@);
    let ghost sv = segs_view(segs@);
    proof {
        assert(segs@.take(0) =~= Seq::<TemplateSegment>::empty());
    }
    let mut i: usize = 0;
    while i < segs.len()
        invariant
            i <= segs@.len(),
            d == view_entries(data@),
            out@ == old(out)@ + render_all(segs_view(segs@.take(i as int)), d).0,
            render_all(segs_view(segs@.take(i as int)), d).1 == Ok::<(), Seq<char>>(()),
            sv == segs_view(segs@),
        decreases segs@.len() - i,
    {
        let ghost before = out@;
        proof {
            assert(segs@.take(i + 1) =~= segs@.take(i as int).push(segs@[i as int]));
            lemma_segs_view_push(segs@.take(i as int), segs@[i as int]);
            let x = segs_view(segs@.take(i as int));
            assert(x.push(seg_view(segs@[i as int])).drop_last() =~= x);
        }
        match &segs[i] {
            TemplateSegment::Text(t) => {
                push_str(out, t.as_str());
            },
            TemplateSegment::Variable(path) => {
                match var_lookup(data, path) {
                    Some(v) => {
                        let t = value_text_of(v);
                        push_str(out, t.as_str());
                    },
                    None => {
                        let mut msg = String::from_str("variable not found: ");
                        push_str(&mut msg, path.as_str());
                        proof {
                            assert(seg_view(segs@[i as int]) == TSeg::Variable(path@));
                            assert(render_one(seg_view(segs@[i as int]), d).1 is Err);
                            lemma_render_prefix_stop(segs@, i as int, d);
                        }
                        return Err(msg);
                    },
                }
            },
            TemplateSegment::EachLoop { path, body } => {
                match get_nested_value(data, path.as_str()) {
                    Some(JsonValue::Array(items)) => {
                        let ghost iv = view_values(items@);
                        proof {
                            lemma_view_values_len(items@);
                            assert(iv.take(0) =~= Seq::<JVal>::empty());
                            assert(decreases_to!(segs@ => segs@[i as int]));
                        }
                        let n = items.len();
                        let mut k: usize = 0;
                        while k < n
                            invariant
                                k <= n,
                                n == items@.len(),
                                iv == view_values(items@),
                                iv.len() == n,
                                forall|q: int| 0 <= q < n ==> #[trigger] iv[q] == items@[q]@,
                                out@ == before + render_items(segs_view(body@), iv.take(k as int), n as int).0,
                                render_items(segs_view(body@), iv.take(k as int), n as int).1 == Ok::<(), Seq<char>>(()),
                                decreases_to!(segs@ => body@),
                                i < segs@.len(),
                                d == view_entries(data@),
                                segs@[i as int] == (TemplateSegment::EachLoop { path: *path, body: *body }),
                                nested_spec(d, path@) == Some(JVal::Array(iv)),
                                before == old(out)@ + render_all(segs_view(segs@.take(i as int)), d).0,
                                render_all(segs_view(segs@.take(i as int)), d).1 == Ok::<(), Seq<char>>(()),
                                segs_view(segs@.take(i + 1)) == segs_view(segs@.take(i as int)).push(seg_view(segs@[i as int])),
                            decreases n - k,
                        {
                            let local = build_local(&items[k]);
                            let ghost b2 = out@;
                            proof {
                                assert(iv.take(k + 1).drop_last() =~= iv.take(k as int));
                                assert(iv.take(k + 1).last() == iv[k as int]);
                            }
                            let mut piece = String::new();
                            let res = render_segments(body.as_slice(), &mut piece, &local);
                            push_str(out, piece.as_str());
                            match res {
                                Ok(()) => {},
                                Err(e) => {
                                    proof {
                                        assert(render_items(segs_view(body@), iv.take(k + 1), n as int).1 is Err);
                                        lemma_items_prefix_stop(segs_view(body@), iv, k as int + 1, n as int);
                                        assert(seg_view(segs@[i as int]) == TSeg::EachLoop(path@, segs_view(body@)));
                                        assert(render_one(seg_view(segs@[i as int]), d).1 is Err);
                                        let x = segs_view(segs@.take(i as int));
                                        assert(x.push(seg_view(segs@[i as int])).drop_last() =~= x);
                                        lemma_render_prefix_stop(segs@, i as int, d);
                                    }
                                    return Err(e);
                                },
                            }
                            proof {
                                assert(view_entries(local@) == local_scope(iv[k as int]));
                                let (t1, r1) = render_items(segs_view(body@), iv.take(k as int), n as int);
                                let (t2, r2) = render_all(segs_view(body@), local_scope(iv[k as int]));
                                assert(r1 is Ok && r2 is Ok);
                                assert(out@ == before + t1 + t2);
                                reveal_strlit("\n");
                            }
                            let pc = chars_of(piece.as_str());
                            let ends_nl = pc.len() > 0 && pc[pc.len() - 1] == '\n';
                            if k + 1 < n && !ends_nl {
                                string_push(out, '\n');
                            }
                            k += 1;
                            assert(out@ =~= before + render_items(segs_view(body@), iv.take(k as int), n as int).0);
                        }
                        assert(iv.take(k as int) =~= iv);
                    },
                    _ => {},
                }
            },
        }
        i += 1;
        assert(out@ =~= old(out)@ + render_all(segs_view(segs@.take(i as int)), d).0);
    }
    assert(segs@.take(i as int) =~= segs@);
    Ok(())
}

/// The value a variable names (see [`var_value`]).
fn var_lookup<'a>(data: &'a Vec<(String, JsonValue)>, path: &String) -> (r: Option<&'a JsonValue>)
    ensures
        opt_ref_view(r) == var_value(view_entries(data@), path@),
{
    let pc = chars_of(path.as_str());
    if crate::text::eq_lit(&pc, ".") {
        proof {
            lemma_view_entries_len(data@);
        }
        match crate::json_types::find_key(data, ".") {
            Some(i) => Some(&data[i].1),
            None => None,
        }
    } else {
        get_nested_value(data, path.as_str())
    }
}

/// An error in the first `i + 1` segments is the error of all of them.
proof fn lemma_render_prefix_stop(segs: Seq<TemplateSegment>, i: int, d: Seq<(Seq<char>, JVal)>)
    requires
        0 <= i < segs.len(),
        render_all(segs_view(segs.take(i + 1)), d).1 is Err,
    ensures
        render_all(segs_view(segs), d) == render_all(segs_view(segs.take(i + 1)), d),
    decreases segs.len() - i,
{
    if i + 1 == segs.len() {
        assert(segs.take(i + 1) =~= segs);
    } else {
        assert(segs.take(i + 2) =~= segs.take(i + 1).push(segs[i + 1]));
        lemma_segs_view_push(segs.take(i + 1), segs[i + 1]);
        let x = segs_view(segs.take(i + 1));
        assert(x.push(seg_view(segs[i + 1])).drop_last() =~= x);
        lemma_render_prefix_stop(segs, i + 1, d);
    }
}

proof fn lemma_items_prefix_stop(body: Seq<TSeg>, items: Seq<JVal>, k: int, n: int)
    requires
        0 < k <= items.len(),
        render_items(body, items.take(k), n).1 is Err,
    ensures
        render_items(body, items, n) == render_items(body, items.take(k), n),
    decreases items.len() - k,
{
    if k == items.len() {
        assert(items.take(k) =~= items);
    } else {
        assert(items.take(k + 1).drop_last() =~= items.take(k));
        lemma_items_prefix_stop(body, items, k + 1, n);
    }
}


// ───────────────────────── text helpers ─────────────────────────

/// `str::replace`: every non-overlapping occurrence of `pat`, left to right,
/// replaced by `rep` (an empty `pat` matches before every character and at the end).
pub open spec fn replace_spec(s: Seq<char>, pat: Seq<char>, rep: Seq<char>) -> Seq<char>
    decreases s.len(),
{
    if pat.len() == 0 {
        if s.len() == 0 {
            rep
        } else {
            rep + seq![s[0]] + replace_spec(s.drop_first(), pat, rep)
        }
    } else {
        let k = find_pat(s, pat, 0);
        if k < 0 || k + pat.len() > s.len() {
            s
        } else {
            s.take(k) + rep + replace_spec(s.skip(k + pat.len()), pat, rep)
        }
    }
}

pub(crate) fn find_chars(s: &[char], p: &[char], from: usize) -> (r: Option<usize>)
    ensures
        match r {
            Some(k) => k as int == find_pat(s@, p@, from as int) && k >= from && k + p@.len() <= s@.len(),
            None => find_pat(s@, p@, from as int) == -1,
        },
{
    let mut k = from;
    while k <= s.len()
        invariant
            from <= k,
            find_pat(s@, p@, k as int) == find_pat(s@, p@, from as int),
        decreases s@.len() + 1 - k,
    {
        if p.len() > s.len() - k {
            return None;
        }
        let mut j: usize = 0;
        let mut same = true;
        while j < p.len()
            invariant
                k + p@.len() <= s@.len(),
                j <= p@.len(),
                same ==> forall|q: int| 0 <= q < j ==> s@[k + q] == p@[q],
                !same ==> !occurs_at(s@, p@, k as int),
            decreases p@.len() - j,
        {
            let n = s.len();
            assert(k + j < n);
            if same && s[k + j] != p[j] {
                assert(s@.subrange(k as int, k + p@.len())[j as int] != p@[j as int]);
                same = false;
            }
            j += 1;
        }
        if same {
            assert(s@.subrange(k as int, k + p@.len()) =~= p@);
            return Some(k);
        }
        if k == s.len() {
            return None;
        }
        k += 1;
    }
    None
}

/// `str::replace`.
pub fn replace_str(s: &str, pat: &str, rep: &str) -> (r: String)
    ensures
        r@ == replace_spec(s@, pat@, rep@),
{
    let cs = chars_of(s);
    let ps = chars_of(pat);
    let mut out = String::new();
    let mut i: usize = 0;
    if ps.len() == 0 {
        proof {
            assert(cs@.skip(0) =~= cs@);
            assert(Seq::<char>::empty() + replace_spec(s@, pat@, rep@) =~= replace_spec(s@, pat@, rep@));
        }
        while i < cs.len()
            invariant
                i <= cs@.len(),
                cs@ == s@,
                ps@ == pat@,
                pat@.len() == 0,
                out@ + replace_spec(cs@.skip(i as int), pat@, rep@) == replace_spec(s@, pat@, rep@),
            decreases cs@.len() - i,
        {
            proof {
                assert(cs@.skip(i as int).drop_first() =~= cs@.skip(i + 1));
                assert(cs@.skip(i as int)[0] == cs@[i as int]);
            }
            let ghost before = out@;
            push_str(&mut out, rep);
            string_push(&mut out, cs[i]);
            proof {
                assert(out@ == before + rep@ + seq![cs@[i as int]]);
                assert(before + (rep@ + seq![cs@[i as int]] + replace_spec(cs@.skip(i + 1), pat@, rep@)) =~= out@
                    + replace_spec(cs@.skip(i + 1), pat@, rep@));
            }
            i += 1;
        }
        push_str(&mut out, rep);
        assert(cs@.skip(i as int).len() == 0);
        return out;
    }
    proof {
        assert(cs@.skip(0) =~= cs@);
        assert(Seq::<char>::empty() + replace_spec(s@, pat@, rep@) =~= replace_spec(s@, pat@, rep@));
    }
    loop
        invariant
            i <= cs@.len(),
            cs@ == s@,
            ps@ == pat@,
            pat@.len() > 0,
            out@ + replace_spec(cs@.skip(i as int), pat@, rep@) == replace_spec(s@, pat@, rep@),
        decreases cs@.len() - i,
    {
        let rest = slice_subrange(cs.as_slice(), i, cs.len());
        assert(rest@ =~= cs@.skip(i as int));
        match find_chars(rest, ps.as_slice(), 0) {
            None => {
                let t = string_from_chars(rest);
                push_str(&mut out, t.as_str());
                return out;
            },
            Some(k) => {
                let ghost before = out@;
                let t = string_from_chars(slice_subrange(rest, 0, k));
                push_str(&mut out, t.as_str());
                push_str(&mut out, rep);
                proof {
                    assert(rest@.subrange(0, k as int) =~= rest@.take(k as int));
                    assert(rest@.skip(k + ps@.len()) =~= cs@.skip(i + k + ps@.len()));
                    assert(before + (rest@.take(k as int) + rep@ + replace_spec(cs@.skip(i + k + ps@.len()), pat@, rep@))
                        =~= out@ + replace_spec(cs@.skip(i + k + ps@.len()), pat@, rep@));
                }
                i = i + k + ps.len();
            },
        }
    }
}

/// Whether `pat` occurs in `s`.
pub fn contains_str(s: &str, pat: &str) -> (r: bool)
    ensures
        r == (find_pat(s@, pat@, 0) >= 0),
{
    let cs = chars_of(s);
    let ps = chars_of(pat);
    find_chars(cs.as_slice(), ps.as_slice(), 0).is_some()
}

/// Number of leading whitespace characters.
pub fn count_leading_whitespace(s: &str) -> (r: usize)
    ensures
        r == find_ws(s@, false, 0),
{
    let cs = chars_of(s);
    crate::text::find_space(cs.as_slice(), false, 0)
}

/// Index of the last `'\n'` in `s`, or `-1`.
pub open spec fn last_newline(s: Seq<char>) -> int
    decreases s.len(),
{
    if s.len() == 0 {
        -1
    } else if s.last() == '\n' {
        s.len() - 1
    } else {
        last_newline(s.drop_last())
    }
}

/// `str::lines`: pieces between `'\n'`s, each without its `'\n'` and a `'\r'`
/// just before it; no piece after a final `'\n'`.
pub open spec fn lines_spec(s: Seq<char>) -> Seq<Seq<char>>
    decreases s.len(),
{
    if s.len() == 0 {
        Seq::empty()
    } else {
        let k = find_from(s, '\n', 0);
        if k < s.len() {
            let line = s.take(k);
            let line2 = if line.len() > 0 && line.last() == '\r' {
                line.drop_last()
            } else {
                line
            };
            proof {
                lemma_find_from(s, '\n', 0);
            }
            seq![line2] + lines_spec(s.skip(k + 1))
        } else {
            seq![s]
        }
    }
}

/// The lines joined by `'\n'`, every line but the first indented by `indent` spaces.
pub open spec fn indent_lines(ls: Seq<Seq<char>>, indent: nat) -> Seq<char>
    decreases ls.len(),
{
    if ls.len() == 0 {
        Seq::empty()
    } else if ls.len() == 1 {
        ls[0]
    } else {
        indent_lines(ls.drop_last(), indent) + "\n"@ + Seq::new(indent, |_i: int| ' ') + ls.last()
    }
}

fn push_indented(out: &mut String, text: &[char], indent: usize)
    ensures
        final(out)@ == old(out)@ + indent_lines(lines_spec(text@), indent as nat),
{
    proof {
        reveal_strlit("\n");
    }
    let mut i: usize = 0;
    let mut first = true;
    let ghost all = lines_spec(text@);
    let ghost mut done: Seq<Seq<char>> = Seq::empty();
    proof {
        assert(text@.skip(0) =~= text@);
        assert(done + lines_spec(text@.skip(0)) =~= all);
    }
    while i < text.len()
        invariant
            i <= text@.len(),
            all == lines_spec(text@),
            done + lines_spec(text@.skip(i as int)) == all,
            first == (done.len() == 0),
            out@ == old(out)@ + indent_lines(done, indent as nat),
        decreases text@.len() - i,
    {
        let rest = slice_subrange(text, i, text.len());
        assert(rest@ =~= text@.skip(i as int));
        let k = find_char_in(rest, '\n', 0);
        proof {
            lemma_find_from(rest@, '\n', 0);
        }
        let mut stop = k;
        if k < rest.len() && k > 0 && rest[k - 1] == '\r' {
            stop = k - 1;
        }
        if !first {
            string_push(out, '\n');
            proof {
                reveal_strlit("\n");
                assert(out@ =~= old(out)@ + indent_lines(done, indent as nat) + "\n"@ + Seq::new(0nat, |_i: int| ' '));
            }
            let mut q: usize = 0;
            while q < indent
                invariant
                    q <= indent,
                    out@ == old(out)@ + indent_lines(done, indent as nat) + "\n"@ + Seq::new(q as nat, |_i: int| ' '),
                decreases indent - q,
            {
                string_push(out, ' ');
                q += 1;
                assert(out@ =~= old(out)@ + indent_lines(done, indent as nat) + "\n"@ + Seq::new(q as nat, |_i: int| ' '));
            }
        }
        let line = string_from_chars(slice_subrange(rest, 0, stop));
        push_str(out, line.as_str());
        proof {
            let l = if k < rest@.len() {
                let t = rest@.take(k as int);
                if t.len() > 0 && t.last() == '\r' {
                    t.drop_last()
                } else {
                    t
                }
            } else {
                rest@
            };
            assert(rest@.subrange(0, stop as int) =~= l);
            let nd = done.push(l);
            if k < rest@.len() {
                assert(rest@.skip(k + 1) =~= text@.skip(i + k + 1));
                assert(lines_spec(rest@) == seq![l] + lines_spec(text@.skip(i + k + 1)));
                assert(nd + lines_spec(text@.skip(i + k + 1)) =~= done + lines_spec(rest@));
            } else {
                assert(lines_spec(rest@) == seq![l]);
                assert(text@.skip(text@.len() as int).len() == 0);
                assert(nd + lines_spec(text@.skip(text@.len() as int)) =~= done + lines_spec(rest@));
            }
            assert(nd.drop_last() =~= done);
            if done.len() > 0 {
                assert(out@ =~= old(out)@ + indent_lines(nd, indent as nat));
            } else {
                assert(out@ =~= old(out)@ + indent_lines(nd, indent as nat));
            }
            done = nd;
        }
        first = false;
        if k < rest.len() {
            i = i + k + 1;
        } else {
            i = text.len();
        }
    }
    proof {
        assert(text@.skip(i as int).len() == 0);
        assert(done =~= all);
    }
}


// ───────────────────────── annotations in prompts ─────────────────────────

/// A general annotation's line (field annotations have none).
pub open spec fn general_line(a: WAILAnnotation) -> Seq<char> {
    match a {
        WAILAnnotation::Description(d) => "# "@ + d@ + "\n"@,
        WAILAnnotation::Example(d) => "# Example: "@ + d@ + "\n"@,
        WAILAnnotation::Validation(d) => "# Validation: "@ + d@ + "\n"@,
        WAILAnnotation::Format(d) => "# Format: "@ + d@ + "\n"@,
        WAILAnnotation::Important(d) => "# Important: "@ + d@ + "\n"@,
        WAILAnnotation::Context(d) => "# Context: "@ + d@ + "\n"@,
        WAILAnnotation::Default(d) => "# Default: "@ + d@ + "\n"@,
        WAILAnnotation::Field { .. } => Seq::empty(),
    }
}

pub open spec fn general_text(a: Seq<WAILAnnotation>) -> Seq<char>
    decreases a.len(),
{
    if a.len() == 0 {
        Seq::empty()
    } else {
        general_text(a.drop_last()) + general_line(a.last())
    }
}

pub open spec fn has_general(a: Seq<WAILAnnotation>) -> bool {
    exists|i: int| 0 <= i < a.len() && !(#[trigger] a[i] is Field)
}

/// A field requirement's line; a field annotation nested in a field's
/// annotations has none (rendering it panics).
pub open spec fn requirement_line(a: WAILAnnotation) -> Option<Seq<char>> {
    match a {
        WAILAnnotation::Description(d) => Some("#   "@ + d@ + "\n"@),
        WAILAnnotation::Example(d) => Some("#   Example: "@ + d@ + "\n"@),
        WAILAnnotation::Validation(d) => Some("#   Validation: "@ + d@ + "\n"@),
        WAILAnnotation::Format(d) => Some("#   Format: "@ + d@ + "\n"@),
        WAILAnnotation::Important(d) => Some("#   Important: "@ + d@ + "\n"@),
        WAILAnnotation::Context(d) => Some("#   Context: "@ + d@ + "\n"@),
        WAILAnnotation::Default(d) => Some("#   Default: "@ + d@ + "\n"@),
        WAILAnnotation::Field { .. } => None,
    }
}

pub open spec fn requirement_text(s: Seq<WAILAnnotation>) -> Option<Seq<char>>
    decreases s.len(),
{
    if s.len() == 0 {
        Some(Seq::empty())
    } else {
        match (requirement_text(s.drop_last()), requirement_line(s.last())) {
            (Some(a), Some(b)) => Some(a + b),
            _ => None,
        }
    }
}

/// Names of the fields annotated, in order of first appearance.
pub open spec fn group_names(a: Seq<WAILAnnotation>) -> Seq<Seq<char>>
    decreases a.len(),
{
    if a.len() == 0 {
        Seq::empty()
    } else {
        let g = group_names(a.drop_last());
        match a.last() {
            WAILAnnotation::Field { name, .. } => if g.contains(name@) {
                g
            } else {
                g.push(name@)
            },
            _ => g,
        }
    }
}

/// All annotations given for field `name`, in order.
pub open spec fn group_items(a: Seq<WAILAnnotation>, name: Seq<char>) -> Seq<WAILAnnotation>
    decreases a.len(),
{
    if a.len() == 0 {
        Seq::empty()
    } else {
        group_items(a.drop_last(), name) + match a.last() {
            WAILAnnotation::Field { name: n, annotations } => if n@ == name {
                annotations@
            } else {
                Seq::empty()
            },
            _ => Seq::empty(),
        }
    }
}

pub open spec fn groups_text(names: Seq<Seq<char>>, a: Seq<WAILAnnotation>) -> Option<Seq<char>>
    decreases names.len(),
{
    if names.len() == 0 {
        Some(Seq::empty())
    } else {
        match (groups_text(names.drop_last(), a), requirement_text(group_items(a, names.last()))) {
            (Some(x), Some(y)) => Some(x + "# For "@ + names.last() + ":\n"@ + y),
            _ => None,
        }
    }
}

/// The annotation section under a schema: general notes, then the
/// requirements of each annotated field.
pub open spec fn annotation_info(a: Seq<WAILAnnotation>) -> Option<Seq<char>> {
    let p1 = if has_general(a) {
        "\n# General:\n"@ + general_text(a)
    } else {
        Seq::empty()
    };
    let names = group_names(a);
    if names.len() > 0 {
        match groups_text(names, a) {
            Some(t) => Some(p1 + "\n# Field Requirements:\n"@ + t),
            None => None,
        }
    } else {
        Some(p1)
    }
}

proof fn lemma_requirement_prefix(s: Seq<WAILAnnotation>, i: int)
    requires
        0 <= i <= s.len(),
        requirement_text(s) is Some,
    ensures
        requirement_text(s.take(i)) is Some,
    decreases s.len() - i,
{
    if i == s.len() {
        assert(s.take(i) =~= s);
    } else {
        lemma_requirement_prefix(s, i + 1);
        assert(s.take(i + 1).drop_last() =~= s.take(i));
    }
}

proof fn lemma_groups_prefix(names: Seq<Seq<char>>, a: Seq<WAILAnnotation>, i: int)
    requires
        0 <= i <= names.len(),
        groups_text(names, a) is Some,
    ensures
        groups_text(names.take(i), a) is Some,
    decreases names.len() - i,
{
    if i == names.len() {
        assert(names.take(i) =~= names);
    } else {
        lemma_groups_prefix(names, a, i + 1);
        assert(names.take(i + 1).drop_last() =~= names.take(i));
    }
}

fn push_general_line(out: &mut String, a: &WAILAnnotation)
    ensures
        final(out)@ == old(out)@ + general_line(*a),
{
    match a {
        WAILAnnotation::Description(d) => {
            push_str(out, "# ");
            push_str(out, d.as_str());
            push_str(out, "\n");
        },
        WAILAnnotation::Example(d) => {
            push_str(out, "# Example: ");
            push_str(out, d.as_str());
            push_str(out, "\n");
        },
        WAILAnnotation::Validation(d) => {
            push_str(out, "# Validation: ");
            push_str(out, d.as_str());
            push_str(out, "\n");
        },
        WAILAnnotation::Format(d) => {
            push_str(out, "# Format: ");
            push_str(out, d.as_str());
            push_str(out, "\n");
        },
        WAILAnnotation::Important(d) => {
            push_str(out, "# Important: ");
            push_str(out, d.as_str());
            push_str(out, "\n");
        },
        WAILAnnotation::Context(d) => {
            push_str(out, "# Context: ");
            push_str(out, d.as_str());
            push_str(out, "\n");
        },
        WAILAnnotation::Default(d) => {
            push_str(out, "# Default: ");
            push_str(out, d.as_str());
            push_str(out, "\n");
        },
        WAILAnnotation::Field { .. } => {
            assert(old(out)@ + Seq::<char>::empty() =~= old(out)@);
        },
    }
}

fn push_requirement_line(out: &mut String, a: &WAILAnnotation)
    requires
        requirement_line(*a) is Some,
    ensures
        final(out)@ == old(out)@ + requirement_line(*a)->Some_0,
{
    match a {
        WAILAnnotation::Description(d) => {
            push_str(out, "#   ");
            push_str(out, d.as_str());
            push_str(out, "\n");
        },
        WAILAnnotation::Example(d) => {
            push_str(out, "#   Example: ");
            push_str(out, d.as_str());
            push_str(out, "\n");
        },
        WAILAnnotation::Validation(d) => {
            push_str(out, "#   Validation: ");
            push_str(out, d.as_str());
            push_str(out, "\n");
        },
        WAILAnnotation::Format(d) => {
            push_str(out, "#   Format: ");
            push_str(out, d.as_str());
            push_str(out, "\n");
        },
        WAILAnnotation::Important(d) => {
            push_str(out, "#   Important: ");
            push_str(out, d.as_str());
            push_str(out, "\n");
        },
        WAILAnnotation::Context(d) => {
            push_str(out, "#   Context: ");
            push_str(out, d.as_str());
            push_str(out, "\n");
        },
        WAILAnnotation::Default(d) => {
            push_str(out, "#   Default: ");
            push_str(out, d.as_str());
            push_str(out, "\n");
        },
        WAILAnnotation::Field { .. } => {},
    }
}

fn names_contain(names: &Vec<String>, n: &String) -> (r: bool)
    ensures
        r == names@.map_values(|x: String| x@).contains(n@),
{
    let ghost nv = names@.map_values(|x: String| x@);
    let mut i: usize = 0;
    while i < names.len()
        invariant
            i <= names@.len(),
            nv == names@.map_values(|x: String| x@),
            forall|k: int| 0 <= k < i ==> nv[k] != n@,
        decreases names@.len() - i,
    {
        if names[i] == *n {
            assert(nv[i as int] == n@);
            return true;
        }
        i += 1;
    }
    proof {
        if nv.contains(n@) {
            let k = choose|k: int| 0 <= k < nv.len() && nv[k] == n@;
            assert(nv[k] != n@);
        }
    }
    false
}

/// Appends the annotation section for `annots` (see [`annotation_info`]).
fn push_annotation_info(out: &mut String, annots: &Vec<WAILAnnotation>)
    requires
        annotation_info(annots@) is Some,
    ensures
        final(out)@ == old(out)@ + annotation_info(annots@)->Some_0,
{
    let a = annots;
    // general notes
    let mut any_general = false;
    let mut i: usize = 0;
    while i < a.len()
        invariant
            i <= a@.len(),
            any_general == exists|k: int| 0 <= k < i && !(#[trigger] a@[k] is Field),
        decreases a@.len() - i,
    {
        match &a[i] {
            WAILAnnotation::Field { .. } => {},
            _ => {
                any_general = true;
            },
        }
        i += 1;
    }
    let ghost start = out@;
    if any_general {
        push_str(out, "\n# General:\n");
        let ghost h = out@;
        let mut j: usize = 0;
        proof {
            assert(a@.take(0) =~= Seq::<WAILAnnotation>::empty());
        }
        while j < a.len()
            invariant
                j <= a@.len(),
                out@ == h + general_text(a@.take(j as int)),
            decreases a@.len() - j,
        {
            push_general_line(out, &a[j]);
            proof {
                assert(a@.take(j + 1).drop_last() =~= a@.take(j as int));
            }
            j += 1;
        }
        assert(a@.take(j as int) =~= a@);
    }
    let ghost p1 = out@;
    assert(p1 == start + (if has_general(a@) { "\n# General:\n"@ + general_text(a@) } else { Seq::empty() }));
    // names of annotated fields, first appearance first
    let mut names: Vec<String> = Vec::new();
    let mut k: usize = 0;
    proof {
        assert(a@.take(0) =~= Seq::<WAILAnnotation>::empty());
    }
    while k < a.len()
        invariant
            k <= a@.len(),
            names@.map_values(|x: String| x@) == group_names(a@.take(k as int)),
        decreases a@.len() - k,
    {
        proof {
            assert(a@.take(k + 1).drop_last() =~= a@.take(k as int));
            assert(a@.take(k + 1).last() == a@[k as int]);
        }
        match &a[k] {
            WAILAnnotation::Field { name, .. } => {
                if !names_contain(&names, name) {
                    names.push(name.clone());
                    assert(names@.map_values(|x: String| x@) =~= group_names(a@.take(k as int)).push(name@));
                }
            },
            _ => {},
        }
        k += 1;
    }
    assert(a@.take(k as int) =~= a@);
    let ghost nv = group_names(a@);
    if names.len() == 0 {
        return;
    }
    push_str(out, "\n# Field Requirements:\n");
    let ghost h2 = out@;
    let mut g: usize = 0;
    proof {
        assert(nv.take(0) =~= Seq::<Seq<char>>::empty());
    }
    while g < names.len()
        invariant
            g <= names@.len(),
            nv == names@.map_values(|x: String| x@),
            nv == group_names(a@),
            groups_text(nv, a@) is Some,
            groups_text(nv.take(g as int), a@) is Some,
            out@ == h2 + groups_text(nv.take(g as int), a@)->Some_0,
        decreases names@.len() - g,
    {
        let ghost gname = nv[g as int];
        proof {
            lemma_groups_prefix(nv, a@, g + 1);
            assert(nv.take(g + 1).drop_last() =~= nv.take(g as int));
            assert(nv.take(g + 1).last() == gname);
        }
        let ghost before_group = out@;
        push_str(out, "# For ");
        push_str(out, names[g].as_str());
        push_str(out, ":\n");
        let ghost h3 = out@;
        let ghost items = group_items(a@, gname);
        assert(requirement_text(items) is Some);
        let mut q: usize = 0;
        proof {
            assert(a@.take(0) =~= Seq::<WAILAnnotation>::empty());
        }
        while q < a.len()
            invariant
                q <= a@.len(),
                g < names@.len(),
                gname == names@[g as int]@,
                requirement_text(group_items(a@, gname)) is Some,
                requirement_text(group_items(a@.take(q as int), gname)) is Some,
                out@ == h3 + requirement_text(group_items(a@.take(q as int), gname))->Some_0,
            decreases a@.len() - q,
        {
            proof {
                assert(a@.take(q + 1).drop_last() =~= a@.take(q as int));
                assert(a@.take(q + 1).last() == a@[q as int]);
                lemma_group_items_prefix(a@, gname, q as int + 1);
            }
            match &a[q] {
                WAILAnnotation::Field { name, annotations } => {
                    if *name == names[g] {
                        let ghost base = group_items(a@.take(q as int), gname);
                        let mut r: usize = 0;
                        proof {
                            assert(base + annotations@.take(0) =~= base);
                        }
                        while r < annotations.len()
                            invariant
                                r <= annotations@.len(),
                                base == group_items(a@.take(q as int), gname),
                                requirement_text(base + annotations@) is Some,
                                requirement_text(base + annotations@.take(r as int)) is Some,
                                out@ == h3 + requirement_text(base + annotations@.take(r as int))->Some_0,
                            decreases annotations@.len() - r,
                        {
                            proof {
                                let full = base + annotations@;
                                lemma_requirement_prefix(full, base.len() + r + 1);
                                assert(full.take(base.len() + r + 1) =~= base + annotations@.take(r + 1));
                                assert((base + annotations@.take(r + 1)).drop_last() =~= base + annotations@.take(r as int));
                                assert((base + annotations@.take(r + 1)).last() == annotations@[r as int]);
                            }
                            push_requirement_line(out, &annotations[r]);
                            r += 1;
                        }
                        assert(annotations@.take(r as int) =~= annotations@);
                    } else {
                        assert(group_items(a@.take(q + 1), gname) =~= group_items(a@.take(q as int), gname));
                    }
                },
                _ => {
                    assert(group_items(a@.take(q + 1), gname) =~= group_items(a@.take(q as int), gname));
                },
            }
            q += 1;
        }
        assert(a@.take(q as int) =~= a@);
        g += 1;
    }
    assert(nv.take(g as int) =~= nv);
}

/// `group_items` of a prefix: defined whenever that of the whole is.
proof fn lemma_group_items_prefix(a: Seq<WAILAnnotation>, name: Seq<char>, i: int)
    requires
        0 <= i <= a.len(),
        requirement_text(group_items(a, name)) is Some,
    ensures
        requirement_text(group_items(a.take(i), name)) is Some,
    decreases a.len() - i,
{
    if i == a.len() {
        assert(a.take(i) =~= a);
    } else {
        lemma_group_items_prefix(a, name, i + 1);
        let p = a.take(i + 1);
        assert(p.drop_last() =~= a.take(i));
        let whole = group_items(p, name);
        lemma_requirement_prefix(whole, group_items(a.take(i), name).len() as int);
        assert(whole.take(group_items(a.take(i), name).len() as int) =~= group_items(a.take(i), name));
    }
}


// ───────────────────────── interpolation ─────────────────────────

/// Object instances by binding name: the named fields of each.
pub type ObjsV = Seq<(Seq<char>, Seq<(Seq<char>, TArg)>)>;

pub open spec fn objs_view(s: Seq<(String, WAILObjectInstantiation)>) -> ObjsV {
    s.map_values(|e: (String, WAILObjectInstantiation)| (e.0@, tentries_view(e.1.fields@)))
}

/// The value stored under the first occurrence of `k`.
pub open spec fn first_value<V>(es: Seq<(Seq<char>, V)>, k: Seq<char>) -> Option<V>
    decreases es.len(),
{
    if es.len() == 0 {
        None
    } else {
        match first_value(es.drop_last(), k) {
            Some(v) => Some(v),
            None => if es.last().0 == k {
                Some(es.last().1)
            } else {
                None
            },
        }
    }
}

pub open spec fn placeholder(name: Seq<char>) -> Seq<char> {
    "{{"@ + name + "}}"@
}

/// One field of an object instance written into the prompt (`ph` is the
/// placeholder of the input the instance was passed for).
pub open spec fn field_step(f: (Seq<char>, TArg), o: Seq<char>, ph: Seq<char>, p: Seq<char>) -> Result<Seq<char>, Seq<char>> {
    let fph = "{{"@ + o + "."@ + f.0 + "}}"@;
    match f.1 {
        TArg::String(s) => Ok(replace_spec(p, fph, s)),
        TArg::Number(n) => Ok(replace_spec(p, fph, int_text(n as int))),
        TArg::Float(s) => Ok(replace_spec(p, fph, s)),
        TArg::TypeRef(s) => Ok(replace_spec(p, fph, s)),
        TArg::TemplateArgRef(s) => Ok(replace_spec(p, fph, "$"@ + s)),
        TArg::Array(items) => Ok(replace_spec(p, ph, args_join(items))),
        TArg::ObjectRef(_) => Err("Nested object references are not supported"@),
        TArg::Object(inner) => Ok(replace_spec(p, fph, kv_join(inner))),
    }
}

pub open spec fn obj_fields_step(fs: Seq<(Seq<char>, TArg)>, o: Seq<char>, ph: Seq<char>, p: Seq<char>) -> Result<Seq<char>, Seq<char>>
    decreases fs.len(),
{
    if fs.len() == 0 {
        Ok(p)
    } else {
        match obj_fields_step(fs.drop_last(), o, ph, p) {
            Ok(p2) => field_step(fs.last(), o, ph, p2),
            Err(e) => Err(e),
        }
    }
}

/// An argument written into the prompt in place of placeholder `ph`.
pub open spec fn arg_step(arg: TArg, ph: Seq<char>, p: Seq<char>, objs: ObjsV) -> Result<Seq<char>, Seq<char>> {
    match arg {
        TArg::String(s) => Ok(replace_spec(p, ph, s)),
        TArg::Number(n) => Ok(replace_spec(p, ph, int_text(n as int))),
        TArg::Float(s) => Ok(replace_spec(p, ph, s)),
        TArg::TypeRef(s) => Ok(replace_spec(p, ph, s)),
        TArg::TemplateArgRef(s) => Ok(replace_spec(p, ph, "$"@ + s)),
        TArg::ObjectRef(o) => match first_value(objs, o) {
            None => Err("Object not found: "@ + o),
            Some(fields) => obj_fields_step(fields, o, ph, p),
        },
        TArg::Array(items) => Ok(replace_spec(p, ph, args_join(items))),
        TArg::Object(es) => Ok(replace_spec(p, ph, kv_join(es))),
    }
}

/// The schema of a field followed by its annotation section.
pub open spec fn param_info(f: WAILField) -> Option<Seq<char>> {
    match (schema_spec(f.field_type), annotation_info(f.annotations@)) {
        (Some(a), Some(b)) => Some(a + b),
        _ => None,
    }
}

/// One input of a template: its placeholder is replaced by the argument
/// given for it, or, without arguments, by its schema. `None` where this panics.
pub open spec fn input_step(input: WAILField, p: Seq<char>, args: Option<Seq<(Seq<char>, TArg)>>, objs: ObjsV) -> Option<
    Result<Seq<char>, Seq<char>>,
> {
    let name = input.name@;
    let ph = placeholder(name);
    if find_pat(p, ph, 0) < 0 && first_value(objs, name) is None {
        Some(Err("Missing placeholder for input: "@ + name))
    } else {
        match args {
            Some(a) => match first_value(a, name) {
                None => None,
                Some(arg) => Some(arg_step(arg, ph, p, objs)),
            },
            None => match param_info(input) {
                None => None,
                Some(info) => Some(Ok(replace_spec(p, ph, info))),
            },
        }
    }
}

pub open spec fn stage_inputs(inputs: Seq<WAILField>, p: Seq<char>, args: Option<Seq<(Seq<char>, TArg)>>, objs: ObjsV) -> Option<
    Result<Seq<char>, Seq<char>>,
>
    decreases inputs.len(),
{
    if inputs.len() == 0 {
        Some(Ok(p))
    } else {
        match stage_inputs(inputs.drop_last(), p, args, objs) {
            Some(Ok(p2)) => input_step(inputs.last(), p2, args, objs),
            other => other,
        }
    }
}

/// A letter of an unbraced capture name (`$name`).
pub open spec fn cap_letter(c: char) -> bool {
    ('0' <= c <= '9') || ('a' <= c <= 'z') || ('A' <= c <= 'Z') || c == '_'
}

/// The end of the run of capture-name letters in `r` from `i`.
pub open spec fn cap_end(r: Seq<char>, i: int) -> int
    decreases r.len() - i,
{
    if 0 <= i < r.len() && cap_letter(r[i]) {
        cap_end(r, i + 1)
    } else {
        i
    }
}

/// What a capture reference stands for when the pattern has no groups: group
/// `0` is the whole match, and any other number or name is empty.
pub open spec fn group_text(name: Seq<char>) -> Seq<char> {
    if parse_usize_spec(name) == Some(0nat) {
        "{{return_type}}"@
    } else {
        Seq::empty()
    }
}

/// The expansion `Regex::replace` applies to the replacement string for the
/// pattern `\{\{return_type\}\}` (no groups): `$$` is a `$`; `$name` (the
/// longest run of letters, digits and `_`) and `${name}` stand for a capture
/// group (see [`group_text`]); any other `$` stands for itself.
pub open spec fn regex_expansion(r: Seq<char>) -> Seq<char>
    decreases r.len(),
{
    if r.len() == 0 {
        Seq::empty()
    } else if r[0] != '$' {
        seq![r[0]] + regex_expansion(r.skip(1))
    } else if r.len() >= 2 && r[1] == '$' {
        "$"@ + regex_expansion(r.skip(2))
    } else if r.len() >= 2 && r[1] == '{' {
        let j = find_from(r, '}', 2);
        proof {
            lemma_find_from(r, '}', 2);
        }
        if j < r.len() {
            group_text(r.subrange(2, j)) + regex_expansion(r.skip(j + 1))
        } else {
            "$"@ + regex_expansion(r.skip(1))
        }
    } else {
        let e = cap_end(r, 1);
        proof {
            lemma_cap_end(r, 1);
        }
        if e == 1 {
            "$"@ + regex_expansion(r.skip(1))
        } else {
            group_text(r.subrange(1, e)) + regex_expansion(r.skip(e))
        }
    }
}

pub proof fn lemma_cap_end(r: Seq<char>, i: int)
    requires
        0 <= i <= r.len(),
    ensures
        i <= cap_end(r, i) <= r.len(),
    decreases r.len() - i,
{
    if i < r.len() && cap_letter(r[i]) {
        lemma_cap_end(r, i + 1);
    }
}

/// A replacement without `$` stands for itself.
pub proof fn lemma_no_dollar_expansion(r: Seq<char>)
    requires
        !r.contains('$'),
    ensures
        regex_expansion(r) == r,
    decreases r.len(),
{
    if r.len() > 0 {
        assert(r[0] != '$');
        assert forall|k: int| 0 <= k < r.skip(1).len() implies r.skip(1)[k] != '$' by {
            assert(r.skip(1)[k] == r[k + 1]);
        }
        lemma_no_dollar_expansion(r.skip(1));
        assert(seq![r[0]] + r.skip(1) =~= r);
    }
}

/// The first `{{return_type}}` in `hay`, as the text before and after it
/// (`Regex::find` with the pattern `\{\{return_type\}\}`).
/// Trusted: the regex crate documents `find` as returning the leftmost
/// match, which for this literal pattern is its first occurrence.
#[verifier::external_body]
fn find_return_type(hay: &str) -> (r: Option<(String, String)>)
    ensures
        match r {
            Some((a, b)) => find_pat(hay@, "{{return_type}}"@, 0) == a@.len() && hay@ == a@ + "{{return_type}}"@ + b@,
            None => find_pat(hay@, "{{return_type}}"@, 0) == -1,
        },
{
    let re = regex::Regex::new(r"\{\{return_type\}\}").unwrap();
    match re.find(hay) {
        Some(m) => Some((hay[..m.start()].to_string(), hay[m.end()..].to_string())),
        None => None,
    }
}

/// `Regex::replace` with the pattern `\{\{return_type\}\}`: the first
/// occurrence replaced by the expansion of `rep`.
/// Trusted: the regex crate documents `replace` as replacing the leftmost
/// match, and expands the replacement string as [`regex_expansion`] states
/// (`regex_automata::util::interpolate::string`).
#[verifier::external_body]
fn replace_return_type(hay: &str, rep: &str) -> (r: String)
    ensures
        ({
            let k = find_pat(hay@, "{{return_type}}"@, 0);
            if k < 0 {
                r@ == hay@
            } else {
                &&& r@ == hay@.take(k) + regex_expansion(rep@) + hay@.skip(k + "{{return_type}}"@.len())
            }
        }),
{
    let re = regex::Regex::new(r"\{\{return_type\}\}").unwrap();
    re.replace(hay, rep).into_owned()
}

/// The answer format put in place of `{{return_type}}`: the output's schema
/// and annotations, indented like the line it stands on, and the tag to wrap
/// the answer in (the output type's name).
pub open spec fn stage_return(p: Seq<char>, output: WAILField) -> Option<Seq<char>> {
    let k = find_pat(p, "{{return_type}}"@, 0);
    if k < 0 {
        Some(p)
    } else {
        let before = p.take(k);
        let after = p.skip(k + "{{return_type}}"@.len());
        let ls = last_newline(before) + 1;
        let indent = find_ws(before.skip(ls), false, 0);
        match (param_info(output), type_data_of(output.field_type)) {
            (Some(info), Some(td)) => {
                let rp = "\nAnswer using this schema:\n"@ + indent_lines(lines_spec(info), indent as nat)
                    + "\nWrap the value in <"@ + td.type_label@ + "> … </"@ + td.type_label@ + ">."@;
                Some(before + regex_expansion(rp) + after)
            },
            _ => None,
        }
    }
}

/// An argument as a JSON value for the renderer; object references are
/// followed at most `fuel` deep (`None` where one is missing or too deep).
pub open spec fn ta_json(a: TArg, objs: ObjsV, fuel: nat) -> Option<JVal>
    decreases fuel, a,
{
    match a {
        TArg::Object(map) => Some(JVal::Object(kv_strings(map))),
        TArg::String(s) => Some(JVal::Str(s)),
        TArg::Number(n) => Some(JVal::Int(n)),
        TArg::Float(t) => Some(JVal::Float(t)),
        TArg::TemplateArgRef(n) => Some(JVal::Str("$"@ + n)),
        TArg::TypeRef(t) => Some(JVal::Str(t)),
        TArg::Array(items) => match args_json(items, objs, fuel) {
            Some(vs) => Some(JVal::Array(vs)),
            None => None,
        },
        TArg::ObjectRef(o) => if fuel == 0 {
            None
        } else {
            match first_value(objs, o) {
                None => None,
                Some(fields) => match fields_json(fields, objs, (fuel - 1) as nat) {
                    Some(es) => Some(JVal::Object(es)),
                    None => None,
                },
            }
        },
    }
}

/// Named arguments as JSON strings of their text.
pub open spec fn kv_strings(es: Seq<(Seq<char>, TArg)>) -> Seq<(Seq<char>, JVal)>
    decreases es.len(),
{
    if es.len() == 0 {
        Seq::empty()
    } else {
        obj_insert(kv_strings(es.drop_last()), es.last().0, JVal::Str(arg_text(es.last().1)))
    }
}

pub open spec fn args_json(items: Seq<TArg>, objs: ObjsV, fuel: nat) -> Option<Seq<JVal>>
    decreases fuel, items,
{
    if items.len() == 0 {
        Some(Seq::empty())
    } else {
        match (args_json(items.drop_last(), objs, fuel), ta_json(items.last(), objs, fuel)) {
            (Some(a), Some(b)) => Some(a.push(b)),
            _ => None,
        }
    }
}

pub open spec fn fields_json(fs: Seq<(Seq<char>, TArg)>, objs: ObjsV, fuel: nat) -> Option<Seq<(Seq<char>, JVal)>>
    decreases fuel, fs,
{
    if fs.len() == 0 {
        Some(Seq::empty())
    } else {
        match (fields_json(fs.drop_last(), objs, fuel), ta_json(fs.last().1, objs, fuel)) {
            (Some(a), Some(b)) => Some(obj_insert(a, fs.last().0, b)),
            _ => None,
        }
    }
}

/// The renderer's variables: each argument as JSON.
pub open spec fn context_of(args: Option<Seq<(Seq<char>, TArg)>>, objs: ObjsV) -> Option<Seq<(Seq<char>, JVal)>> {
    match args {
        None => Some(Seq::empty()),
        Some(a) => fields_json(a, objs, objs.len()),
    }
}

/// Interpolating a template: inputs, then the answer format, then variables
/// and loops. `None` where this panics.
pub open spec fn interpolate_spec(
    inputs: Seq<WAILField>,
    output: WAILField,
    template: Seq<char>,
    args: Option<Seq<(Seq<char>, TArg)>>,
    objs: ObjsV,
) -> Option<Result<Seq<char>, Seq<char>>> {
    match stage_inputs(inputs, template, args, objs) {
        None => None,
        Some(Err(e)) => Some(Err(e)),
        Some(Ok(p)) => match stage_return(p, output) {
            None => None,
            Some(p2) => match context_of(args, objs) {
                None => None,
                Some(ctx) => match template_spec(p2) {
                    Err(k) => Some(Err("template-parse error at offset "@ + int_text(k))),
                    Ok((segs, _)) => {
                        let (t, r) = render_all(segs, ctx);
                        match r {
                            Ok(()) => Some(Ok(t)),
                            Err(e) => Some(Err(e)),
                        }
                    },
                },
            },
        },
    }
}


fn lookup_arg<'a>(es: &'a Vec<(String, TemplateArgument)>, k: &String) -> (r: Option<&'a TemplateArgument>)
    ensures
        match r {
            Some(a) => first_value(tentries_view(es@), k@) == Some(a@),
            None => first_value(tentries_view(es@), k@) is None,
        },
{
    let ghost w = tentries_view(es@);
    proof {
        lemma_tentries_view(es@);
        assert(w.take(0) =~= Seq::<(Seq<char>, TArg)>::empty());
    }
    let mut i: usize = 0;
    while i < es.len()
        invariant
            i <= es@.len(),
            w == tentries_view(es@),
            w.len() == es@.len(),
            forall|q: int| 0 <= q < es@.len() ==> #[trigger] w[q] == (es@[q].0@, targ_view(es@[q].1)),
            first_value(w.take(i as int), k@) is None,
        decreases es@.len() - i,
    {
        proof {
            assert(w.take(i + 1).drop_last() =~= w.take(i as int));
            assert(w.take(i + 1).last() == w[i as int]);
        }
        if es[i].0 == *k {
            proof {
                lemma_first_value_prefix(w, k@, i + 1);
            }
            return Some(&es[i].1);
        }
        i += 1;
    }
    assert(w.take(i as int) =~= w);
    None
}

/// A value found in a prefix is the value found in the whole.
proof fn lemma_first_value_prefix<V>(es: Seq<(Seq<char>, V)>, k: Seq<char>, i: int)
    requires
        0 <= i <= es.len(),
        first_value(es.take(i), k) is Some,
    ensures
        first_value(es, k) == first_value(es.take(i), k),
    decreases es.len() - i,
{
    if i == es.len() {
        assert(es.take(i) =~= es);
    } else {
        assert(es.take(i + 1).drop_last() =~= es.take(i));
        lemma_first_value_prefix(es, k, i + 1);
    }
}

fn lookup_obj<'a>(objs: &'a Vec<(String, WAILObjectInstantiation)>, k: &String) -> (r: Option<&'a WAILObjectInstantiation>)
    ensures
        match r {
            Some(o) => first_value(objs_view(objs@), k@) == Some(tentries_view(o.fields@)),
            None => first_value(objs_view(objs@), k@) is None,
        },
{
    let ghost w = objs_view(objs@);
    proof {
        assert(w.take(0) =~= Seq::<(Seq<char>, Seq<(Seq<char>, TArg)>)>::empty());
    }
    let mut i: usize = 0;
    while i < objs.len()
        invariant
            i <= objs@.len(),
            w == objs_view(objs@),
            first_value(w.take(i as int), k@) is None,
        decreases objs@.len() - i,
    {
        proof {
            assert(w.take(i + 1).drop_last() =~= w.take(i as int));
            assert(w.take(i + 1).last() == w[i as int]);
        }
        if objs[i].0 == *k {
            proof {
                lemma_first_value_prefix(w, k@, i + 1);
            }
            return Some(&objs[i].1);
        }
        i += 1;
    }
    assert(w.take(i as int) =~= w);
    None
}

fn make_placeholder(name: &str) -> (r: String)
    ensures
        r@ == placeholder(name@),
{
    let mut ph = String::new();
    push_str(&mut ph, "{{");
    push_str(&mut ph, name);
    push_str(&mut ph, "}}");
    ph
}

fn args_join_text(items: &Vec<TemplateArgument>) -> (r: String)
    ensures
        r@ == args_join(targs_view(items@)),
{
    let mut out = String::new();
    let ghost outer = TemplateArgument::Array(*items);
    proof {
        assert forall|k: int| 0 <= k < items@.len() implies decreases_to!(outer => items@[k]) by {
            assert(decreases_to!(outer => outer->Array_0));
            assert(decreases_to!(outer->Array_0 => items@));
            assert(decreases_to!(items@ => items@[k]));
        }
    }
    push_args_join(&mut out, items, Ghost(outer));
    out
}

fn kv_join_text(es: &Vec<(String, TemplateArgument)>) -> (r: String)
    ensures
        r@ == kv_join(tentries_view(es@)),
{
    let mut out = String::new();
    let ghost outer = TemplateArgument::Object(*es);
    proof {
        assert forall|k: int| 0 <= k < es@.len() implies decreases_to!(outer => es@[k].1) by {
            assert(decreases_to!(outer => outer->Object_0));
            assert(decreases_to!(outer->Object_0 => es@));
            assert(decreases_to!(es@ => es@[k]));
            assert(decreases_to!(es@[k] => es@[k].1));
        }
    }
    push_kv_join(&mut out, es, Ghost(outer));
    out
}

fn apply_field(p: String, f: &(String, TemplateArgument), o: &String, ph: &String) -> (r: Result<String, String>)
    ensures
        match r {
            Ok(x) => field_step((f.0@, f.1@), o@, ph@, p@) == Ok::<Seq<char>, Seq<char>>(x@),
            Err(e) => field_step((f.0@, f.1@), o@, ph@, p@) == Err::<Seq<char>, Seq<char>>(e@),
        },
{
    let mut fph = String::new();
    push_str(&mut fph, "{{");
    push_str(&mut fph, o.as_str());
    push_str(&mut fph, ".");
    push_str(&mut fph, f.0.as_str());
    push_str(&mut fph, "}}");
    match &f.1 {
        TemplateArgument::String(x) => Ok(replace_str(p.as_str(), fph.as_str(), x.as_str())),
        TemplateArgument::Number(n) => {
            let mut t = String::new();
            push_i64(&mut t, *n);
            Ok(replace_str(p.as_str(), fph.as_str(), t.as_str()))
        },
        TemplateArgument::Float(x) => Ok(replace_str(p.as_str(), fph.as_str(), x.as_str())),
        TemplateArgument::TypeRef(x) => Ok(replace_str(p.as_str(), fph.as_str(), x.as_str())),
        TemplateArgument::TemplateArgRef(x) => {
            let mut t = String::new();
            push_str(&mut t, "$");
            push_str(&mut t, x.as_str());
            Ok(replace_str(p.as_str(), fph.as_str(), t.as_str()))
        },
        TemplateArgument::Array(items) => {
            let t = args_join_text(items);
            Ok(replace_str(p.as_str(), ph.as_str(), t.as_str()))
        },
        TemplateArgument::ObjectRef(_) => Err(String::from_str("Nested object references are not supported")),
        TemplateArgument::Object(inner) => {
            let t = kv_join_text(inner);
            Ok(replace_str(p.as_str(), fph.as_str(), t.as_str()))
        },
    }
}

fn apply_arg(p: String, arg: &TemplateArgument, ph: &String, objs: &Vec<(String, WAILObjectInstantiation)>) -> (r: Result<String, String>)
    ensures
        match r {
            Ok(x) => arg_step(arg@, ph@, p@, objs_view(objs@)) == Ok::<Seq<char>, Seq<char>>(x@),
            Err(e) => arg_step(arg@, ph@, p@, objs_view(objs@)) == Err::<Seq<char>, Seq<char>>(e@),
        },
{
    match arg {
        TemplateArgument::String(x) => Ok(replace_str(p.as_str(), ph.as_str(), x.as_str())),
        TemplateArgument::Number(n) => {
            let mut t = String::new();
            push_i64(&mut t, *n);
            Ok(replace_str(p.as_str(), ph.as_str(), t.as_str()))
        },
        TemplateArgument::Float(x) => Ok(replace_str(p.as_str(), ph.as_str(), x.as_str())),
        TemplateArgument::TypeRef(x) => Ok(replace_str(p.as_str(), ph.as_str(), x.as_str())),
        TemplateArgument::TemplateArgRef(x) => {
            let mut t = String::new();
            push_str(&mut t, "$");
            push_str(&mut t, x.as_str());
            Ok(replace_str(p.as_str(), ph.as_str(), t.as_str()))
        },
        TemplateArgument::ObjectRef(o) => {
            let inst = match lookup_obj(objs, o) {
                Some(inst) => inst,
                None => {
                    let mut e = String::from_str("Object not found: ");
                    push_str(&mut e, o.as_str());
                    return Err(e);
                },
            };
            let fs = &inst.fields;
            let ghost w = tentries_view(fs@);
            proof {
                lemma_tentries_view(fs@);
                assert(w.take(0) =~= Seq::<(Seq<char>, TArg)>::empty());
            }
            let mut cur = p;
            let mut i: usize = 0;
            assert(arg@ == TArg::ObjectRef(o@));
            while i < fs.len()
                invariant
                    i <= fs@.len(),
                    w == tentries_view(fs@),
                    w.len() == fs@.len(),
                    forall|q: int| 0 <= q < fs@.len() ==> #[trigger] w[q] == (fs@[q].0@, targ_view(fs@[q].1)),
                    first_value(objs_view(objs@), o@) == Some(w),
                    arg@ == TArg::ObjectRef(o@),
                    obj_fields_step(w.take(i as int), o@, ph@, p@) == Ok::<Seq<char>, Seq<char>>(cur@),
                decreases fs@.len() - i,
            {
                proof {
                    assert(w.take(i + 1).drop_last() =~= w.take(i as int));
                    assert(w.take(i + 1).last() == w[i as int]);
                }
                let ghost c0 = cur@;
                assert(fs@[i as int].1@ == targ_view(fs@[i as int].1));
                match apply_field(cur, &fs[i], o, ph) {
                    Ok(x) => {
                        cur = x;
                    },
                    Err(e) => {
                        proof {
                            assert(field_step(w[i as int], o@, ph@, c0) == Err::<Seq<char>, Seq<char>>(e@));
                            assert(obj_fields_step(w.take(i as int), o@, ph@, p@) == Ok::<Seq<char>, Seq<char>>(c0));
                            assert(obj_fields_step(w.take(i + 1), o@, ph@, p@) == Err::<Seq<char>, Seq<char>>(e@));
                            lemma_fields_step_stop(w, o@, ph@, p@, i + 1);
                            assert(arg@ == TArg::ObjectRef(o@));
                            assert(arg_step(arg@, ph@, p@, objs_view(objs@)) == obj_fields_step(w, o@, ph@, p@));
                        }
                        return Err(e);
                    },
                }
                i += 1;
            }
            assert(w.take(i as int) =~= w);
            Ok(cur)
        },
        TemplateArgument::Array(items) => {
            let t = args_join_text(items);
            Ok(replace_str(p.as_str(), ph.as_str(), t.as_str()))
        },
        TemplateArgument::Object(es) => {
            let t = kv_join_text(es);
            Ok(replace_str(p.as_str(), ph.as_str(), t.as_str()))
        },
    }
}

proof fn lemma_fields_step_stop(fs: Seq<(Seq<char>, TArg)>, o: Seq<char>, ph: Seq<char>, p: Seq<char>, i: int)
    requires
        0 <= i <= fs.len(),
        obj_fields_step(fs.take(i), o, ph, p) is Err,
    ensures
        obj_fields_step(fs, o, ph, p) == obj_fields_step(fs.take(i), o, ph, p),
    decreases fs.len() - i,
{
    if i == fs.len() {
        assert(fs.take(i) =~= fs);
    } else {
        assert(fs.take(i + 1).drop_last() =~= fs.take(i));
        lemma_fields_step_stop(fs, o, ph, p, i + 1);
    }
}

proof fn lemma_inputs_stop(
    inputs: Seq<WAILField>,
    p: Seq<char>,
    args: Option<Seq<(Seq<char>, TArg)>>,
    objs: ObjsV,
    i: int,
)
    requires
        0 <= i <= inputs.len(),
        !(stage_inputs(inputs.take(i), p, args, objs) matches Some(Ok(_))),
    ensures
        stage_inputs(inputs, p, args, objs) == stage_inputs(inputs.take(i), p, args, objs),
    decreases inputs.len() - i,
{
    if i == inputs.len() {
        assert(inputs.take(i) =~= inputs);
    } else {
        assert(inputs.take(i + 1).drop_last() =~= inputs.take(i));
        lemma_inputs_stop(inputs, p, args, objs, i + 1);
    }
}


proof fn lemma_args_json_prefix(items: Seq<TArg>, objs: ObjsV, fuel: nat, i: int)
    requires
        0 <= i <= items.len(),
        args_json(items, objs, fuel) is Some,
    ensures
        args_json(items.take(i), objs, fuel) is Some,
    decreases items.len() - i,
{
    if i == items.len() {
        assert(items.take(i) =~= items);
    } else {
        lemma_args_json_prefix(items, objs, fuel, i + 1);
        assert(items.take(i + 1).drop_last() =~= items.take(i));
    }
}

proof fn lemma_fields_json_prefix(fs: Seq<(Seq<char>, TArg)>, objs: ObjsV, fuel: nat, i: int)
    requires
        0 <= i <= fs.len(),
        fields_json(fs, objs, fuel) is Some,
    ensures
        fields_json(fs.take(i), objs, fuel) is Some,
    decreases fs.len() - i,
{
    if i == fs.len() {
        assert(fs.take(i) =~= fs);
    } else {
        lemma_fields_json_prefix(fs, objs, fuel, i + 1);
        assert(fs.take(i + 1).drop_last() =~= fs.take(i));
    }
}

/// Named arguments as JSON (see [`fields_json`]).
fn fields_to_json(fs: &Vec<(String, TemplateArgument)>, objs: &Vec<(String, WAILObjectInstantiation)>, fuel: usize) -> (r: Vec<(String, JsonValue)>)
    requires
        fields_json(tentries_view(fs@), objs_view(objs@), fuel as nat) is Some,
    ensures
        view_entries(r@) == fields_json(tentries_view(fs@), objs_view(objs@), fuel as nat)->Some_0,
    decreases fuel, 1int, *fs,
{
    let ghost w = tentries_view(fs@);
    let ghost ov = objs_view(objs@);
    proof {
        lemma_tentries_view(fs@);
        assert(w.take(0) =~= Seq::<(Seq<char>, TArg)>::empty());
    }
    let mut out: Vec<(String, JsonValue)> = Vec::new();
    let mut i: usize = 0;
    while i < fs.len()
        invariant
            i <= fs@.len(),
            w == tentries_view(fs@),
            ov == objs_view(objs@),
            w.len() == fs@.len(),
            forall|q: int| 0 <= q < fs@.len() ==> #[trigger] w[q] == (fs@[q].0@, targ_view(fs@[q].1)),
            fields_json(w, ov, fuel as nat) is Some,
            fields_json(w.take(i as int), ov, fuel as nat) == Some(view_entries(out@)),
        decreases fs@.len() - i,
    {
        proof {
            lemma_fields_json_prefix(w, ov, fuel as nat, i + 1);
            assert(w.take(i + 1).drop_last() =~= w.take(i as int));
            assert(w.take(i + 1).last() == w[i as int]);
        }
        let v = arg_json(&fs[i].1, objs, fuel);
        insert_entry(&mut out, fs[i].0.clone(), v);
        i += 1;
    }
    assert(w.take(i as int) =~= w);
    out
}

/// An argument as JSON (see [`ta_json`]).
fn arg_json(a: &TemplateArgument, objs: &Vec<(String, WAILObjectInstantiation)>, fuel: usize) -> (r: JsonValue)
    requires
        ta_json(a@, objs_view(objs@), fuel as nat) is Some,
    ensures
        r@ == ta_json(a@, objs_view(objs@), fuel as nat)->Some_0,
    decreases fuel, 0int, *a,
{
    let ghost ov = objs_view(objs@);
    match a {
        TemplateArgument::Object(map) => {
            let ghost w = tentries_view(map@);
            proof {
                lemma_tentries_view(map@);
                assert(w.take(0) =~= Seq::<(Seq<char>, TArg)>::empty());
            }
            let mut out: Vec<(String, JsonValue)> = Vec::new();
            let mut i: usize = 0;
            while i < map.len()
                invariant
                    i <= map@.len(),
                    w == tentries_view(map@),
                    w.len() == map@.len(),
                    forall|q: int| 0 <= q < map@.len() ==> #[trigger] w[q] == (map@[q].0@, targ_view(map@[q].1)),
                    view_entries(out@) == kv_strings(w.take(i as int)),
                decreases map@.len() - i,
            {
                proof {
                    assert(w.take(i + 1).drop_last() =~= w.take(i as int));
                    assert(w.take(i + 1).last() == w[i as int]);
                }
                let t = map[i].1.to_string();
                insert_entry(&mut out, map[i].0.clone(), JsonValue::String(t));
                i += 1;
            }
            assert(w.take(i as int) =~= w);
            JsonValue::Object(out)
        },
        TemplateArgument::String(x) => JsonValue::String(x.clone()),
        TemplateArgument::Number(n) => JsonValue::Number(crate::json_types::Number::Integer(*n)),
        TemplateArgument::Float(x) => JsonValue::Number(crate::json_types::Number::Float(x.clone())),
        TemplateArgument::TemplateArgRef(x) => {
            let mut t = String::from_str("$");
            push_str(&mut t, x.as_str());
            JsonValue::String(t)
        },
        TemplateArgument::TypeRef(x) => JsonValue::String(x.clone()),
        TemplateArgument::Array(items) => {
            let ghost w = targs_view(items@);
            proof {
                lemma_targs_view(items@);
                assert(w.take(0) =~= Seq::<TArg>::empty());
                assert forall|k: int| 0 <= k < items@.len() implies decreases_to!(*a => items@[k]) by {
                    assert(decreases_to!(*a => *items));
                    assert(decreases_to!(*items => items@));
                    assert(decreases_to!(items@ => items@[k]));
                }
            }
            let mut out: Vec<JsonValue> = Vec::new();
            let mut i: usize = 0;
            while i < items.len()
                invariant
                    i <= items@.len(),
                    w == targs_view(items@),
                    ov == objs_view(objs@),
                    w.len() == items@.len(),
                    forall|q: int| 0 <= q < items@.len() ==> #[trigger] w[q] == targ_view(items@[q]),
                    forall|q: int| 0 <= q < items@.len() ==> decreases_to!(*a => items@[q]),
                    args_json(w, ov, fuel as nat) is Some,
                    args_json(w.take(i as int), ov, fuel as nat) == Some(view_values(out@)),
                decreases items@.len() - i,
            {
                proof {
                    lemma_args_json_prefix(w, ov, fuel as nat, i + 1);
                    assert(w.take(i + 1).drop_last() =~= w.take(i as int));
                    assert(w.take(i + 1).last() == w[i as int]);
                }
                let v = arg_json(&items[i], objs, fuel);
                let ghost before = out@;
                out.push(v);
                proof {
                    crate::json_types::lemma_view_values_push(before, v);
                }
                i += 1;
            }
            assert(w.take(i as int) =~= w);
            JsonValue::Array(out)
        },
        TemplateArgument::ObjectRef(o) => {
            let inst = match lookup_obj(objs, o) {
                Some(inst) => inst,
                None => {
                    return vstd::pervasive::unreached();
                },
            };
            let fs = fields_to_json(&inst.fields, objs, fuel - 1);
            JsonValue::Object(fs)
        },
    }
}

pub open spec fn args_view(o: Option<&Vec<(String, TemplateArgument)>>) -> Option<Seq<(Seq<char>, TArg)>> {
    match o {
        Some(v) => Some(tentries_view(v@)),
        None => None,
    }
}


proof fn lemma_last_newline(s: Seq<char>)
    ensures
        -1 <= last_newline(s) < s.len(),
    decreases s.len(),
{
    if s.len() > 0 {
        lemma_last_newline(s.drop_last());
    }
}

fn last_newline_in(cs: &[char]) -> (r: usize)
    ensures
        r as int == last_newline(cs@) + 1,
        r <= cs@.len(),
{
    proof {
        lemma_last_newline(cs@);
        assert(cs@.take(cs@.len() as int) =~= cs@);
    }
    let mut k = cs.len();
    while k > 0 && cs[k - 1] != '\n'
        invariant
            k <= cs@.len(),
            last_newline(cs@) == last_newline(cs@.take(k as int)),
        decreases k,
    {
        proof {
            assert(cs@.take(k as int).drop_last() =~= cs@.take(k - 1));
        }
        k -= 1;
    }
    proof {
        if k == 0 {
            assert(cs@.take(0).len() == 0);
        } else {
            assert(cs@.take(k as int).last() == '\n');
        }
    }
    k
}

impl WAILTemplateDef {
    /// Fills in the prompt: each input's placeholder gets its argument (or,
    /// without arguments, its schema), `{{return_type}}` gets the answer
    /// format, then `{{path}}` variables and `{{#each}}` loops are rendered
    /// from the arguments.
    pub fn interpolate_prompt(
        &self,
        arguments: Option<&Vec<(String, TemplateArgument)>>,
        object_instances: &Vec<(String, WAILObjectInstantiation)>,
    ) -> (r: Result<String, String>)
        requires
            interpolate_spec(
                self.inputs@,
                self.output,
                self.prompt_template@,
                args_view(arguments),
                objs_view(object_instances@),
            ) is Some,
        ensures
            ({
                let res = interpolate_spec(
                    self.inputs@,
                    self.output,
                    self.prompt_template@,
                    args_view(arguments),
                    objs_view(object_instances@),
                );
                match r {
                    Ok(p) => res == Some(Ok::<Seq<char>, Seq<char>>(p@)),
                    Err(e) => res == Some(Err::<Seq<char>, Seq<char>>(e@)),
                }
            }),
    {
        let ghost av = args_view(arguments);
        let ghost ov = objs_view(object_instances@);
        let ghost ins = self.inputs@;
        let ghost t0 = self.prompt_template@;
        let mut prompt = self.prompt_template.clone();
        proof {
            assert(ins.take(0) =~= Seq::<WAILField>::empty());
            if !(stage_inputs(ins, t0, av, ov) is Some) {
                assert(false);
            }
        }
        let mut i: usize = 0;
        while i < self.inputs.len()
            invariant
                i <= ins.len(),
                ins == self.inputs@,
                av == args_view(arguments),
                ov == objs_view(object_instances@),
                t0 == self.prompt_template@,
                stage_inputs(ins, t0, av, ov) is Some,
                stage_inputs(ins.take(i as int), t0, av, ov) == Some(Ok::<Seq<char>, Seq<char>>(prompt@)),
                interpolate_spec(ins, self.output, t0, av, ov) is Some,
            decreases ins.len() - i,
        {
            let input = &self.inputs[i];
            proof {
                assert(ins.take(i + 1).drop_last() =~= ins.take(i as int));
                assert(ins.take(i + 1).last() == ins[i as int]);
                if !(stage_inputs(ins.take(i + 1), t0, av, ov) matches Some(Ok(_))) {
                    lemma_inputs_stop(ins, t0, av, ov, i + 1);
                }
            }
            let ph = make_placeholder(input.name.as_str());
            if !contains_str(prompt.as_str(), ph.as_str()) && lookup_obj(object_instances, &input.name).is_none() {
                let mut e = String::from_str("Missing placeholder for input: ");
                push_str(&mut e, input.name.as_str());
                proof {
                    lemma_inputs_stop(ins, t0, av, ov, i + 1);
                }
                return Err(e);
            }
            match arguments {
                Some(a) => {
                    let arg = match lookup_arg(a, &input.name) {
                        Some(arg) => arg,
                        None => {
                            return vstd::pervasive::unreached();
                        },
                    };
                    match apply_arg(prompt, arg, &ph, object_instances) {
                        Ok(p2) => {
                            prompt = p2;
                        },
                        Err(e) => {
                            proof {
                                lemma_inputs_stop(ins, t0, av, ov, i + 1);
                            }
                            return Err(e);
                        },
                    }
                },
                None => {
                    let mut info = input.field_type.to_schema();
                    push_annotation_info(&mut info, &input.annotations);
                    prompt = replace_str(prompt.as_str(), ph.as_str(), info.as_str());
                },
            }
            i += 1;
        }
        proof {
            assert(ins.take(i as int) =~= ins);
        }
        // the answer format
        let ghost p1 = prompt@;
        match find_return_type(prompt.as_str()) {
            None => {},
            Some((before, _after)) => {
                let bc = chars_of(before.as_str());
                let ls = last_newline_in(bc.as_slice());
                let rest = slice_subrange(bc.as_slice(), ls, bc.len());
                proof {
                    assert(before@ =~= p1.take(find_pat(p1, "{{return_type}}"@, 0)));
                    assert(rest@ =~= before@.skip(ls as int));
                }
                let indent = crate::text::find_space(rest, false, 0);
                proof {
                    crate::text::lemma_find_ws(rest@, false, 0);
                }
                let mut info = self.output.field_type.to_schema();
                push_annotation_info(&mut info, &self.output.annotations);
                let ic = chars_of(info.as_str());
                let mut rp = String::from_str("\nAnswer using this schema:\n");
                push_indented(&mut rp, ic.as_slice(), indent);
                push_str(&mut rp, "\nWrap the value in <");
                let tag = self.output.field_type.type_label();
                push_str(&mut rp, tag.as_str());
                push_str(&mut rp, "> … </");
                push_str(&mut rp, tag.as_str());
                push_str(&mut rp, ">.");
                prompt = replace_return_type(prompt.as_str(), rp.as_str());
            },
        }
        assert(stage_return(p1, self.output) == Some(prompt@));
        // variables and loops
        let ctx: Vec<(String, JsonValue)> = match arguments {
            None => Vec::new(),
            Some(a) => fields_to_json(a, object_instances, object_instances.len()),
        };
        proof {
            if arguments is None {
                assert(view_entries(ctx@) =~= Seq::<(Seq<char>, JVal)>::empty());
            }
        }
        match parse_template(prompt.as_str()) {
            Err(te) => {
                let mut e = String::from_str("template-parse error at offset ");
                crate::text::push_u64(&mut e, te.at as u64);
                Err(e)
            },
            Ok((_, segs)) => {
                let mut rendered = String::new();
                match render_segments(segs.as_slice(), &mut rendered, &ctx) {
                    Ok(()) => {
                        assert(rendered@ =~= Seq::<char>::empty() + rendered@);
                        Ok(rendered)
                    },
                    Err(e) => Err(e),
                }
            },
        }
    }
}

} // verus!
