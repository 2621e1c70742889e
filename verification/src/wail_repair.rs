//! Repairing a JSON value along the path of a validation error: the path says
//! where the value failed its schema, and each step either descends or
//! coerces the value found there.
use crate::json_parser::{err_view, ErrV};
use crate::json_types::{
    clone_value, find_key, insert_entry, json_text, key_pos, lemma_key_pos, lemma_view_entries_len,
    lemma_view_values_len, obj_insert, view_entries, view_values, JVal, JsonError, JsonValue, Number,
};
use crate::parser_types::{digits_value, is_digit};
use crate::text::{chars_of, nat_text, push_str, push_u64};
use crate::types::{
    lower_of, str_to_lower, type_data_of, verr_list_view, verr_view, JsonValidationError, PathSegment, VErr,
    WAILField, WAILType,
};
use crate::wail_parser::{i64_of_digits, parse_i64_chars, parse_i64_spec};
use vstd::prelude::*;
use vstd::slice::slice_subrange;
use vstd::string::StringExecFns;

verus! {

/// Mathematical value of a [`PathSegment`].
pub enum SegV {
    Root(Seq<char>, Option<Seq<char>>),
    Field(Seq<char>),
    ArrayIndex(int),
    UnionType(Seq<char>, Seq<(Seq<char>, VErr)>),
    MissingMetaType,
    ExpectedType(Option<Seq<char>>, Seq<char>),
}

pub open spec fn opt_text(o: Option<String>) -> Option<Seq<char>> {
    match o {
        Some(s) => Some(s@),
        None => None,
    }
}

pub open spec fn seg_view(p: PathSegment) -> SegV {
    match p {
        PathSegment::Root((t, v)) => SegV::Root(t@, opt_text(v)),
        PathSegment::Field(f) => SegV::Field(f@),
        PathSegment::ArrayIndex(i) => SegV::ArrayIndex(i as int),
        PathSegment::UnionType(f, es) => SegV::UnionType(f@, verr_list_view(es@)),
        PathSegment::MissingMetaType => SegV::MissingMetaType,
        PathSegment::ExpectedType(o, e) => SegV::ExpectedType(opt_text(o), e@),
    }
}

pub open spec fn segs_view(p: Seq<PathSegment>) -> Seq<SegV> {
    p.map_values(|s: PathSegment| seg_view(s))
}

/// The path to the place a validation error is about.
pub open spec fn loc_spec(e: VErr) -> Seq<SegV>
    decreases e,
{
    match e {
        VErr::ObjectMissingMetaType => seq![SegV::MissingMetaType],
        VErr::ObjectNestedTypeValidation(f, n) => seq![SegV::Field(f)] + loc_spec(*n),
        VErr::ArrayElementTypeError(i, n) => seq![SegV::ArrayIndex(i)] + loc_spec(*n),
        VErr::NotMemberOfUnion(f, es) => seq![SegV::UnionType(f, es)],
        VErr::ObjectMissingRequiredField(f) => seq![SegV::Field(f)],
        VErr::ExpectedTypeError(o, t) => seq![SegV::ExpectedType(o, t)],
        _ => Seq::empty(),
    }
}

// ───────────────────────── sizes, for termination ─────────────────────────

pub open spec fn err_size(e: VErr) -> nat
    decreases e,
{
    match e {
        VErr::ObjectNestedTypeValidation(_, n) => 1 + err_size(*n),
        VErr::ArrayElementTypeError(_, n) => 1 + err_size(*n),
        VErr::NotMemberOfUnion(_, es) => 1 + errs_size(es),
        _ => 1,
    }
}

pub open spec fn errs_size(es: Seq<(Seq<char>, VErr)>) -> nat
    decreases es,
{
    if es.len() == 0 {
        0
    } else {
        1 + err_size(es[0].1) + errs_size(es.drop_first())
    }
}

pub open spec fn seg_size(s: SegV) -> nat {
    match s {
        SegV::UnionType(_, es) => 1 + errs_size(es),
        _ => 1,
    }
}

pub open spec fn path_size(p: Seq<SegV>) -> nat
    decreases p.len(),
{
    if p.len() == 0 {
        0
    } else {
        seg_size(p[0]) + path_size(p.drop_first())
    }
}

pub proof fn lemma_path_size_add(a: Seq<SegV>, b: Seq<SegV>)
    ensures
        path_size(a + b) == path_size(a) + path_size(b),
    decreases a.len(),
{
    if a.len() == 0 {
        assert(a + b =~= b);
    } else {
        lemma_path_size_add(a.drop_first(), b);
        assert((a + b).drop_first() =~= a.drop_first() + b);
        assert((a + b)[0] == a[0]);
    }
}

pub proof fn lemma_loc_size(e: VErr)
    ensures
        path_size(loc_spec(e)) <= err_size(e),
    decreases e,
{
    match e {
        VErr::ObjectNestedTypeValidation(f, n) => {
            lemma_loc_size(*n);
            lemma_path_size_add(seq![SegV::Field(f)], loc_spec(*n));
            assert(seq![SegV::Field(f)].drop_first() =~= Seq::<SegV>::empty());
            assert(path_size(Seq::<SegV>::empty()) == 0);
            assert(path_size(seq![SegV::Field(f)]) == 1);
            assert(loc_spec(e) == seq![SegV::Field(f)] + loc_spec(*n));
            assert(err_size(e) == 1 + err_size(*n));
        },
        VErr::ArrayElementTypeError(i, n) => {
            lemma_loc_size(*n);
            lemma_path_size_add(seq![SegV::ArrayIndex(i)], loc_spec(*n));
            assert(seq![SegV::ArrayIndex(i)].drop_first() =~= Seq::<SegV>::empty());
            assert(path_size(Seq::<SegV>::empty()) == 0);
            assert(path_size(seq![SegV::ArrayIndex(i)]) == 1);
        },
        VErr::NotMemberOfUnion(f, es) => {
            assert(seq![SegV::UnionType(f, es)].drop_first() =~= Seq::<SegV>::empty());
        },
        VErr::ObjectMissingMetaType => {
            assert(seq![SegV::MissingMetaType].drop_first() =~= Seq::<SegV>::empty());
        },
        VErr::ObjectMissingRequiredField(f) => {
            assert(seq![SegV::Field(f)].drop_first() =~= Seq::<SegV>::empty());
        },
        VErr::ExpectedTypeError(o, t) => {
            assert(seq![SegV::ExpectedType(o, t)].drop_first() =~= Seq::<SegV>::empty());
        },
        _ => {},
    }
}

// ───────────────────────── inferring an object's type ─────────────────────────

pub open spec fn field_names(fs: Seq<WAILField>) -> Seq<Seq<char>> {
    fs.map_values(|f: WAILField| f.name@)
}

/// The names of the fields a type defines, if it defines any.
pub open spec fn defined_fields(t: WAILType) -> Option<Seq<Seq<char>>> {
    match type_data_of(t) {
        Some(td) => match td.field_definitions {
            Some(fs) => Some(field_names(fs@)),
            None => None,
        },
        None => None,
    }
}

/// Each registered definition: its key and the names of its fields.
pub open spec fn registry_fields(reg: Seq<(String, WAILField)>) -> Seq<(Seq<char>, Option<Seq<Seq<char>>>)> {
    reg.map_values(|e: (String, WAILField)| (e.0@, defined_fields(e.1.field_type)))
}

pub open spec fn obj_keys(es: Seq<(Seq<char>, JVal)>) -> Seq<Seq<char>> {
    es.map_values(|e: (Seq<char>, JVal)| e.0)
}

/// Every key is one of `names`, or `_type`.
pub open spec fn covers(names: Seq<Seq<char>>, keys: Seq<Seq<char>>) -> bool {
    forall|k: int| 0 <= k < keys.len() ==> names.contains(#[trigger] keys[k]) || keys[k] == "_type"@
}

/// The keys of the definitions whose fields account for all of `keys`.
pub open spec fn candidates(tf: Seq<(Seq<char>, Option<Seq<Seq<char>>>)>, keys: Seq<Seq<char>>) -> Seq<Seq<char>>
    decreases tf.len(),
{
    if tf.len() == 0 {
        Seq::empty()
    } else {
        let rest = candidates(tf.drop_last(), keys);
        match tf.last().1 {
            Some(ns) => if covers(ns, keys) {
                rest.push(tf.last().0)
            } else {
                rest
            },
            None => rest,
        }
    }
}

/// The one definition an object with `keys` can be, if exactly one fits.
pub open spec fn infer_spec(tf: Seq<(Seq<char>, Option<Seq<Seq<char>>>)>, keys: Seq<Seq<char>>) -> Option<Seq<char>> {
    let c = candidates(tf, keys);
    if c.len() == 1 {
        Some(c[0])
    } else {
        None
    }
}

// ───────────────────────── coercions ─────────────────────────

/// `str::parse::<i64>`: an optional sign, then decimal digits, in range.
pub open spec fn std_i64_spec(t: Seq<char>) -> Option<i64> {
    if t.len() > 0 && t[0] == '+' {
        i64_of_digits(false, t.drop_first())
    } else {
        parse_i64_spec(t)
    }
}

/// The value `v` coerced to the type named `expected`.
pub open spec fn convert_spec(v: JVal, expected: Seq<char>) -> Result<JVal, Seq<char>> {
    if expected == "Array"@ {
        Ok(JVal::Array(seq![v]))
    } else if expected == "String"@ {
        match v {
            JVal::Int(_) => Ok(JVal::Str(json_text(v))),
            JVal::Float(_) => Ok(JVal::Str(json_text(v))),
            JVal::Bool(b) => Ok(
                JVal::Str(
                    if b {
                        "true"@
                    } else {
                        "false"@
                    },
                ),
            ),
            JVal::Null => Ok(JVal::Str("null"@)),
            JVal::Str(_) => Ok(v),
            _ => Err("Cannot convert to string"@),
        }
    } else if expected == "Number"@ {
        match v {
            JVal::Str(s) => match std_i64_spec(s) {
                Some(n) => Ok(JVal::Int(n)),
                None => Err("String is not a valid number"@),
            },
            JVal::Bool(b) => Ok(
                JVal::Int(
                    if b {
                        1
                    } else {
                        0
                    },
                ),
            ),
            JVal::Int(_) => Ok(v),
            JVal::Float(_) => Ok(v),
            _ => Err("Cannot convert to number"@),
        }
    } else if expected == "Boolean"@ {
        match v {
            JVal::Str(s) => {
                let l = crate::types::lower_text(s);
                if l == "true"@ || l == "1"@ {
                    Ok(JVal::Bool(true))
                } else if l == "false"@ || l == "0"@ {
                    Ok(JVal::Bool(false))
                } else {
                    Err("String is not a valid boolean"@)
                }
            },
            JVal::Int(i) => if i == 0 {
                Ok(JVal::Bool(false))
            } else if i == 1 {
                Ok(JVal::Bool(true))
            } else {
                Err("Number is not 0 or 1"@)
            },
            JVal::Float(_) => Err("Cannot convert float to boolean"@),
            JVal::Bool(_) => Ok(v),
            _ => Err("Cannot convert to boolean"@),
        }
    } else if expected == "Null"@ {
        Ok(JVal::Null)
    } else {
        Err("Unrecognized type for conversion"@)
    }
}

// ───────────────────────── the repair ─────────────────────────

pub open spec fn missing_field_msg(f: Seq<char>) -> Seq<char> {
    "Missing field "@ + f + " from object."@
}

pub open spec fn non_object_msg(f: Seq<char>) -> Seq<char> {
    "Cannot access field "@ + f + " on non-object value"@
}

/// Descends into field `f` of `v` along `rest`; a missing field is left alone.
pub open spec fn into_field(
    tf: Seq<(Seq<char>, Option<Seq<Seq<char>>>)>,
    v: JVal,
    f: Seq<char>,
    rest: Seq<SegV>,
) -> Result<JVal, Seq<char>>
    decreases path_size(rest), 2int,
{
    match v {
        JVal::Object(es) => {
            let p = key_pos(es, f);
            if 0 <= p < es.len() {
                match fix_spec(tf, es[p].1, rest) {
                    Ok(w) => Ok(JVal::Object(es.update(p, (es[p].0, w)))),
                    Err(m) => Err(m),
                }
            } else {
                Ok(v)
            }
        },
        _ => Err(non_object_msg(f)),
    }
}

/// The value repaired along `path`, or the message of the step that failed.
pub open spec fn fix_spec(tf: Seq<(Seq<char>, Option<Seq<Seq<char>>>)>, v: JVal, path: Seq<SegV>) -> Result<
    JVal,
    Seq<char>,
>
    decreases path_size(path), 1int,
{
    if path.len() == 0 {
        Ok(v)
    } else {
        let rest = path.drop_first();
        match path[0] {
            SegV::MissingMetaType => match v {
                JVal::Object(es) => match infer_spec(tf, obj_keys(es)) {
                    Some(n) => Ok(JVal::Object(obj_insert(es, "_type"@, JVal::Str(n)))),
                    None => Err("Could not unambiguously determine type from fields"@),
                },
                _ => Err("Expected object"@),
            },
            SegV::ArrayIndex(idx) => match v {
                JVal::Array(a) => if 0 <= idx < a.len() {
                    match fix_spec(tf, a[idx], rest) {
                        Ok(w) => Ok(JVal::Array(a.update(idx, w))),
                        Err(m) => Err(m),
                    }
                } else {
                    Err("Expected element in array at index "@ + nat_text(idx as nat))
                },
                _ => Err("Expected to be array at this level."@),
            },
            SegV::Field(f) => if rest.len() == 0 {
                Err(missing_field_msg(f))
            } else {
                match v {
                    JVal::Object(es) => if 0 <= key_pos(es, f) < es.len() {
                        into_field(tf, v, f, rest)
                    } else {
                        Err(missing_field_msg(f))
                    },
                    _ => Err("Expected object"@),
                }
            },
            SegV::UnionType(_, es) => match v {
                JVal::Object(_) => union_try(tf, v, es),
                _ => Err("Expected object for union type"@),
            },
            SegV::ExpectedType(None, expected) => convert_spec(v, expected),
            SegV::ExpectedType(Some(f), _) => into_field(tf, v, f, rest),
            SegV::Root(_, Some(f)) => into_field(tf, v, f, rest),
            SegV::Root(_, None) => fix_spec(tf, v, rest),
        }
    }
}

/// Tries each union member's errors in turn; the first repair that succeeds wins.
pub open spec fn union_try(tf: Seq<(Seq<char>, Option<Seq<Seq<char>>>)>, v: JVal, es: Seq<(Seq<char>, VErr)>) -> Result<
    JVal,
    Seq<char>,
>
    decreases errs_size(es), 0int,
{
    if es.len() == 0 {
        Err("Could not coerce to any union type"@)
    } else {
        proof {
            lemma_loc_size(es[0].1);
        }
        match fix_spec(tf, v, loc_spec(es[0].1)) {
            Ok(w) => Ok(w),
            Err(_) => union_try(tf, v, es.drop_first()),
        }
    }
}


// ───────────────────────── executable ─────────────────────────

proof fn lemma_verr_list(s: Seq<(String, Box<JsonValidationError>)>)
    ensures
        verr_list_view(s).len() == s.len(),
        forall|k: int| 0 <= k < s.len() ==> #[trigger] verr_list_view(s)[k] == (s[k].0@, verr_view(*s[k].1)),
    decreases s.len(),
{
    if s.len() > 0 {
        lemma_verr_list(s.drop_last());
    }
}

proof fn lemma_segs_skip(p: Seq<PathSegment>, i: int)
    requires
        0 <= i < p.len(),
    ensures
        segs_view(p.skip(i)).len() > 0,
        segs_view(p.skip(i))[0] == seg_view(p[i]),
        segs_view(p.skip(i)).drop_first() == segs_view(p.skip(i + 1)),
{
    assert(segs_view(p.skip(i)).drop_first() =~= segs_view(p.skip(i + 1)));
}

proof fn lemma_values_update(s: Seq<JsonValue>, i: int, x: JsonValue)
    requires
        0 <= i < s.len(),
    ensures
        view_values(s.update(i, x)) == view_values(s).update(i, x@),
{
    lemma_view_values_len(s);
    lemma_view_values_len(s.update(i, x));
    assert(view_values(s.update(i, x)) =~= view_values(s).update(i, x@));
}

proof fn lemma_entries_update(s: Seq<(String, JsonValue)>, i: int, e: (String, JsonValue))
    requires
        0 <= i < s.len(),
    ensures
        view_entries(s.update(i, e)) == view_entries(s).update(i, (e.0@, e.1@)),
{
    lemma_view_entries_len(s);
    lemma_view_entries_len(s.update(i, e));
    assert(view_entries(s.update(i, e)) =~= view_entries(s).update(i, (e.0@, e.1@)));
}

fn text(lit: &str) -> (r: String)
    ensures
        r@ == lit@,
{
    String::from_str(lit)
}

fn str_is(s: &String, lit: &str) -> (r: bool)
    ensures
        r == (s@ == lit@),
{
    let t = String::from_str(lit);
    *s == t
}

fn clone_json_error(e: &JsonError) -> (r: JsonError)
    ensures
        err_view(r) == err_view(*e),
{
    match e {
        JsonError::DuplicateKey(k) => JsonError::DuplicateKey(k.clone()),
        JsonError::UnexpectedChar(c) => JsonError::UnexpectedChar(*c),
        JsonError::UnexpectedEof => JsonError::UnexpectedEof,
        JsonError::EOF => JsonError::EOF,
        JsonError::InvalidNumber(t) => JsonError::InvalidNumber(t.clone()),
        JsonError::InvalidEscape => JsonError::InvalidEscape,
        JsonError::InvalidKey => JsonError::InvalidKey,
        JsonError::Unbalanced => JsonError::Unbalanced,
        JsonError::TooLong => JsonError::TooLong,
    }
}

fn clone_opt_string(o: &Option<String>) -> (r: Option<String>)
    ensures
        opt_text(r) == opt_text(*o),
{
    match o {
        Some(s) => Some(s.clone()),
        None => None,
    }
}

/// A copy of a validation error with the same value.
pub fn clone_verr(e: &JsonValidationError) -> (r: JsonValidationError)
    ensures
        verr_view(r) == verr_view(*e),
    decreases e,
{
    match e {
        JsonValidationError::ObjectMissingAllFields => JsonValidationError::ObjectMissingAllFields,
        JsonValidationError::ObjectMissingMetaType => JsonValidationError::ObjectMissingMetaType,
        JsonValidationError::ObjectMissingRequiredField(n) => JsonValidationError::ObjectMissingRequiredField(n.clone()),
        JsonValidationError::ObjectNestedTypeValidation((n, b)) => {
            let inner = clone_verr(b);
            JsonValidationError::ObjectNestedTypeValidation((n.clone(), Box::new(inner)))
        },
        JsonValidationError::ArrayElementTypeError((i, b)) => {
            let inner = clone_verr(b);
            JsonValidationError::ArrayElementTypeError((*i, Box::new(inner)))
        },
        JsonValidationError::NotMemberOfUnion((n, es)) => {
            proof {
                assert forall|k: int| 0 <= k < es@.len() implies decreases_to!(*e => *es@[k].1) by {
                    assert(decreases_to!(*e => *es));
                    assert(decreases_to!(*es => es@));
                    assert(decreases_to!(es@ => es@[k]));
                    assert(decreases_to!(es@[k] => es@[k].1));
                }
            }
            let mut r: Vec<(String, Box<JsonValidationError>)> = Vec::new();
            let mut i: usize = 0;
            while i < es.len()
                invariant
                    i <= es@.len(),
                    verr_list_view(r@) == verr_list_view(es@.take(i as int)),
                    forall|k: int| 0 <= k < es@.len() ==> decreases_to!(*e => *es@[k].1),
                decreases es@.len() - i,
            {
                let inner = clone_verr(&es[i].1);
                let item = (es[i].0.clone(), Box::new(inner));
                proof {
                    assert(r@.push(item).drop_last() =~= r@);
                    assert(es@.take(i + 1).drop_last() =~= es@.take(i as int));
                }
                r.push(item);
                i += 1;
            }
            assert(es@.take(i as int) =~= es@);
            JsonValidationError::NotMemberOfUnion((n.clone(), r))
        },
        JsonValidationError::ExpectedTypeError((o, t)) => JsonValidationError::ExpectedTypeError(
            (clone_opt_string(o), t.clone()),
        ),
        JsonValidationError::TemplateNotFound(n) => JsonValidationError::TemplateNotFound(n.clone()),
        JsonValidationError::MissingTemplateResponse(n) => JsonValidationError::MissingTemplateResponse(n.clone()),
        JsonValidationError::ExpectedObject() => JsonValidationError::ExpectedObject(),
        JsonValidationError::JsonParserError(j) => JsonValidationError::JsonParserError(clone_json_error(j)),
    }
}

fn clone_verr_list(es: &Vec<(String, Box<JsonValidationError>)>) -> (r: Vec<(String, Box<JsonValidationError>)>)
    ensures
        verr_list_view(r@) == verr_list_view(es@),
{
    let mut r: Vec<(String, Box<JsonValidationError>)> = Vec::new();
    let mut i: usize = 0;
    while i < es.len()
        invariant
            i <= es@.len(),
            verr_list_view(r@) == verr_list_view(es@.take(i as int)),
        decreases es@.len() - i,
    {
        let inner = clone_verr(&es[i].1);
        let item = (es[i].0.clone(), Box::new(inner));
        proof {
            assert(r@.push(item).drop_last() =~= r@);
            assert(es@.take(i + 1).drop_last() =~= es@.take(i as int));
        }
        r.push(item);
        i += 1;
    }
    assert(es@.take(i as int) =~= es@);
    r
}

fn one_segment(s: PathSegment) -> (r: Vec<PathSegment>)
    ensures
        segs_view(r@) == seq![seg_view(s)],
{
    let mut v: Vec<PathSegment> = Vec::new();
    v.push(s);
    assert(segs_view(v@) =~= seq![seg_view(s)]);
    v
}

/// The path to the place a validation error is about.
pub fn error_location(error: &JsonValidationError) -> (r: Vec<PathSegment>)
    ensures
        segs_view(r@) == loc_spec(verr_view(*error)),
    decreases error,
{
    match error {
        JsonValidationError::ObjectMissingMetaType => one_segment(PathSegment::MissingMetaType),
        JsonValidationError::ObjectNestedTypeValidation((f, n)) => {
            let mut v = one_segment(PathSegment::Field(f.clone()));
            let mut rest = error_location(n);
            let ghost v0 = v@;
            let ghost r0 = rest@;
            v.append(&mut rest);
            assert(segs_view(v@) =~= segs_view(v0) + segs_view(r0));
            v
        },
        JsonValidationError::ArrayElementTypeError((i, n)) => {
            let mut v = one_segment(PathSegment::ArrayIndex(*i));
            let mut rest = error_location(n);
            let ghost v0 = v@;
            let ghost r0 = rest@;
            v.append(&mut rest);
            assert(segs_view(v@) =~= segs_view(v0) + segs_view(r0));
            v
        },
        JsonValidationError::NotMemberOfUnion((f, es)) => one_segment(PathSegment::UnionType(f.clone(), clone_verr_list(es))),
        JsonValidationError::ObjectMissingRequiredField(f) => one_segment(PathSegment::Field(f.clone())),
        JsonValidationError::ExpectedTypeError((o, t)) => one_segment(PathSegment::ExpectedType(clone_opt_string(o), t.clone())),
        _ => {
            let v: Vec<PathSegment> = Vec::new();
            assert(segs_view(v@) =~= Seq::<SegV>::empty());
            v
        },
    }
}

/// `str::parse::<i64>` on characters.
pub(crate) fn std_parse_i64(t: &[char]) -> (r: Option<i64>)
    ensures
        match r {
            Some(v) => std_i64_spec(t@) == Some(v),
            None => std_i64_spec(t@) is None,
        },
{
    if t.len() > 0 && t[0] == '+' {
        let rest = slice_subrange(t, 1, t.len());
        assert(rest@ =~= t@.drop_first());
        if rest.len() > 0 && rest[0] == '-' {
            assert(!is_digit(rest@[0]));
            return None;
        }
        parse_i64_chars(rest)
    } else {
        parse_i64_chars(t)
    }
}

fn names_cover(fs: &Vec<WAILField>, es: &Vec<(String, JsonValue)>) -> (r: bool)
    ensures
        r == covers(field_names(fs@), obj_keys(view_entries(es@))),
{
    proof {
        lemma_view_entries_len(es@);
    }
    let ghost names = field_names(fs@);
    let ghost keys = obj_keys(view_entries(es@));
    let mut q: usize = 0;
    while q < es.len()
        invariant
            q <= es@.len(),
            names == field_names(fs@),
            keys == obj_keys(view_entries(es@)),
            keys.len() == es@.len(),
            forall|k: int| 0 <= k < es@.len() ==> #[trigger] keys[k] == es@[k].0@,
            forall|k: int| 0 <= k < q ==> names.contains(#[trigger] keys[k]) || keys[k] == "_type"@,
        decreases es@.len() - q,
    {
        let mut found = str_is(&es[q].0, "_type");
        let mut m: usize = 0;
        while m < fs.len() && !found
            invariant
                m <= fs@.len(),
                q < es@.len(),
                names == field_names(fs@),
                found ==> (names.contains(es@[q as int].0@) || es@[q as int].0@ == "_type"@),
                !found ==> es@[q as int].0@ != "_type"@,
                !found ==> forall|j: int| 0 <= j < m ==> names[j] != es@[q as int].0@,
            decreases fs@.len() - m,
        {
            if fs[m].name == es[q].0 {
                assert(names[m as int] == fs@[m as int].name@);
                found = true;
            }
            m += 1;
        }
        if !found {
            assert(keys[q as int] == es@[q as int].0@);
            assert(!names.contains(keys[q as int])) by {
                if names.contains(keys[q as int]) {
                    let j = choose|j: int| 0 <= j < names.len() && names[j] == keys[q as int];
                    assert(names[j] != es@[q as int].0@);
                }
            }
            return false;
        }
        assert(keys[q as int] == es@[q as int].0@);
        q += 1;
    }
    true
}

/// The one registered definition whose fields account for all keys of `es`.
fn infer_type(reg: &Vec<(String, WAILField)>, es: &Vec<(String, JsonValue)>) -> (r: Option<String>)
    ensures
        opt_text(r) == infer_spec(registry_fields(reg@), obj_keys(view_entries(es@))),
{
    let ghost tf = registry_fields(reg@);
    let ghost keys = obj_keys(view_entries(es@));
    let mut found: Vec<String> = Vec::new();
    let mut j: usize = 0;
    while j < reg.len()
        invariant
            j <= reg@.len(),
            tf == registry_fields(reg@),
            keys == obj_keys(view_entries(es@)),
            found@.map_values(|s: String| s@) == candidates(tf.take(j as int), keys),
        decreases reg@.len() - j,
    {
        proof {
            assert(tf.take(j + 1).drop_last() =~= tf.take(j as int));
            assert(tf.take(j + 1).last() == tf[j as int]);
            assert(tf[j as int] == (reg@[j as int].0@, defined_fields(reg@[j as int].1.field_type)));
        }
        let defs = match &reg[j].1.field_type {
            WAILType::Value(_) => None,
            t => {
                let td = t.type_data();
                match &td.field_definitions {
                    Some(fs) => Some(fs),
                    None => None,
                }
            },
        };
        match defs {
            Some(fs) => {
                if names_cover(fs, es) {
                    let ghost f0 = found@;
                    found.push(reg[j].0.clone());
                    assert(found@.map_values(|s: String| s@) =~= f0.map_values(|s: String| s@).push(reg@[j as int].0@));
                }
            },
            None => {},
        }
        j += 1;
    }
    assert(tf.take(j as int) =~= tf);
    if found.len() == 1 {
        assert(found@.map_values(|s: String| s@)[0] == found@[0]@);
        Some(found[0].clone())
    } else {
        None
    }
}

/// Coerces `json` to the type named `expected`.
fn convert(json: JsonValue, expected: &String) -> (r: (JsonValue, Result<(), String>))
    ensures
        fix_done(convert_spec(json@, expected@), json@, r),
{
    if str_is(expected, "Array") {
        let mut a: Vec<JsonValue> = Vec::new();
        a.push(json);
        proof {
            lemma_view_values_len(a@);
            assert(view_values(a@) =~= seq![a@[0]@]);
        }
        (JsonValue::Array(a), Ok(()))
    } else if str_is(expected, "String") {
        match json {
            JsonValue::Number(n) => {
                let t = n.to_string();
                (JsonValue::String(t), Ok(()))
            },
            JsonValue::Boolean(b) => (JsonValue::String(
                if b {
                    text("true")
                } else {
                    text("false")
                },
            ), Ok(())),
            JsonValue::Null => (JsonValue::String(text("null")), Ok(())),
            JsonValue::String(s) => (JsonValue::String(s), Ok(())),
            other => (other, Err(text("Cannot convert to string"))),
        }
    } else if str_is(expected, "Number") {
        match json {
            JsonValue::String(s) => {
                let cs = chars_of(s.as_str());
                match std_parse_i64(cs.as_slice()) {
                    Some(n) => (JsonValue::Number(Number::Integer(n)), Ok(())),
                    None => (JsonValue::String(s), Err(text("String is not a valid number"))),
                }
            },
            JsonValue::Boolean(b) => (JsonValue::Number(Number::Integer(
                if b {
                    1
                } else {
                    0
                },
            )), Ok(())),
            JsonValue::Number(n) => (JsonValue::Number(n), Ok(())),
            other => (other, Err(text("Cannot convert to number"))),
        }
    } else if str_is(expected, "Boolean") {
        match json {
            JsonValue::String(s) => {
                let l = str_to_lower(s.as_str());
                if str_is(&l, "true") || str_is(&l, "1") {
                    (JsonValue::Boolean(true), Ok(()))
                } else if str_is(&l, "false") || str_is(&l, "0") {
                    (JsonValue::Boolean(false), Ok(()))
                } else {
                    (JsonValue::String(s), Err(text("String is not a valid boolean")))
                }
            },
            JsonValue::Number(n) => {
                match n {
                    Number::Integer(i) => {
                        if i == 0 {
                            (JsonValue::Boolean(false), Ok(()))
                        } else if i == 1 {
                            (JsonValue::Boolean(true), Ok(()))
                        } else {
                            (JsonValue::Number(Number::Integer(i)), Err(text("Number is not 0 or 1")))
                        }
                    },
                    Number::Float(t) => (JsonValue::Number(Number::Float(t)), Err(text("Cannot convert float to boolean"))),
                }
            },
            JsonValue::Boolean(b) => (JsonValue::Boolean(b), Ok(())),
            other => (other, Err(text("Cannot convert to boolean"))),
        }
    } else if str_is(expected, "Null") {
        (JsonValue::Null, Ok(()))
    } else {
        (json, Err(text("Unrecognized type for conversion")))
    }
}

/// What a repair step hands back: the repaired value on success, the value
/// untouched and the step's message on failure.
pub open spec fn fix_done(s: Result<JVal, Seq<char>>, before: JVal, r: (JsonValue, Result<(), String>)) -> bool {
    match s {
        Ok(w) => r.0@ == w && r.1 is Ok,
        Err(m) => r.0@ == before && (r.1 matches Err(e) && e@ == m),
    }
}

fn msg_with(head: &str, f: &String, tail: &str) -> (r: String)
    ensures
        r@ == head@ + f@ + tail@,
{
    let mut m = String::new();
    push_str(&mut m, head);
    push_str(&mut m, f.as_str());
    push_str(&mut m, tail);
    m
}

/// Repairs entry `p` of an object along `path[i..]`.
fn fix_entry(
    reg: &Vec<(String, WAILField)>,
    es: Vec<(String, JsonValue)>,
    p: usize,
    path: &[PathSegment],
    i: usize,
) -> (r: (Vec<(String, JsonValue)>, Result<(), String>))
    requires
        i <= path@.len(),
        p < es@.len(),
    ensures
        ({
            let ve = view_entries(es@);
            match fix_spec(registry_fields(reg@), ve[p as int].1, segs_view(path@.skip(i as int))) {
                Ok(w) => view_entries(r.0@) == ve.update(p as int, (ve[p as int].0, w)) && r.1 is Ok,
                Err(m) => view_entries(r.0@) == ve && (r.1 matches Err(e) && e@ == m),
            }
        }),
    decreases path_size(segs_view(path@.skip(i as int))), 2int,
{
    let mut es = es;
    let ghost e0 = es@;
    proof {
        lemma_view_entries_len(e0);
    }
    let (k, v) = es.remove(p);
    let ghost v0 = v;
    let (v2, res) = fix_value(reg, v, path, i);
    es.insert(p, (k, v2));
    proof {
        assert(es@ =~= e0.update(p as int, (k, v2)));
        lemma_entries_update(e0, p as int, (k, v2));
        assert(view_entries(e0)[p as int] == (k@, v0@));
        if res is Err {
            assert(view_entries(e0).update(p as int, (k@, v0@)) =~= view_entries(e0));
        }
    }
    (es, res)
}

/// Descends into field `f` of `json` along `path[i..]`; a missing field is left alone.
fn fix_in_field(reg: &Vec<(String, WAILField)>, json: JsonValue, f: &String, path: &[PathSegment], i: usize) -> (r: (
    JsonValue,
    Result<(), String>,
))
    requires
        i <= path@.len(),
    ensures
        fix_done(into_field(registry_fields(reg@), json@, f@, segs_view(path@.skip(i as int))), json@, r),
    decreases path_size(segs_view(path@.skip(i as int))), 3int,
{
    match json {
        JsonValue::Object(es) => {
            proof {
                lemma_view_entries_len(es@);
                lemma_key_pos(view_entries(es@), f@);
            }
            match find_key(&es, f.as_str()) {
                Some(p) => {
                    let (es2, res) = fix_entry(reg, es, p, path, i);
                    (JsonValue::Object(es2), res)
                },
                None => (JsonValue::Object(es), Ok(())),
            }
        },
        other => (other, Err(msg_with("Cannot access field ", f, " on non-object value"))),
    }
}

/// Repairs `json` along `path[i..]`.
fn fix_value(reg: &Vec<(String, WAILField)>, json: JsonValue, path: &[PathSegment], i: usize) -> (r: (
    JsonValue,
    Result<(), String>,
))
    requires
        i <= path@.len(),
    ensures
        fix_done(fix_spec(registry_fields(reg@), json@, segs_view(path@.skip(i as int))), json@, r),
    decreases path_size(segs_view(path@.skip(i as int))), 1int,
{
    if i >= path.len() {
        assert(segs_view(path@.skip(i as int)) =~= Seq::<SegV>::empty());
        return (json, Ok(()));
    }
    proof {
        lemma_segs_skip(path@, i as int);
    }
    let ghost tf = registry_fields(reg@);
    let ghost segs = segs_view(path@.skip(i as int));
    let ghost jv = json@;
    match &path[i] {
        PathSegment::MissingMetaType => match json {
            JsonValue::Object(es) => {
                let mut es = es;
                match infer_type(reg, &es) {
                    Some(n) => {
                        insert_entry(&mut es, text("_type"), JsonValue::String(n));
                        let r = (JsonValue::Object(es), Ok(()));
                        assert(fix_done(fix_spec(tf, jv, segs), jv, r));
                        r
                    },
                    None => {
                        let r = (JsonValue::Object(es), Err(text("Could not unambiguously determine type from fields")));
                        assert(fix_done(fix_spec(tf, jv, segs), jv, r));
                        r
                    },
                }
            },
            other => (other, Err(text("Expected object"))),
        },
        PathSegment::ArrayIndex(idx) => match json {
            JsonValue::Array(a) => {
                let mut a = a;
                let ghost a0 = a@;
                proof {
                    lemma_view_values_len(a0);
                }
                if *idx < a.len() {
                    let elem = a.remove(*idx);
                    let ghost el0 = elem;
                    let (fixed, res) = fix_value(reg, elem, path, i + 1);
                    a.insert(*idx, fixed);
                    proof {
                        assert(a@ =~= a0.update(*idx as int, fixed));
                        lemma_values_update(a0, *idx as int, fixed);
                        if res is Err {
                            assert(view_values(a0).update(*idx as int, el0@) =~= view_values(a0));
                        }
                    }
                    (JsonValue::Array(a), res)
                } else {
                    let mut m = text("Expected element in array at index ");
                    push_u64(&mut m, *idx as u64);
                    (JsonValue::Array(a), Err(m))
                }
            },
            other => (other, Err(text("Expected to be array at this level."))),
        },
        PathSegment::Field(f) => {
            if i + 1 >= path.len() {
                proof {
                    assert(segs_view(path@.skip(i + 1)) =~= Seq::<SegV>::empty());
                }
                return (json, Err(msg_with("Missing field ", f, " from object.")));
            }
            match json {
                JsonValue::Object(es) => {
                    proof {
                        lemma_view_entries_len(es@);
                        lemma_key_pos(view_entries(es@), f@);
                    }
                    match find_key(&es, f.as_str()) {
                        Some(p) => {
                            proof {
                                lemma_segs_skip(path@, i + 1);
                                assert(segs.drop_first().len() > 0);
                                assert(fix_spec(tf, jv, segs) == into_field(tf, jv, f@, segs.drop_first()));
                            }
                            let (es2, res) = fix_entry(reg, es, p, path, i + 1);
                            let r = (JsonValue::Object(es2), res);
                            assert(fix_done(fix_spec(tf, jv, segs), jv, r));
                            r
                        },
                        None => {
                            let r = (JsonValue::Object(es), Err(msg_with("Missing field ", f, " from object.")));
                            assert(fix_done(fix_spec(tf, jv, segs), jv, r));
                            r
                        },
                    }
                },
                other => (other, Err(text("Expected object"))),
            }
        },
        PathSegment::UnionType(_, errs) => match json {
            JsonValue::Object(es) => {
                proof {
                    lemma_verr_list(errs@);
                    assert(verr_list_view(errs@).skip(0) =~= verr_list_view(errs@));
                }
                let r = fix_union(reg, JsonValue::Object(es), errs, 0);
                assert(fix_done(fix_spec(tf, jv, segs), jv, r));
                r
            },
            other => (other, Err(text("Expected object for union type"))),
        },
        PathSegment::ExpectedType(field, expected) => match field {
            None => convert(json, expected),
            Some(f) => fix_in_field(reg, json, f, path, i + 1),
        },
        PathSegment::Root((_, variable)) => match variable {
            Some(f) => fix_in_field(reg, json, f, path, i + 1),
            None => fix_value(reg, json, path, i + 1),
        },
    }
}

/// Tries the union members' errors from `k` on; the first repair that succeeds wins.
fn fix_union(
    reg: &Vec<(String, WAILField)>,
    json: JsonValue,
    errs: &Vec<(String, Box<JsonValidationError>)>,
    k: usize,
) -> (r: (JsonValue, Result<(), String>))
    requires
        k <= errs@.len(),
    ensures
        fix_done(union_try(registry_fields(reg@), json@, verr_list_view(errs@).skip(k as int)), json@, r),
    decreases errs_size(verr_list_view(errs@).skip(k as int)), 0int,
{
    proof {
        lemma_verr_list(errs@);
    }
    let ghost l = verr_list_view(errs@).skip(k as int);
    if k >= errs.len() {
        assert(l.len() == 0);
        return (json, Err(text("Could not coerce to any union type")));
    }
    proof {
        assert(l[0] == (errs@[k as int].0@, verr_view(*errs@[k as int].1)));
        assert(l.drop_first() =~= verr_list_view(errs@).skip(k + 1));
        lemma_loc_size(l[0].1);
    }
    let test = clone_value(&json);
    let loc = error_location(&errs[k].1);
    proof {
        assert(loc@.skip(0) =~= loc@);
    }
    let (t2, res) = fix_value(reg, test, loc.as_slice(), 0);
    match res {
        Ok(()) => (t2, Ok(())),
        Err(_) => fix_union(reg, json, errs, k + 1),
    }
}

/// Repairs `json` in place along `path`: descends through fields, array
/// elements and roots, and coerces or completes the value found at the end.
/// On failure `json` is left as it was and the failing step's message is
/// returned.
pub fn fix_json_value(reg: &Vec<(String, WAILField)>, json: &mut JsonValue, path: &[PathSegment]) -> (r: Result<
    (),
    String,
>)
    ensures
        match fix_spec(registry_fields(reg@), old(json)@, segs_view(path@)) {
            Ok(w) => final(json)@ == w && r is Ok,
            Err(m) => final(json)@ == old(json)@ && (r matches Err(e) && e@ == m),
        },
{
    let mut taken = JsonValue::Null;
    std::mem::swap(json, &mut taken);
    assert(path@.skip(0) =~= path@);
    let (v, res) = fix_value(reg, taken, path, 0);
    *json = v;
    res
}

} // verus!
