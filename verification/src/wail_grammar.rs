//! The WAIL definition grammar: objects, unions and templates read from a
//! token stream into WAIL types, and the parser state that collects them.
use crate::json_types::{clone_value, JVal, JsonValue};
use crate::parser_types::{targ_view, tentries_view, TArg, TemplateArgument, WAILObjectInstantiation, WAILTemplateCall, WAILTemplateDef};
use crate::types::{verr_view, JsonValidationError, PathSegment};
use crate::wail_repair::{error_location, fix_spec, loc_spec, registry_fields, segs_view};
use crate::types::{
    WAILAnnotation, WAILArray, WAILBoolean, WAILCompositeType, WAILField, WAILFloat, WAILInteger, WAILNumber,
    WAILObject, WAILSimpleType, WAILString, WAILType, WAILTypeData, WAILUnion, WAILValue,
};
use crate::text::{chars_of, int_text, nat_text, push_i64, push_str, push_u64};
use vstd::string::StringExecFns;
use crate::wail_parser::{
    adjust_indentation, adjust_spec, advance_over, resolve_spec, tok_text, token_spec, ImportChain, Location, Token, TokV,
    Tokenizer, ValidationError, ValidationWarning, WAILFileType, WAILImport, WAILParseError,
};
use vstd::prelude::*;

verus! {

// ───────────────────────── views of WAIL types ─────────────────────────

pub enum AnnV {
    Description(Seq<char>),
    Example(Seq<char>),
    Validation(Seq<char>),
    Format(Seq<char>),
    Important(Seq<char>),
    Context(Seq<char>),
    Default(Seq<char>),
    Field(Seq<char>, Seq<AnnV>),
}

pub open spec fn ann_view(a: WAILAnnotation) -> AnnV
    decreases a,
{
    match a {
        WAILAnnotation::Description(s) => AnnV::Description(s@),
        WAILAnnotation::Example(s) => AnnV::Example(s@),
        WAILAnnotation::Validation(s) => AnnV::Validation(s@),
        WAILAnnotation::Format(s) => AnnV::Format(s@),
        WAILAnnotation::Important(s) => AnnV::Important(s@),
        WAILAnnotation::Context(s) => AnnV::Context(s@),
        WAILAnnotation::Default(s) => AnnV::Default(s@),
        WAILAnnotation::Field { name, annotations } => AnnV::Field(name@, anns_view(annotations@)),
    }
}

pub open spec fn anns_view(s: Seq<WAILAnnotation>) -> Seq<AnnV>
    decreases s,
{
    if s.len() == 0 {
        Seq::empty()
    } else {
        anns_view(s.drop_last()).push(ann_view(s.last()))
    }
}

pub enum ValV {
    Str(Seq<char>),
    Num(i64),
    Float(Seq<char>),
    TypeRef(Seq<char>),
}

/// Mathematical value of a [`WAILTypeData`].
pub struct TdV {
    pub json: JVal,
    pub label: Seq<char>,
    pub fields: Option<Seq<FieldV>>,
    pub elem: Option<Box<TyV>>,
}

/// Mathematical value of a [`WAILType`].
pub enum TyV {
    Str(Seq<char>, TdV),
    Int(u64, TdV),
    Float(Seq<char>, TdV),
    Bool(Seq<char>, TdV),
    Obj(Seq<(Seq<char>, TdV, TyV)>, TdV),
    Arr(Seq<TyV>, TdV),
    Union(Seq<FieldV>, TdV),
    Val(ValV),
}

/// Mathematical value of a [`WAILField`].
pub struct FieldV {
    pub name: Seq<char>,
    pub ty: TyV,
    pub anns: Seq<AnnV>,
}

pub open spec fn val_view(v: WAILValue) -> ValV {
    match v {
        WAILValue::String(s) => ValV::Str(s@),
        WAILValue::Number(n) => ValV::Num(n),
        WAILValue::Float(s) => ValV::Float(s@),
        WAILValue::TypeRef(s) => ValV::TypeRef(s@),
    }
}

pub open spec fn td_view(d: WAILTypeData) -> TdV
    decreases d,
{
    TdV {
        json: d.json_type@,
        label: d.type_label@,
        fields: match d.field_definitions {
            Some(fs) => Some(fields_view(fs@)),
            None => None,
        },
        elem: match d.element_type {
            Some(b) => Some(Box::new(ty_view(*b))),
            None => None,
        },
    }
}

pub open spec fn ty_view(t: WAILType) -> TyV
    decreases t,
{
    match t {
        WAILType::Simple(WAILSimpleType::String(x)) => TyV::Str(x.value@, td_view(x.type_data)),
        WAILType::Simple(WAILSimpleType::Number(WAILNumber::Integer(x))) => TyV::Int(x.value, td_view(x.type_data)),
        WAILType::Simple(WAILSimpleType::Number(WAILNumber::Float(x))) => TyV::Float(x.value@, td_view(x.type_data)),
        WAILType::Simple(WAILSimpleType::Boolean(x)) => TyV::Bool(x.value@, td_view(x.type_data)),
        WAILType::Composite(WAILCompositeType::Object(x)) => TyV::Obj(members_view(x.value@), td_view(x.type_data)),
        WAILType::Composite(WAILCompositeType::Array(x)) => TyV::Arr(tys_view(x.values@), td_view(x.type_data)),
        WAILType::Composite(WAILCompositeType::Union(x)) => TyV::Union(fields_view(x.members@), td_view(x.type_data)),
        WAILType::Value(v) => TyV::Val(val_view(v)),
    }
}

pub open spec fn field_view(f: WAILField) -> FieldV
    decreases f,
{
    FieldV { name: f.name@, ty: ty_view(f.field_type), anns: anns_view(f.annotations@) }
}

pub open spec fn fields_view(s: Seq<WAILField>) -> Seq<FieldV>
    decreases s,
{
    if s.len() == 0 {
        Seq::empty()
    } else {
        fields_view(s.drop_last()).push(field_view(s.last()))
    }
}

pub open spec fn tys_view(s: Seq<WAILType>) -> Seq<TyV>
    decreases s,
{
    if s.len() == 0 {
        Seq::empty()
    } else {
        tys_view(s.drop_last()).push(ty_view(s.last()))
    }
}

pub open spec fn members_view(s: Seq<(WAILString, WAILType)>) -> Seq<(Seq<char>, TdV, TyV)>
    decreases s,
{
    if s.len() == 0 {
        Seq::empty()
    } else {
        members_view(s.drop_last()).push((s.last().0.value@, td_view(s.last().0.type_data), ty_view(s.last().1)))
    }
}

// ───────────────────────── copies ─────────────────────────

pub fn clone_anns(s: &Vec<WAILAnnotation>) -> (r: Vec<WAILAnnotation>)
    ensures
        anns_view(r@) == anns_view(s@),
    decreases s,
{
    let mut r: Vec<WAILAnnotation> = Vec::new();
    let mut i: usize = 0;
    while i < s.len()
        invariant
            i <= s@.len(),
            anns_view(r@) == anns_view(s@.take(i as int)),
        decreases s@.len() - i,
    {
        proof {
            assert(decreases_to!(s => s@));
            assert(decreases_to!(s@ => s@[i as int]));
        }
        let a = clone_ann(&s[i]);
        proof {
            assert(r@.push(a).drop_last() =~= r@);
            assert(s@.take(i + 1).drop_last() =~= s@.take(i as int));
        }
        r.push(a);
        i += 1;
    }
    assert(s@.take(i as int) =~= s@);
    r
}

pub fn clone_ann(a: &WAILAnnotation) -> (r: WAILAnnotation)
    ensures
        ann_view(r) == ann_view(*a),
    decreases a,
{
    match a {
        WAILAnnotation::Description(s) => WAILAnnotation::Description(s.clone()),
        WAILAnnotation::Example(s) => WAILAnnotation::Example(s.clone()),
        WAILAnnotation::Validation(s) => WAILAnnotation::Validation(s.clone()),
        WAILAnnotation::Format(s) => WAILAnnotation::Format(s.clone()),
        WAILAnnotation::Important(s) => WAILAnnotation::Important(s.clone()),
        WAILAnnotation::Context(s) => WAILAnnotation::Context(s.clone()),
        WAILAnnotation::Default(s) => WAILAnnotation::Default(s.clone()),
        WAILAnnotation::Field { name, annotations } => {
            proof {
                assert(decreases_to!(*a => *annotations));
            }
            WAILAnnotation::Field { name: name.clone(), annotations: clone_anns(annotations) }
        },
    }
}

fn clone_val(v: &WAILValue) -> (r: WAILValue)
    ensures
        val_view(r) == val_view(*v),
{
    match v {
        WAILValue::String(s) => WAILValue::String(s.clone()),
        WAILValue::Number(n) => WAILValue::Number(*n),
        WAILValue::Float(s) => WAILValue::Float(s.clone()),
        WAILValue::TypeRef(s) => WAILValue::TypeRef(s.clone()),
    }
}

pub fn clone_td(d: &WAILTypeData) -> (r: WAILTypeData)
    ensures
        td_view(r) == td_view(*d),
    decreases d,
{
    let fields = match &d.field_definitions {
        Some(fs) => {
            proof {
                assert(decreases_to!(*d => d.field_definitions));
            }
            Some(clone_fields(fs))
        },
        None => None,
    };
    let elem = match &d.element_type {
        Some(b) => {
            proof {
                assert(decreases_to!(*d => d.element_type));
            }
            Some(Box::new(clone_type(b)))
        },
        None => None,
    };
    WAILTypeData { json_type: clone_value(&d.json_type), type_label: d.type_label.clone(), field_definitions: fields, element_type: elem }
}

pub fn clone_field(f: &WAILField) -> (r: WAILField)
    ensures
        field_view(r) == field_view(*f),
    decreases f,
{
    WAILField { name: f.name.clone(), field_type: clone_type(&f.field_type), annotations: clone_anns(&f.annotations) }
}

pub fn clone_fields(s: &Vec<WAILField>) -> (r: Vec<WAILField>)
    ensures
        fields_view(r@) == fields_view(s@),
    decreases s,
{
    let mut r: Vec<WAILField> = Vec::new();
    let mut i: usize = 0;
    while i < s.len()
        invariant
            i <= s@.len(),
            fields_view(r@) == fields_view(s@.take(i as int)),
        decreases s@.len() - i,
    {
        proof {
            assert(decreases_to!(s => s@));
            assert(decreases_to!(s@ => s@[i as int]));
        }
        let a = clone_field(&s[i]);
        proof {
            assert(r@.push(a).drop_last() =~= r@);
            assert(s@.take(i + 1).drop_last() =~= s@.take(i as int));
        }
        r.push(a);
        i += 1;
    }
    assert(s@.take(i as int) =~= s@);
    r
}

fn clone_types(s: &Vec<WAILType>) -> (r: Vec<WAILType>)
    ensures
        tys_view(r@) == tys_view(s@),
    decreases s,
{
    let mut r: Vec<WAILType> = Vec::new();
    let mut i: usize = 0;
    while i < s.len()
        invariant
            i <= s@.len(),
            tys_view(r@) == tys_view(s@.take(i as int)),
        decreases s@.len() - i,
    {
        proof {
            assert(decreases_to!(s => s@));
            assert(decreases_to!(s@ => s@[i as int]));
        }
        let a = clone_type(&s[i]);
        proof {
            assert(r@.push(a).drop_last() =~= r@);
            assert(s@.take(i + 1).drop_last() =~= s@.take(i as int));
        }
        r.push(a);
        i += 1;
    }
    assert(s@.take(i as int) =~= s@);
    r
}

fn clone_members(s: &Vec<(WAILString, WAILType)>) -> (r: Vec<(WAILString, WAILType)>)
    ensures
        members_view(r@) == members_view(s@),
    decreases s,
{
    let mut r: Vec<(WAILString, WAILType)> = Vec::new();
    let mut i: usize = 0;
    while i < s.len()
        invariant
            i <= s@.len(),
            members_view(r@) == members_view(s@.take(i as int)),
        decreases s@.len() - i,
    {
        proof {
            assert(decreases_to!(s => s@));
            assert(decreases_to!(s@ => s@[i as int]));
            assert(decreases_to!(s@[i as int] => s@[i as int].0));
            assert(decreases_to!(s@[i as int] => s@[i as int].1));
        }
        let k = WAILString { value: s[i].0.value.clone(), type_data: clone_td(&s[i].0.type_data) };
        let t = clone_type(&s[i].1);
        let item = (k, t);
        proof {
            assert(r@.push(item).drop_last() =~= r@);
            assert(s@.take(i + 1).drop_last() =~= s@.take(i as int));
        }
        r.push(item);
        i += 1;
    }
    assert(s@.take(i as int) =~= s@);
    r
}

/// A copy of a type with the same value.
pub fn clone_type(t: &WAILType) -> (r: WAILType)
    ensures
        ty_view(r) == ty_view(*t),
    decreases t,
{
    match t {
        WAILType::Simple(WAILSimpleType::String(x)) => WAILType::Simple(
            WAILSimpleType::String(WAILString { value: x.value.clone(), type_data: clone_td(&x.type_data) }),
        ),
        WAILType::Simple(WAILSimpleType::Number(WAILNumber::Integer(x))) => WAILType::Simple(
            WAILSimpleType::Number(WAILNumber::Integer(WAILInteger { value: x.value, type_data: clone_td(&x.type_data) })),
        ),
        WAILType::Simple(WAILSimpleType::Number(WAILNumber::Float(x))) => WAILType::Simple(
            WAILSimpleType::Number(WAILNumber::Float(WAILFloat { value: x.value.clone(), type_data: clone_td(&x.type_data) })),
        ),
        WAILType::Simple(WAILSimpleType::Boolean(x)) => WAILType::Simple(
            WAILSimpleType::Boolean(WAILBoolean { value: x.value.clone(), type_data: clone_td(&x.type_data) }),
        ),
        WAILType::Composite(WAILCompositeType::Object(x)) => WAILType::Composite(
            WAILCompositeType::Object(WAILObject { value: clone_members(&x.value), type_data: clone_td(&x.type_data) }),
        ),
        WAILType::Composite(WAILCompositeType::Array(x)) => WAILType::Composite(
            WAILCompositeType::Array(WAILArray { values: clone_types(&x.values), type_data: clone_td(&x.type_data) }),
        ),
        WAILType::Composite(WAILCompositeType::Union(x)) => WAILType::Composite(
            WAILCompositeType::Union(WAILUnion { members: clone_fields(&x.members), type_data: clone_td(&x.type_data) }),
        ),
        WAILType::Value(v) => WAILType::Value(clone_val(v)),
    }
}


// ───────────────────────── the token stream ─────────────────────────

/// The tokens read from `s` starting at position `p`, line `l`, column `c`,
/// each with the line and column where it starts, up to and including the
/// end-of-input token.
pub open spec fn lex_run(s: Seq<char>, p: int, l: int, c: int) -> Seq<(TokV, int, int)>
    decreases s.len() - p,
{
    let (t, st, e) = token_spec(s, p);
    let (l1, c1) = advance_over(l, c, s.subrange(p, st));
    let (l2, c2) = advance_over(l, c, s.subrange(p, e));
    if t is Eof || e <= p || p < 0 || e > s.len() {
        seq![(t, l1, c1)]
    } else {
        seq![(t, l1, c1)] + lex_run(s, e, l2, c2)
    }
}

pub open spec fn skippable(t: TokV) -> bool {
    t is Whitespace || t is Comment
}

pub open spec fn drop_skippable(ts: Seq<(TokV, int, int)>) -> Seq<(TokV, int, int)>
    decreases ts.len(),
{
    if ts.len() == 0 {
        Seq::empty()
    } else if skippable(ts[0].0) {
        drop_skippable(ts.drop_first())
    } else {
        seq![ts[0]] + drop_skippable(ts.drop_first())
    }
}

/// The tokens the parser sees: the first two as read, then all but
/// whitespace and comments (the parser skips those once it is under way).
pub open spec fn parser_tokens(s: Seq<char>) -> Seq<(TokV, int, int)> {
    let raw = lex_run(s, 0, 1, 1);
    if raw.len() <= 2 {
        raw
    } else {
        raw.take(2) + drop_skippable(raw.skip(2))
    }
}

/// Tokens paired with the line and column where each starts.
pub open spec fn entries(toks: Seq<Token>, locs: Seq<Location>) -> Seq<(TokV, int, int)> {
    Seq::new(toks.len(), |i: int| (toks[i]@, locs[i].line as int, locs[i].column as int))
}

proof fn lemma_entries_push(toks: Seq<Token>, locs: Seq<Location>, t: Token, l: Location)
    requires
        toks.len() == locs.len(),
    ensures
        entries(toks.push(t), locs.push(l)) == entries(toks, locs) + seq![(t@, l.line as int, l.column as int)],
{
    assert(entries(toks.push(t), locs.push(l)) =~= entries(toks, locs) + seq![(t@, l.line as int, l.column as int)]);
}


proof fn lemma_drop_skippable_push(a: Seq<(TokV, int, int)>, x: (TokV, int, int))
    ensures
        drop_skippable(a.push(x)) == drop_skippable(a) + (if skippable(x.0) {
            Seq::<(TokV, int, int)>::empty()
        } else {
            seq![x]
        }),
    decreases a.len(),
{
    if a.len() == 0 {
        assert(a.push(x).drop_first() =~= Seq::<(TokV, int, int)>::empty());
        assert(drop_skippable(Seq::<(TokV, int, int)>::empty()) =~= Seq::<(TokV, int, int)>::empty());
        assert(a.push(x)[0] == x);
    } else {
        lemma_drop_skippable_push(a.drop_first(), x);
        assert(a.push(x).drop_first() =~= a.drop_first().push(x));
        assert(a.push(x)[0] == a[0]);
        if skippable(a[0].0) {
        } else {
            assert(seq![a[0]] + drop_skippable(a.drop_first().push(x)) =~= seq![a[0]] + drop_skippable(a.drop_first()) + (if skippable(x.0) {
                Seq::<(TokV, int, int)>::empty()
            } else {
                seq![x]
            }));
        }
    }
}

/// A stream whose last token is not skippable keeps it last.
proof fn lemma_drop_skippable_last(a: Seq<(TokV, int, int)>)
    requires
        a.len() > 0,
        !skippable(a.last().0),
    ensures
        drop_skippable(a).len() > 0,
        drop_skippable(a).last() == a.last(),
    decreases a.len(),
{
    if a.len() == 1 {
        assert(a.drop_first() =~= Seq::<(TokV, int, int)>::empty());
        assert(drop_skippable(Seq::<(TokV, int, int)>::empty()) =~= Seq::<(TokV, int, int)>::empty());
    } else {
        lemma_drop_skippable_last(a.drop_first());
        assert(a.drop_first().last() == a.last());
    }
}

/// The token stream is never empty and ends with the end of input.
proof fn lemma_lex_last(s: Seq<char>, p: int, l: int, c: int)
    requires
        0 <= p <= s.len(),
    ensures
        lex_run(s, p, l, c).len() > 0,
        lex_run(s, p, l, c).last().0 is Eof,
    decreases s.len() - p,
{
    crate::wail_parser::lemma_token_progress(s, p);
    let (t, st, e) = token_spec(s, p);
    let (l2, c2) = advance_over(l, c, s.subrange(p, e));
    if !(t is Eof || e <= p || p < 0 || e > s.len()) {
        lemma_lex_last(s, e, l2, c2);
    }
}

/// A read position in a token stream that ends with the end-of-input token.
pub struct Cursor {
    toks: Vec<Token>,
    locs: Vec<Location>,
    pos: usize,
}

impl Cursor {
    /// The tokens with where each starts.
    pub closed spec fn stream(&self) -> Seq<(TokV, int, int)> {
        entries(self.toks@, self.locs@)
    }

    pub closed spec fn at(&self) -> int {
        self.pos as int
    }

    pub closed spec fn wf(&self) -> bool {
        &&& self.toks@.len() == self.locs@.len()
        &&& self.toks@.len() >= 1
        &&& self.pos < self.toks@.len()
        &&& self.toks@.last()@ is Eof
    }

    /// The tokens of `input` as the parser sees them, from the first.
    pub fn new(input: &str) -> (r: Self)
        requires
            input@.len() < usize::MAX - 2,
        ensures
            r.wf(),
            r.at() == 0,
            r.stream() == parser_tokens(input@),
    {
        let (c, _) = Self::open(input);
        c
    }

    /// The tokens of `input` as the parser sees them, from the first, with
    /// the whitespace and comments skipped before each.
    pub fn open(input: &str) -> (r: (Self, Vec<String>))
        requires
            input@.len() < usize::MAX - 2,
        ensures
            r.0.wf(),
            r.0.at() == 0,
            r.0.stream() == parser_tokens(input@),
            strs(r.1@) == parser_gaps(input@),
            r.1@.len() == r.0.stream().len(),
    {
        let mut tz = Tokenizer::new(input);
        let mut toks: Vec<Token> = Vec::new();
        let mut locs: Vec<Location> = Vec::new();
        let ghost s = input@;
        let ghost raw = lex_run(s, 0, 1, 1);
        proof {
            assert(entries(toks@, locs@) =~= Seq::<(TokV, int, int)>::empty());
        }
        loop
            invariant_except_break
                toks@.len() <= tz.state().1 + 1,
                tz.state().1 <= s.len(),
                ({
                    let (_, p, l, c, _, _, _) = tz.state();
                    entries(toks@, locs@) + lex_run(s, p, l, c) == raw
                }),
            invariant
                tz.wf(),
                tz.state().0 == s,
                s.len() < usize::MAX - 2,
                toks@.len() == locs@.len(),
            ensures
                toks@.len() == locs@.len(),
                entries(toks@, locs@) == raw,
            decreases s.len() + 1 - toks@.len(),
        {
            let p0 = tz.offset();
            proof {
                tz.lemma_wf_bounds();
            }
            let ghost (_, gp, gl, gc, _, _, _) = tz.state();
            let t = tz.next_token();
            let loc = tz.last_location();
            let p1 = tz.offset();
            proof {
                tz.lemma_wf_bounds();
            }
            let stop = t.is_eof() || p1 <= p0;
            let ghost e0 = entries(toks@, locs@);
            proof {
                lemma_entries_push(toks@, locs@, t, loc);
            }
            toks.push(t);
            locs.push(loc);
            proof {
                crate::wail_parser::lemma_token_progress(s, gp);
                let (tv, st, e) = token_spec(s, gp);
                if stop {
                    assert(lex_run(s, gp, gl, gc) == seq![(tv, loc.line as int, loc.column as int)]);
                    assert(e0 + lex_run(s, gp, gl, gc) =~= entries(toks@, locs@));
                } else {
                    assert(e0 + lex_run(s, gp, gl, gc) =~= entries(toks@, locs@) + lex_run(s, p1 as int, tz.state().2, tz.state().3));
                }
            }
            if stop {
                break;
            }
        }
        // the raw tokens, then the parser's view of them
        let ghost rv = entries(toks@, locs@);
        assert(rv == raw);
        proof {
            lemma_lex_last(s, 0, 1, 1);
        }
        let mut ft: Vec<Token> = Vec::new();
        let mut fl: Vec<Location> = Vec::new();
        let mut gaps: Vec<String> = Vec::new();
        let mut pend = String::new();
        let n = toks.len();
        let mut i: usize = 0;
        let ghost e: Seq<char> = Seq::empty();
        proof {
            assert(entries(ft@, fl@) =~= Seq::<(TokV, int, int)>::empty());
            assert(strs(gaps@) =~= Seq::new(0, |j: int| Seq::<char>::empty()));
        }
        while i < n
            invariant
                i <= n,
                n == toks@.len(),
                toks@.len() == locs@.len(),
                rv == entries(toks@, locs@),
                ft@.len() == fl@.len(),
                ft@.len() <= i,
                gaps@.len() == ft@.len(),
                e == Seq::<char>::empty(),
                i <= 2 ==> entries(ft@, fl@) == rv.take(i as int),
                i > 2 ==> entries(ft@, fl@) == rv.take(2) + drop_skippable(rv.subrange(2, i as int)),
                i <= 2 ==> strs(gaps@) == Seq::new(i as nat, |j: int| Seq::<char>::empty()) && pend@ == e,
                i >= 2 ==> strs(gaps@) + gaps_from(rv.subrange(i as int, n as int), pend@) == seq![e, e] + gaps_from(
                    rv.subrange(2, n as int),
                    e,
                ),
            decreases n - i,
        {
            let keep = i < 2 || !toks[i].is_skippable();
            let ghost before = entries(ft@, fl@);
            let ghost g0 = strs(gaps@);
            let ghost p0 = pend@;
            proof {
                if i >= 2 {
                    assert(rv.subrange(i as int, n as int)[0] == rv[i as int]);
                    assert(rv.subrange(i as int, n as int).drop_first() =~= rv.subrange(i + 1, n as int));
                }
                assert(rv[i as int].0 == toks@[i as int]@);
            }
            if keep {
                let t = toks[i].copy();
                proof {
                    lemma_entries_push(ft@, fl@, t, locs@[i as int]);
                }
                ft.push(t);
                fl.push(locs[i]);
                let g = pend;
                pend = String::new();
                gaps.push(g);
                proof {
                    assert(strs(gaps@) =~= g0.push(p0));
                    if i >= 2 {
                        assert(g0.push(p0) + gaps_from(rv.subrange(i + 1, n as int), e) =~= g0 + (seq![p0] + gaps_from(
                            rv.subrange(i + 1, n as int),
                            e,
                        )));
                    } else if i == 1 {
                        assert(strs(gaps@) =~= seq![e, e]);
                        assert(rv.subrange(2, n as int) =~= rv.subrange(i + 1, n as int));
                    } else {
                        assert(strs(gaps@) =~= Seq::new(1, |j: int| Seq::<char>::empty()));
                    }
                }
            } else {
                let piece = toks[i].to_string();
                push_str(&mut pend, piece.as_str());
            }
            proof {
                assert(rv[i as int] == (toks@[i as int]@, locs@[i as int].line as int, locs@[i as int].column as int));
                if i < 2 {
                    assert(rv.take(i + 1) =~= rv.take(i as int) + seq![rv[i as int]]);
                } else {
                    lemma_drop_skippable_push(rv.subrange(2, i as int), rv[i as int]);
                    assert(rv.subrange(2, i + 1) =~= rv.subrange(2, i as int).push(rv[i as int]));
                    if i == 2 {
                        assert(rv.subrange(2, 2) =~= Seq::<(TokV, int, int)>::empty());
                        assert(drop_skippable(Seq::<(TokV, int, int)>::empty()) =~= Seq::<(TokV, int, int)>::empty());
                        assert(before =~= rv.take(2) + drop_skippable(rv.subrange(2, 2)));
                    }
                    assert(entries(ft@, fl@) =~= rv.take(2) + drop_skippable(rv.subrange(2, i + 1)));
                }
            }
            i += 1;
        }
        proof {
            if n <= 2 {
                assert(rv.take(n as int) =~= rv);
            } else {
                assert(rv.subrange(2, n as int) =~= rv.skip(2));
                lemma_drop_skippable_last(rv.skip(2));
                assert(rv.skip(2).last() == rv.last());
            }
            assert(entries(ft@, fl@) == parser_tokens(s));
            assert(entries(ft@, fl@).last() == rv.last());
            assert(ft@.len() >= 1);
            assert(entries(ft@, fl@).last().0 == ft@.last()@);
        }
        proof {
            if n <= 2 {
                assert(strs(gaps@) =~= parser_gaps(s));
            } else {
                assert(rv.subrange(n as int, n as int) =~= Seq::<(TokV, int, int)>::empty());
                assert(strs(gaps@) + Seq::<Seq<char>>::empty() =~= strs(gaps@));
                assert(rv.subrange(2, n as int) =~= rv.skip(2));
            }
        }
        (Cursor { toks: ft, locs: fl, pos: 0 }, gaps)
    }
}


// ───────────────────────── grammar, mathematically ─────────────────────────

/// Mathematical value of a [`WAILTemplateDef`].
pub struct TemplV {
    pub name: Seq<char>,
    pub inputs: Seq<FieldV>,
    pub output: FieldV,
    pub prompt: Seq<char>,
    pub anns: Seq<AnnV>,
}

pub open spec fn templ_view(t: WAILTemplateDef) -> TemplV {
    TemplV {
        name: t.name@,
        inputs: fields_view(t.inputs@),
        output: field_view(t.output),
        prompt: t.prompt_template@,
        anns: anns_view(t.annotations@),
    }
}

/// What the grammar has collected so far: definitions by (namespaced) name,
/// templates, the count of inline objects, their names and types, and the
/// module being read.
pub struct GSt {
    pub reg: Seq<(Seq<char>, FieldV)>,
    pub tpl: Seq<(Seq<char>, TemplV)>,
    pub counter: int,
    pub adhoc_ids: Seq<Seq<char>>,
    pub adhoc_refs: Seq<(Seq<char>, TyV)>,
    pub module: Seq<Seq<char>>,
    /// the names object instances are bound under
    pub objs: Seq<Seq<char>>,
    /// whether a main block has been read
    pub main: bool,
    /// the variables the main block's `let` statements assign templates to, in order
    pub main_vars: Seq<Seq<char>>,
}

/// A parse error, with the line and column it is reported at.
pub enum PErr {
    Unexpected(Seq<char>, (int, int)),
    Keyword(Seq<char>, (int, int)),
    Eof(Seq<char>, (int, int)),
    NotFound(Seq<char>),
    Ambiguous(Seq<char>, Seq<Seq<char>>),
    MissingMain,
    /// an import that closes a cycle: its canonical path and the chain before it
    Circular(Seq<char>, Seq<Seq<char>>),
    /// an imported name the library does not define: the name and the import path
    NotImported(Seq<char>, Seq<char>),
    /// an imported file that could not be read: the import path and the reason
    FileErr(Seq<char>, Seq<char>),
    /// an imported file whose text has not been handed over: its resolved path
    /// and the import path
    NeedFile(Seq<char>, Seq<char>),
    /// the inline-object counter would outgrow `i64`, or a file is too long
    /// for its reader
    Overflow,
    /// a second definition of what may be defined once
    Duplicate(Seq<char>, (int, int)),
    /// a call of a template that cannot be made: its name and why
    BadCall(Seq<char>, Seq<char>, (int, int)),
}

pub open spec fn loc_view(l: Location) -> (int, int) {
    (l.line as int, l.column as int)
}

pub open spec fn perr_view(e: WAILParseError) -> Option<PErr> {
    match e {
        WAILParseError::UnexpectedToken { found, location } => Some(PErr::Unexpected(found@, loc_view(location))),
        WAILParseError::UnexpectedKeyword { found, location } => Some(PErr::Keyword(found@, loc_view(location))),
        WAILParseError::UnexpectedEOF { expected, location } => Some(PErr::Eof(expected@, loc_view(location))),
        WAILParseError::SymbolNotFound { name } => Some(PErr::NotFound(name@)),
        WAILParseError::AmbiguousSymbol { name, matches } => Some(
            PErr::Ambiguous(name@, matches@.map_values(|m: String| m@)),
        ),
        WAILParseError::MissingMainBlock => Some(PErr::MissingMain),
        WAILParseError::CircularImport { path, chain } => Some(PErr::Circular(path@, crate::wail_parser::strs_view(chain@))),
        WAILParseError::ImportNotFound { name, path } => Some(PErr::NotImported(name@, path@)),
        WAILParseError::FileError { path, error } => Some(PErr::FileErr(path@, error@)),
        WAILParseError::ParseLimitExceeded => Some(PErr::Overflow),
        WAILParseError::DuplicateDefinition { name, location } => Some(PErr::Duplicate(name@, loc_view(location))),
        WAILParseError::InvalidTemplateCall { template_name, reason, location } => Some(
            PErr::BadCall(template_name@, reason@, loc_view(location)),
        ),
        _ => None,
    }
}

// association lists with map semantics

pub open spec fn apos<V>(s: Seq<(Seq<char>, V)>, k: Seq<char>) -> int
    decreases s.len(),
{
    if s.len() == 0 {
        -1
    } else if apos(s.drop_last(), k) >= 0 {
        apos(s.drop_last(), k)
    } else if s.last().0 == k {
        s.len() - 1
    } else {
        -1
    }
}

pub open spec fn ainsert<V>(s: Seq<(Seq<char>, V)>, k: Seq<char>, v: V) -> Seq<(Seq<char>, V)> {
    if apos(s, k) >= 0 {
        s.update(apos(s, k), (k, v))
    } else {
        s.push((k, v))
    }
}

/// The part of a namespaced key after its last `.`.
pub open spec fn after_dot(k: Seq<char>) -> Seq<char>
    decreases k.len(),
{
    if k.len() == 0 {
        k
    } else if k.last() == '.' {
        Seq::empty()
    } else {
        after_dot(k.drop_last()).push(k.last())
    }
}

/// The entries whose key ends in `name`.
pub open spec fn name_matches<V>(s: Seq<(Seq<char>, V)>, name: Seq<char>) -> Seq<(Seq<char>, V)>
    decreases s.len(),
{
    if s.len() == 0 {
        Seq::empty()
    } else if after_dot(s.last().0) == name {
        name_matches(s.drop_last(), name).push(s.last())
    } else {
        name_matches(s.drop_last(), name)
    }
}

/// A symbol found by its bare name: it must match exactly one key.
pub open spec fn lookup_spec<V>(s: Seq<(Seq<char>, V)>, name: Seq<char>) -> Result<V, PErr> {
    let m = name_matches(s, name);
    if m.len() == 0 {
        Err(PErr::NotFound(name))
    } else if m.len() == 1 {
        Ok(m[0].1)
    } else {
        Err(PErr::Ambiguous(name, m.map_values(|e: (Seq<char>, V)| e.0)))
    }
}

pub open spec fn namespaced(st: GSt, id: Seq<char>) -> Seq<char> {
    if st.module.len() > 0 {
        st.module.last() + "."@ + id
    } else {
        id
    }
}

pub open spec fn plain_td(json: JVal, label: Seq<char>) -> TdV {
    TdV { json, label, fields: None, elem: None }
}

pub open spec fn string_ty(v: Seq<char>, json: JVal) -> TyV {
    TyV::Str(v, plain_td(json, "String"@))
}

pub open spec fn builtin_ty(name: Seq<char>) -> Option<TyV> {
    if name == "String"@ {
        Some(string_ty(Seq::empty(), JVal::Str(Seq::empty())))
    } else if name == "Number"@ {
        Some(TyV::Int(0, plain_td(JVal::Int(0), name)))
    } else if name == "Boolean"@ {
        Some(TyV::Bool("false"@, plain_td(JVal::Bool(false), name)))
    } else {
        None
    }
}

pub open spec fn array_of(inner: TyV) -> TyV {
    TyV::Arr(Seq::empty(), TdV { json: JVal::Array(Seq::empty()), label: "Array"@, fields: None, elem: Some(Box::new(inner)) })
}

/// The type a type name stands for: a built-in, a registered definition, or
/// else a reference to an object of that name; `[]` makes it an array.
pub open spec fn create_spec(st: GSt, name: Seq<char>, is_array: bool) -> Result<TyV, PErr> {
    let inner = match builtin_ty(name) {
        Some(t) => Ok(t),
        None => match lookup_spec(st.reg, name) {
            Ok(f) => Ok(f.ty),
            Err(PErr::Ambiguous(a, b)) => Err(PErr::Ambiguous(a, b)),
            Err(_) => Ok(TyV::Obj(Seq::empty(), plain_td(JVal::Object(Seq::empty()), name))),
        },
    };
    match inner {
        Ok(t) => Ok(
            if is_array {
                array_of(t)
            } else {
                t
            },
        ),
        Err(e) => Err(e),
    }
}

/// Union members named by position.
pub open spec fn members_named(ts: Seq<TyV>) -> Seq<FieldV> {
    Seq::new(ts.len(), |i: int| FieldV { name: "member_"@ + nat_text(i as nat), ty: ts[i], anns: Seq::empty() })
}

/// The member map of an object with `fields`: each name maps to its type,
/// a later field of the same name replacing an earlier one.
pub open spec fn members_of(fields: Seq<FieldV>) -> Seq<(Seq<char>, TdV, TyV)>
    decreases fields.len(),
{
    if fields.len() == 0 {
        Seq::empty()
    } else {
        let f = fields.last();
        member_insert(members_of(fields.drop_last()), f.name, key_td(f.name), f.ty)
    }
}

pub open spec fn member_pos(m: Seq<(Seq<char>, TdV, TyV)>, k: Seq<char>) -> int
    decreases m.len(),
{
    if m.len() == 0 {
        -1
    } else if member_pos(m.drop_last(), k) >= 0 {
        member_pos(m.drop_last(), k)
    } else if m.last().0 == k {
        m.len() - 1
    } else {
        -1
    }
}

/// Map insertion of member `k` (whose key carries type data `d`) with type `v`.
pub open spec fn member_insert(m: Seq<(Seq<char>, TdV, TyV)>, k: Seq<char>, d: TdV, v: TyV) -> Seq<(Seq<char>, TdV, TyV)> {
    if member_pos(m, k) >= 0 {
        m.update(member_pos(m, k), (k, d, v))
    } else {
        m.push((k, d, v))
    }
}

/// The type data of the key of member `name`.
pub open spec fn key_td(name: Seq<char>) -> TdV {
    plain_td(JVal::Str(name), "String"@)
}

// token positions

pub open spec fn cur(ts: Seq<(TokV, int, int)>, k: int) -> TokV {
    if 0 <= k < ts.len() {
        ts[k].0
    } else {
        TokV::Eof
    }
}

pub open spec fn adv(ts: Seq<(TokV, int, int)>, k: int) -> int {
    if k + 1 < ts.len() {
        k + 1
    } else {
        k
    }
}

/// Where an error at `k` is reported: the start of the token after it.
pub open spec fn errloc(ts: Seq<(TokV, int, int)>, k: int) -> (int, int) {
    let j = if k + 1 < ts.len() {
        k + 1
    } else {
        ts.len() - 1
    };
    (ts[j].1, ts[j].2)
}

pub open spec fn unexpected(ts: Seq<(TokV, int, int)>, k: int) -> PErr {
    PErr::Unexpected(tok_text(cur(ts, k)), errloc(ts, k))
}

pub open spec fn skip_ws(ts: Seq<(TokV, int, int)>, k: int) -> int
    decreases ts.len() - k,
{
    if 0 <= k && k + 1 < ts.len() && (cur(ts, k) is Whitespace || cur(ts, k) is Newline) {
        skip_ws(ts, k + 1)
    } else {
        k
    }
}

pub open spec fn p_expect(ts: Seq<(TokV, int, int)>, k: int, want: TokV) -> (Result<(), PErr>, int) {
    if cur(ts, k) == want {
        (Ok(()), adv(ts, k))
    } else {
        (Err(unexpected(ts, k)), k)
    }
}

pub open spec fn p_ident(ts: Seq<(TokV, int, int)>, k: int) -> (Result<Seq<char>, PErr>, int) {
    let k0 = skip_ws(ts, k);
    match cur(ts, k0) {
        TokV::Identifier(name) => (Ok(name), adv(ts, k0)),
        TokV::Keyword(name) => (Err(PErr::Keyword(name, errloc(ts, k0))), k0),
        _ => (Err(unexpected(ts, k0)), k0),
    }
}

pub open spec fn p_keyword(ts: Seq<(TokV, int, int)>, k: int, kw: Seq<char>) -> (Result<(), PErr>, int) {
    if cur(ts, k) == TokV::Keyword(kw) {
        (Ok(()), adv(ts, k))
    } else {
        (Err(unexpected(ts, k)), k)
    }
}

pub open spec fn p_string(ts: Seq<(TokV, int, int)>, k: int) -> (Result<Seq<char>, PErr>, int) {
    match cur(ts, k) {
        TokV::String(s) => (Ok(s), adv(ts, k)),
        _ => (Err(unexpected(ts, k)), k),
    }
}

/// `@description("…")` annotations from `k`, appended to `acc`.
pub open spec fn p_anns(ts: Seq<(TokV, int, int)>, k: int, acc: Seq<AnnV>) -> (Result<Seq<AnnV>, PErr>, int)
    decreases ts.len() - k,
{
    if !(cur(ts, k) is At) || k < 0 || k + 1 >= ts.len() {
        (Ok(acc), k)
    } else {
        let k1 = k + 1;
        if cur(ts, k1) == TokV::Identifier("description"@) {
            let (r2, k2) = p_expect(ts, adv(ts, k1), TokV::OpenParen);
            match r2 {
                Err(e) => (Err(e), k2),
                Ok(_) => {
                    let (r3, k3) = p_string(ts, k2);
                    match r3 {
                        Err(e) => (Err(e), k3),
                        Ok(d) => {
                            let (r4, k4) = p_expect(ts, k3, TokV::CloseParen);
                            match r4 {
                                Err(e) => (Err(e), k4),
                                Ok(_) => if k4 > k {
                                    p_anns(ts, k4, acc.push(AnnV::Description(d)))
                                } else {
                                    (Ok(acc.push(AnnV::Description(d))), k4)
                                },
                            }
                        },
                    }
                },
            }
        } else {
            (Err(unexpected(ts, k1)), k1)
        }
    }
}

pub open spec fn p_comment(ts: Seq<(TokV, int, int)>, k: int) -> (Result<Seq<char>, PErr>, int) {
    if cur(ts, k) is Hash {
        let k1 = adv(ts, k);
        match cur(ts, k1) {
            TokV::Comment(c) => (Ok(c), adv(ts, k1)),
            _ => (Ok(Seq::empty()), k1),
        }
    } else {
        (Err(unexpected(ts, k)), k)
    }
}

/// An optional `[]` after a type name.
pub open spec fn p_array_suffix(ts: Seq<(TokV, int, int)>, k: int) -> (Result<bool, PErr>, int) {
    if cur(ts, k) is OpenBracket {
        let (r, k1) = p_expect(ts, adv(ts, k), TokV::CloseBracket);
        match r {
            Ok(_) => (Ok(true), k1),
            Err(e) => (Err(e), k1),
        }
    } else {
        (Ok(false), k)
    }
}

/// `| Name[]` members from `k`, appended to `acc`.
pub open spec fn p_union_members(ts: Seq<(TokV, int, int)>, k: int, st: GSt, acc: Seq<TyV>) -> (Result<Seq<TyV>, PErr>, int)
    decreases ts.len() - k,
{
    if !(cur(ts, k) is Pipe) || k < 0 || k + 1 >= ts.len() {
        (Ok(acc), k)
    } else {
        let (r1, k1) = p_ident(ts, k + 1);
        match r1 {
            Err(e) => (Err(e), k1),
            Ok(name) => {
                let (r2, k2) = p_array_suffix(ts, k1);
                match r2 {
                    Err(e) => (Err(e), k2),
                    Ok(arr) => match create_spec(st, name, arr) {
                        Err(e) => (Err(e), k2),
                        Ok(t) => if k2 > k {
                            p_union_members(ts, k2, st, acc.push(t))
                        } else {
                            (Ok(acc.push(t)), k2)
                        },
                    },
                }
            },
        }
    }
}

pub open spec fn with_counter(st: GSt, c: int) -> GSt {
    GSt { counter: c, ..st }
}

/// A type: an inline object, or a name with an optional `[]`, or several
/// such joined by `|`.
pub open spec fn p_type(ts: Seq<(TokV, int, int)>, k: int, st: GSt) -> (Result<TyV, PErr>, int, GSt)
    decreases ts.len() - k, 3int,
{
    if cur(ts, k) is OpenBrace {
        p_adhoc(ts, k, st)
    } else {
        let (r1, k1) = p_ident(ts, k);
        match r1 {
            Err(e) => (Err(e), k1, st),
            Ok(base) => {
                let (r2, k2) = p_array_suffix(ts, k1);
                match r2 {
                    Err(e) => (Err(e), k2, st),
                    Ok(arr) => if cur(ts, k2) is Pipe {
                        match create_spec(st, base, arr) {
                            Err(e) => (Err(e), k2, st),
                            Ok(first) => {
                                let (r3, k3) = p_union_members(ts, k2, st, seq![first]);
                                match r3 {
                                    Err(e) => (Err(e), k3, st),
                                    Ok(ms) => (
                                        Ok(TyV::Union(members_named(ms), plain_td(JVal::Object(Seq::empty()), "Union"@))),
                                        k3,
                                        st,
                                    ),
                                }
                            },
                        }
                    } else {
                        (create_spec(st, base, arr), k2, st)
                    },
                }
            },
        }
    }
}

/// An inline object type `{ field: Type … }`, registered under a fresh name.
pub open spec fn p_adhoc(ts: Seq<(TokV, int, int)>, k: int, st: GSt) -> (Result<TyV, PErr>, int, GSt)
    decreases ts.len() - k, 2int,
{
    let c = st.counter + 1;
    let id = "adhoc_"@ + int_text(c);
    let st1 = with_counter(st, c);
    let (r1, k1) = p_expect(ts, k, TokV::OpenBrace);
    match r1 {
        Err(e) => (Err(e), k1, st1),
        Ok(_) => if k1 <= k {
            (Err(unexpected(ts, k1)), k1, st1)
        } else {
            let (r2, k2, st2) = p_adhoc_fields(ts, k1, st1, Seq::empty());
            match r2 {
                Err(e) => (Err(e), k2, st2),
                Ok(fields) => {
                    let (r3, k3) = p_expect(ts, k2, TokV::CloseBrace);
                    match r3 {
                        Err(e) => (Err(e), k3, st2),
                        Ok(_) => {
                            let obj = TyV::Obj(
                                members_of(fields),
                                TdV { json: JVal::Object(Seq::empty()), label: id, fields: Some(fields), elem: None },
                            );
                            let nid = namespaced(st2, id);
                            let st3 = GSt {
                                adhoc_ids: st2.adhoc_ids.push(id),
                                adhoc_refs: ainsert(st2.adhoc_refs, nid, obj),
                                reg: ainsert(st2.reg, nid, FieldV { name: id, ty: obj, anns: Seq::empty() }),
                                ..st2
                            };
                            (Ok(obj), k3, st3)
                        },
                    }
                },
            }
        },
    }
}

/// The fields of an inline object, up to its `}`.
pub open spec fn p_adhoc_fields(ts: Seq<(TokV, int, int)>, k: int, st: GSt, acc: Seq<FieldV>) -> (
    Result<Seq<FieldV>, PErr>,
    int,
    GSt,
)
    decreases ts.len() - k, 1int,
{
    if k < 0 || k >= ts.len() {
        (Err(unexpected(ts, k)), k, st)
    } else {
        match cur(ts, k) {
            TokV::CloseBrace => (Ok(acc), k, st),
            TokV::Identifier(_) => {
                let (r1, k1, st1) = p_field(ts, k, st);
                match r1 {
                    Err(e) => (Err(e), k1, st1),
                    Ok(f) => if k < k1 < ts.len() {
                        p_adhoc_fields(ts, k1, st1, acc.push(f))
                    } else {
                        (Err(unexpected(ts, k1)), k1, st1)
                    },
                }
            },
            TokV::Newline => if k + 1 < ts.len() {
                p_adhoc_fields(ts, k + 1, st, acc)
            } else {
                (Err(unexpected(ts, k)), k, st)
            },
            TokV::Whitespace(_) => if k + 1 < ts.len() {
                p_adhoc_fields(ts, k + 1, st, acc)
            } else {
                (Err(unexpected(ts, k)), k, st)
            },
            TokV::Hash => {
                let (r1, k1) = p_comment(ts, k);
                match r1 {
                    Err(e) => (Err(e), k1, st),
                    Ok(_) => if k1 > k {
                        p_adhoc_fields(ts, k1, st, acc)
                    } else {
                        (Err(unexpected(ts, k1)), k1, st)
                    },
                }
            },
            _ => (Err(unexpected(ts, k)), k, st),
        }
    }
}

/// `name: Type @description(…)…`
pub open spec fn p_field(ts: Seq<(TokV, int, int)>, k: int, st: GSt) -> (Result<FieldV, PErr>, int, GSt)
    decreases ts.len() - k, 0int,
{
    let (r1, k1) = p_ident(ts, k);
    match r1 {
        Err(e) => (Err(e), k1, st),
        Ok(name) => {
            let (r2, k2) = p_expect(ts, k1, TokV::Colon);
            match r2 {
                Err(e) => (Err(e), k2, st),
                Ok(_) => if k2 <= k {
                    (Err(unexpected(ts, k2)), k2, st)
                } else {
                    let (r3, k3, st3) = p_type(ts, k2, st);
                    match r3 {
                        Err(e) => (Err(e), k3, st3),
                        Ok(t) => {
                            let (r4, k4) = p_anns(ts, k3, Seq::empty());
                            match r4 {
                                Err(e) => (Err(e), k4, st3),
                                Ok(anns) => (Ok(FieldV { name, ty: t, anns }), k4, st3),
                            }
                        },
                    }
                },
            }
        },
    }
}


/// Mathematical value of a [`WAILDefinition`].
pub enum DefV {
    Object(FieldV),
    Template(TemplV),
    Union(FieldV),
    Comment(Seq<char>),
    Import(Seq<Seq<char>>, Seq<char>),
    Main(MainV),
}

/// Mathematical value of a [`WAILTemplateCall`]: the template's name and the
/// named arguments.
pub type CallV = (Seq<char>, Seq<(Seq<char>, TArg)>);

/// Mathematical value of a [`MainStatement`].
pub enum StmtV {
    Assign(Seq<char>, CallV),
    Call(CallV),
    Inst(Seq<char>, Seq<char>, Seq<(Seq<char>, TArg)>),
}

/// Mathematical value of a [`WAILMainDef`].
pub struct MainV {
    pub stmts: Seq<StmtV>,
    pub prompt: Seq<char>,
    pub args: Seq<(Seq<char>, TyV)>,
}

/// The `_type` member every object carries: a string holding the object's name.
pub open spec fn type_tag(name: Seq<char>) -> TyV {
    string_ty(name, JVal::Str("_type"@))
}

/// The fields of an object definition, up to its `}`; other tokens are skipped.
pub open spec fn p_obj_fields(ts: Seq<(TokV, int, int)>, k: int, st: GSt, acc: Seq<FieldV>) -> (
    Result<Seq<FieldV>, PErr>,
    int,
    GSt,
)
    decreases ts.len() - k,
{
    if k < 0 || k >= ts.len() {
        (Err(unexpected(ts, k)), k, st)
    } else {
        match cur(ts, k) {
            TokV::CloseBrace => (Ok(acc), k, st),
            TokV::Identifier(_) => {
                let (r1, k1, st1) = p_field(ts, k, st);
                match r1 {
                    Err(e) => (Err(e), k1, st1),
                    Ok(f) => if k < k1 < ts.len() {
                        p_obj_fields(ts, k1, st1, acc.push(f))
                    } else {
                        (Err(unexpected(ts, k1)), k1, st1)
                    },
                }
            },
            TokV::Eof => (Err(PErr::Eof("field or closing brace"@, errloc(ts, k))), k, st),
            _ => if k + 1 < ts.len() {
                p_obj_fields(ts, k + 1, st, acc)
            } else {
                (Err(unexpected(ts, k)), k, st)
            },
        }
    }
}

/// `object Name { fields } annotations`
pub open spec fn p_object(ts: Seq<(TokV, int, int)>, k: int, st: GSt) -> (Result<DefV, PErr>, int, GSt) {
    let (r0, k0) = p_keyword(ts, k, "object"@);
    match r0 {
        Err(e) => (Err(e), k0, st),
        Ok(_) => {
            let (r1, k1) = p_ident(ts, k0);
            match r1 {
                Err(e) => (Err(e), k1, st),
                Ok(name) => if apos(st.reg, namespaced(st, name)) >= 0 {
                    match lookup_spec(st.reg, name) {
                        Ok(f) => (Ok(DefV::Object(f)), k1, st),
                        Err(e) => (Err(e), k1, st),
                    }
                } else {
                    let (r2, k2) = p_expect(ts, k1, TokV::OpenBrace);
                    match r2 {
                        Err(e) => (Err(e), k2, st),
                        Ok(_) => {
                            let (r3, k3, st3) = p_obj_fields(ts, k2, st, Seq::empty());
                            match r3 {
                                Err(e) => (Err(e), k3, st3),
                                Ok(fields) => {
                                    let (r4, k4) = p_expect(ts, k3, TokV::CloseBrace);
                                    match r4 {
                                        Err(e) => (Err(e), k4, st3),
                                        Ok(_) => {
                                            let (r5, k5) = p_anns(ts, k4, Seq::empty());
                                            match r5 {
                                                Err(e) => (Err(e), k5, st3),
                                                Ok(anns) => {
                                                    let tag = FieldV { name: "_type"@, ty: type_tag(name), anns: Seq::empty() };
                                                    let members = member_insert(
                                                        members_of(fields),
                                                        "_type"@,
                                                        key_td("_type"@),
                                                        type_tag(name),
                                                    );
                                                    let obj = TyV::Obj(
                                                        members,
                                                        TdV {
                                                            json: JVal::Object(Seq::empty()),
                                                            label: name,
                                                            fields: Some(fields.push(tag)),
                                                            elem: None,
                                                        },
                                                    );
                                                    let field = FieldV { name, ty: obj, anns };
                                                    (
                                                        Ok(DefV::Object(field)),
                                                        k5,
                                                        GSt { reg: ainsert(st3.reg, namespaced(st3, name), field), ..st3 },
                                                    )
                                                },
                                            }
                                        },
                                    }
                                },
                            }
                        },
                    }
                },
            }
        },
    }
}

/// `union Name = A | B[] | … ;`
pub open spec fn p_union(ts: Seq<(TokV, int, int)>, k: int, st: GSt) -> (Result<DefV, PErr>, int, GSt) {
    let (r0, k0) = p_keyword(ts, k, "union"@);
    match r0 {
        Err(e) => (Err(e), k0, st),
        Ok(_) => {
            let (r1, k1) = p_ident(ts, k0);
            match r1 {
                Err(e) => (Err(e), k1, st),
                Ok(name) => if apos(st.reg, namespaced(st, name)) >= 0 {
                    match lookup_spec(st.reg, name) {
                        Ok(f) => (Ok(DefV::Object(f)), k1, st),
                        Err(e) => (Err(e), k1, st),
                    }
                } else {
                    let (r2, k2) = p_expect(ts, k1, TokV::Equals);
                    match r2 {
                        Err(e) => (Err(e), k2, st),
                        Ok(_) => {
                            let (r3, k3) = p_ident(ts, k2);
                            match r3 {
                                Err(e) => (Err(e), k3, st),
                                Ok(first) => {
                                    let (r4, k4) = p_array_suffix(ts, k3);
                                    match r4 {
                                        Err(e) => (Err(e), k4, st),
                                        Ok(arr) => match create_spec(st, first, arr) {
                                            Err(e) => (Err(e), k4, st),
                                            Ok(t) => {
                                                let (r5, k5) = p_union_members(ts, k4, st, seq![t]);
                                                match r5 {
                                                    Err(e) => (Err(e), k5, st),
                                                    Ok(ms) => {
                                                        let (r6, k6) = p_expect(ts, k5, TokV::Semicolon);
                                                        match r6 {
                                                            Err(e) => (Err(e), k6, st),
                                                            Ok(_) => {
                                                                let field = FieldV {
                                                                    name,
                                                                    ty: TyV::Union(
                                                                        members_named(ms),
                                                                        plain_td(JVal::Object(Seq::empty()), name),
                                                                    ),
                                                                    anns: Seq::empty(),
                                                                };
                                                                (
                                                                    Ok(DefV::Union(field)),
                                                                    k6,
                                                                    GSt { reg: ainsert(st.reg, namespaced(st, name), field), ..st },
                                                                )
                                                            },
                                                        }
                                                    },
                                                }
                                            },
                                        },
                                    }
                                },
                            }
                        },
                    }
                },
            }
        },
    }
}

/// `name: Type` parameters separated by commas.
pub open spec fn p_params(ts: Seq<(TokV, int, int)>, k: int, st: GSt, acc: Seq<FieldV>) -> (
    Result<Seq<FieldV>, PErr>,
    int,
    GSt,
)
    decreases ts.len() - k,
{
    let (r1, k1) = p_ident(ts, k);
    match r1 {
        Err(e) => (Err(e), k1, st),
        Ok(name) => {
            let (r2, k2) = p_expect(ts, k1, TokV::Colon);
            match r2 {
                Err(e) => (Err(e), k2, st),
                Ok(_) => {
                    let (r3, k3, st3) = p_type(ts, k2, st);
                    match r3 {
                        Err(e) => (Err(e), k3, st3),
                        Ok(t) => {
                            let acc2 = acc.push(FieldV { name, ty: t, anns: Seq::empty() });
                            if cur(ts, k3) is Comma && k <= k3 && k3 + 1 < ts.len() {
                                p_params(ts, k3 + 1, st3, acc2)
                            } else {
                                (Ok(acc2), k3, st3)
                            }
                        },
                    }
                },
            }
        },
    }
}

/// The name of a template's output: an object's name, else `output`.
pub open spec fn output_name(t: TyV) -> Seq<char> {
    match t {
        TyV::Obj(_, td) => td.label,
        _ => "output"@,
    }
}

/// `template Name(params) -> Type annotations { prompt: """…""" }`
pub open spec fn p_template(ts: Seq<(TokV, int, int)>, k: int, st: GSt) -> (Result<DefV, PErr>, int, GSt) {
    let (r0, k0) = p_keyword(ts, k, "template"@);
    match r0 {
        Err(e) => (Err(e), k0, st),
        Ok(_) => {
            let (r1, k1) = p_ident(ts, k0);
            match r1 {
                Err(e) => (Err(e), k1, st),
                Ok(name) => if apos(st.tpl, namespaced(st, name)) >= 0 {
                    match lookup_spec(st.tpl, name) {
                        Ok(t) => (Ok(DefV::Template(t)), k1, st),
                        Err(e) => (Err(e), k1, st),
                    }
                } else {
                    let (r2, k2) = p_expect(ts, k1, TokV::OpenParen);
                    match r2 {
                        Err(e) => (Err(e), k2, st),
                        Ok(_) => {
                            let (r3, k3, st3) = if cur(ts, k2) is CloseParen {
                                (Ok(Seq::<FieldV>::empty()), k2, st)
                            } else {
                                p_params(ts, k2, st, Seq::empty())
                            };
                            match r3 {
                                Err(e) => (Err(e), k3, st3),
                                Ok(params) => p_template_rest(ts, k3, st3, name, params),
                            }
                        },
                    }
                },
            }
        },
    }
}

/// A template after its parameters: `) -> Type annotations { prompt: """…""" }`.
pub open spec fn p_template_rest(ts: Seq<(TokV, int, int)>, k: int, st: GSt, name: Seq<char>, params: Seq<FieldV>) -> (
    Result<DefV, PErr>,
    int,
    GSt,
) {
    let (r4, k4) = p_expect(ts, k, TokV::CloseParen);
    match r4 {
        Err(e) => (Err(e), k4, st),
        Ok(_) => {
            let (r5, k5) = p_expect(ts, k4, TokV::Arrow);
            match r5 {
                Err(e) => (Err(e), k5, st),
                Ok(_) => {
                    let (r6, k6, st6) = p_type(ts, k5, st);
                    match r6 {
                        Err(e) => (Err(e), k6, st6),
                        Ok(ret) => {
                            let (r7, k7) = p_anns(ts, k6, Seq::empty());
                            match r7 {
                                Err(e) => (Err(e), k7, st6),
                                Ok(anns) => {
                                    let (r8, k8) = p_expect(ts, k7, TokV::OpenBrace);
                                    match r8 {
                                        Err(e) => (Err(e), k8, st6),
                                        Ok(_) => if cur(ts, k8) == TokV::Keyword("prompt"@) {
                                            let (r9, k9) = p_expect(ts, adv(ts, k8), TokV::Colon);
                                            match r9 {
                                                Err(e) => (Err(e), k9, st6),
                                                Ok(_) => match cur(ts, k9) {
                                                    TokV::TripleQuoteContent(content) => {
                                                        let (r10, k10) = p_expect(ts, adv(ts, k9), TokV::CloseBrace);
                                                        match r10 {
                                                            Err(e) => (Err(e), k10, st6),
                                                            Ok(_) => {
                                                                let t = TemplV {
                                                                    name,
                                                                    inputs: params,
                                                                    output: FieldV { name: output_name(ret), ty: ret, anns: Seq::empty() },
                                                                    prompt: adjust_spec(content, 0),
                                                                    anns,
                                                                };
                                                                (
                                                                    Ok(DefV::Template(t)),
                                                                    k10,
                                                                    GSt { tpl: ainsert(st6.tpl, namespaced(st6, name), t), ..st6 },
                                                                )
                                                            },
                                                        }
                                                    },
                                                    _ => (Err(unexpected(ts, k9)), k9, st6),
                                                },
                                            }
                                        } else {
                                            (Err(unexpected(ts, k8)), k8, st6)
                                        },
                                    }
                                },
                            }
                        },
                    }
                },
            }
        },
    }
}

/// The imported names of `import { A, B } from "…"`, up to the `}`.
pub open spec fn p_import_items(ts: Seq<(TokV, int, int)>, k: int, acc: Seq<Seq<char>>) -> (Result<Seq<Seq<char>>, PErr>, int)
    decreases ts.len() - k,
{
    match cur(ts, k) {
        TokV::CloseBrace => (Ok(acc), k),
        TokV::Identifier(name) => {
            let k1 = adv(ts, k);
            if cur(ts, k1) is Comma {
                if k < adv(ts, k1) {
                    p_import_items(ts, adv(ts, k1), acc.push(name))
                } else {
                    (Err(unexpected(ts, k1)), k1)
                }
            } else if cur(ts, k1) is CloseBrace {
                (Ok(acc.push(name)), k1)
            } else {
                (Err(unexpected(ts, k1)), k1)
            }
        },
        _ => (Err(unexpected(ts, k)), k),
    }
}

/// `import { A, B } from "path"`
pub open spec fn p_import(ts: Seq<(TokV, int, int)>, k: int) -> (Result<DefV, PErr>, int) {
    let (r0, k0) = p_keyword(ts, skip_ws(ts, k), "import"@);
    match r0 {
        Err(e) => (Err(e), k0),
        Ok(_) => {
            let (r1, k1) = p_expect(ts, skip_ws(ts, k0), TokV::OpenBrace);
            match r1 {
                Err(e) => (Err(e), k1),
                Ok(_) => {
                    let (r2, k2) = p_import_items(ts, k1, Seq::empty());
                    match r2 {
                        Err(e) => (Err(e), k2),
                        Ok(items) => {
                            let (r3, k3) = p_expect(ts, k2, TokV::CloseBrace);
                            match r3 {
                                Err(e) => (Err(e), k3),
                                Ok(_) => {
                                    let (r4, k4) = p_keyword(ts, k3, "from"@);
                                    match r4 {
                                        Err(e) => (Err(e), k4),
                                        Ok(_) => {
                                            let (r5, k5) = p_string(ts, k4);
                                            match r5 {
                                                Err(e) => (Err(e), k5),
                                                Ok(path) => (Ok(DefV::Import(items, path)), k5),
                                            }
                                        },
                                    }
                                },
                            }
                        },
                    }
                },
            }
        },
    }
}

/// The leading imports of a file.
pub open spec fn p_imports(ts: Seq<(TokV, int, int)>, k: int, acc: Seq<DefV>) -> (Result<Seq<DefV>, PErr>, int)
    decreases ts.len() - k,
{
    if cur(ts, k) == TokV::Keyword("import"@) {
        let (r1, k1) = p_import(ts, k);
        match r1 {
            Err(e) => (Err(e), k1),
            Ok(d) => if k < k1 < ts.len() {
                p_imports(ts, k1, acc.push(d))
            } else {
                (Ok(acc.push(d)), k1)
            },
        }
    } else {
        (Ok(acc), k)
    }
}

// ───────────────────────── main blocks ─────────────────────────

/// The text of the whitespace and comments read just before each token the
/// parser sees (none before the first two), from `ts` on, where `acc` has
/// been read since the last token kept.
pub open spec fn gaps_from(ts: Seq<(TokV, int, int)>, acc: Seq<char>) -> Seq<Seq<char>>
    decreases ts.len(),
{
    if ts.len() == 0 {
        Seq::empty()
    } else if skippable(ts[0].0) {
        gaps_from(ts.drop_first(), acc + tok_text(ts[0].0))
    } else {
        seq![acc] + gaps_from(ts.drop_first(), Seq::empty())
    }
}

/// For each token of [`parser_tokens`], the source text of the whitespace
/// and comments skipped just before it.
pub open spec fn parser_gaps(s: Seq<char>) -> Seq<Seq<char>> {
    let raw = lex_run(s, 0, 1, 1);
    if raw.len() <= 2 {
        Seq::new(raw.len(), |i: int| Seq::<char>::empty())
    } else {
        seq![Seq::<char>::empty(), Seq::<char>::empty()] + gaps_from(raw.skip(2), Seq::empty())
    }
}

pub open spec fn gap_at(gs: Seq<Seq<char>>, k: int) -> Seq<char> {
    if 0 <= k < gs.len() {
        gs[k]
    } else {
        Seq::empty()
    }
}

/// An argument value of a template call: `$name`, a name (an object
/// instance, else a registered type, else a template argument), a string or
/// a whole number.
pub open spec fn p_targ(ts: Seq<(TokV, int, int)>, k: int, st: GSt) -> (Result<TArg, PErr>, int) {
    match cur(ts, k) {
        TokV::Dollar => {
            let (r, k1) = p_ident(ts, adv(ts, k));
            match r {
                Err(e) => (Err(e), k1),
                Ok(n) => (Ok(TArg::TemplateArgRef(n)), k1),
            }
        },
        TokV::Identifier(n) => (
            Ok(
                if st.objs.contains(n) {
                    TArg::ObjectRef(n)
                } else if apos(st.reg, n) >= 0 {
                    TArg::TypeRef(n)
                } else {
                    TArg::TemplateArgRef(n)
                },
            ),
            adv(ts, k),
        ),
        TokV::String(v) => (Ok(TArg::String(v)), adv(ts, k)),
        TokV::Number(n) => (Ok(TArg::Number(n)), adv(ts, k)),
        _ => (Err(unexpected(ts, k)), k),
    }
}

/// `name: value` arguments separated by commas, up to the `)`; a later
/// argument of the same name replaces an earlier one; line breaks are skipped.
pub open spec fn p_call_args(ts: Seq<(TokV, int, int)>, k: int, st: GSt, acc: Seq<(Seq<char>, TArg)>) -> (
    Result<Seq<(Seq<char>, TArg)>, PErr>,
    int,
)
    decreases ts.len() - k,
{
    let t = cur(ts, k);
    if t is CloseParen || k < 0 || k >= ts.len() {
        (Ok(acc), k)
    } else if t is Newline {
        if k + 1 < ts.len() {
            p_call_args(ts, k + 1, st, acc)
        } else {
            (Ok(acc), k)
        }
    } else if t is Identifier {
        let (r1, k1) = p_ident(ts, k);
        match r1 {
            Err(e) => (Err(e), k1),
            Ok(name) => {
                let (r2, k2) = p_expect(ts, k1, TokV::Colon);
                match r2 {
                    Err(e) => (Err(e), k2),
                    Ok(_) => {
                        let (r3, k3) = p_targ(ts, k2, st);
                        match r3 {
                            Err(e) => (Err(e), k3),
                            Ok(v) => {
                                let acc2 = ainsert(acc, name, v);
                                let next = if cur(ts, k3) is Comma {
                                    adv(ts, k3)
                                } else {
                                    k3
                                };
                                if !(cur(ts, k3) is Comma) && !(cur(ts, k3) is CloseParen) {
                                    (Err(unexpected(ts, k3)), k3)
                                } else if k < next < ts.len() {
                                    p_call_args(ts, next, st, acc2)
                                } else {
                                    (Ok(acc2), next)
                                }
                            },
                        }
                    },
                }
            },
        }
    } else {
        (Err(unexpected(ts, k)), k)
    }
}

/// `Name(args)`.
#[verifier::opaque]
pub open spec fn p_call(ts: Seq<(TokV, int, int)>, k: int, st: GSt) -> (Result<CallV, PErr>, int) {
    let (r1, k1) = p_ident(ts, k);
    match r1 {
        Err(e) => (Err(e), k1),
        Ok(name) => {
            let (r2, k2) = p_expect(ts, k1, TokV::OpenParen);
            match r2 {
                Err(e) => (Err(e), k2),
                Ok(_) => {
                    let (r3, k3) = p_call_args(ts, k2, st, Seq::empty());
                    match r3 {
                        Err(e) => (Err(e), k3),
                        Ok(args) => {
                            let (r4, k4) = p_expect(ts, k3, TokV::CloseParen);
                            match r4 {
                                Err(e) => (Err(e), k4),
                                Ok(_) => (Ok((name, args)), k4),
                            }
                        },
                    }
                },
            }
        },
    }
}

/// Whether `name` is registered, under exactly that key, as an object.
pub open spec fn names_object(st: GSt, name: Seq<char>) -> bool {
    apos(st.reg, name) >= 0 && st.reg[apos(st.reg, name)].1.ty is Obj
}

/// `let name = Call(args);`: an object instance where the call names a
/// registered object (bound under the namespaced name), else the result of a
/// template, which must exist.
#[verifier::opaque]
pub open spec fn p_assign(ts: Seq<(TokV, int, int)>, k: int, st: GSt) -> (Result<StmtV, PErr>, int, GSt) {
    let (r1, k1) = p_keyword(ts, k, "let"@);
    match r1 {
        Err(e) => (Err(e), k1, st),
        Ok(_) => {
            let (r2, k2) = p_ident(ts, k1);
            match r2 {
                Err(e) => (Err(e), k2, st),
                Ok(var) => {
                    let (r3, k3) = p_expect(ts, k2, TokV::Equals);
                    match r3 {
                        Err(e) => (Err(e), k3, st),
                        Ok(_) => {
                            let (r4, k4) = p_call(ts, k3, st);
                            match r4 {
                                Err(e) => (Err(e), k4, st),
                                Ok(call) => if names_object(st, call.0) {
                                    let (r5, k5) = p_expect(ts, k4, TokV::Semicolon);
                                    match r5 {
                                        Err(e) => (Err(e), k5, st),
                                        Ok(_) => {
                                            let key = namespaced(st, var);
                                            let objs = if st.objs.contains(key) {
                                                st.objs
                                            } else {
                                                st.objs.push(key)
                                            };
                                            (Ok(StmtV::Inst(var, call.0, call.1)), k5, GSt { objs, ..st })
                                        },
                                    }
                                } else {
                                    match lookup_spec(st.tpl, call.0) {
                                        Err(PErr::NotFound(_)) => (
                                            Err(
                                                PErr::BadCall(
                                                    call.0,
                                                    "Template '"@ + call.0 + "' not found"@,
                                                    errloc(ts, k4),
                                                ),
                                            ),
                                            k4,
                                            st,
                                        ),
                                        Err(e) => (Err(e), k4, st),
                                        Ok(_) => {
                                            let (r5, k5) = p_expect(ts, k4, TokV::Semicolon);
                                            match r5 {
                                                Err(e) => (Err(e), k5, st),
                                                Ok(_) => (Ok(StmtV::Assign(var, call)), k5, st),
                                            }
                                        },
                                    }
                                },
                            }
                        },
                    }
                },
            }
        },
    }
}

/// The statements of a main block, up to `prompt` or `}`; tokens that start
/// no statement are skipped.
pub open spec fn p_stmts(ts: Seq<(TokV, int, int)>, k: int, st: GSt, acc: Seq<StmtV>) -> (
    Result<Seq<StmtV>, PErr>,
    int,
    GSt,
)
    decreases ts.len() - k,
{
    let t = cur(ts, k);
    if t == TokV::Keyword("prompt"@) || t is CloseBrace || k < 0 || k >= ts.len() {
        (Ok(acc), k, st)
    } else if t == TokV::Keyword("let"@) {
        let (r1, k1, st1) = p_assign(ts, k, st);
        match r1 {
            Err(e) => (Err(e), k1, st1),
            Ok(s) => if k < k1 < ts.len() {
                p_stmts(ts, k1, st1, acc.push(s))
            } else {
                (Ok(acc.push(s)), k1, st1)
            },
        }
    } else if t is Identifier {
        let (r1, k1) = p_call(ts, k, st);
        match r1 {
            Err(e) => (Err(e), k1, st),
            Ok(call) => {
                let (r2, k2) = p_expect(ts, k1, TokV::Semicolon);
                match r2 {
                    Err(e) => (Err(e), k2, st),
                    Ok(_) => if k < k2 < ts.len() {
                        p_stmts(ts, k2, st, acc.push(StmtV::Call(call)))
                    } else {
                        (Ok(acc.push(StmtV::Call(call))), k2, st)
                    },
                }
            },
        }
    } else if t is Eof {
        (Err(PErr::Eof("prompt block or closing brace"@, errloc(ts, k))), k, st)
    } else if k + 1 < ts.len() {
        p_stmts(ts, k + 1, st, acc)
    } else {
        (Ok(acc), k, st)
    }
}

/// `name: Type` template arguments separated by commas, up to the `}`; a
/// later argument of the same name replaces an earlier one; line breaks are
/// skipped.
pub open spec fn p_targ_items(ts: Seq<(TokV, int, int)>, k: int, st: GSt, acc: Seq<(Seq<char>, TyV)>) -> (
    Result<Seq<(Seq<char>, TyV)>, PErr>,
    int,
    GSt,
)
    decreases ts.len() - k,
{
    let t = cur(ts, k);
    if t is CloseBrace || k < 0 || k >= ts.len() {
        (Ok(acc), k, st)
    } else if t is Newline {
        if k + 1 < ts.len() {
            p_targ_items(ts, k + 1, st, acc)
        } else {
            (Ok(acc), k, st)
        }
    } else if t is Identifier {
        let (r1, k1) = p_ident(ts, k);
        match r1 {
            Err(e) => (Err(e), k1, st),
            Ok(name) => {
                let (r2, k2) = p_expect(ts, k1, TokV::Colon);
                match r2 {
                    Err(e) => (Err(e), k2, st),
                    Ok(_) => {
                        let (r3, k3, st3) = p_type(ts, k2, st);
                        match r3 {
                            Err(e) => (Err(e), k3, st3),
                            Ok(ty) => {
                                let acc2 = ainsert(acc, name, ty);
                                let next = if cur(ts, k3) is Comma {
                                    adv(ts, k3)
                                } else {
                                    k3
                                };
                                if !(cur(ts, k3) is Comma) && !(cur(ts, k3) is CloseBrace) {
                                    (Err(unexpected(ts, k3)), k3, st3)
                                } else if k < next < ts.len() {
                                    p_targ_items(ts, next, st3, acc2)
                                } else {
                                    (Ok(acc2), next, st3)
                                }
                            },
                        }
                    },
                }
            },
        }
    } else {
        (Err(unexpected(ts, k)), k, st)
    }
}

/// The text of a prompt block from `k` (the token after its `{`) at brace
/// depth `depth`: every token written back with the whitespace and comments
/// before it (but before the first), up to the matching `}`, or to the end
/// of input. (text, where reading stops).
pub open spec fn p_prompt(ts: Seq<(TokV, int, int)>, gs: Seq<Seq<char>>, k: int, depth: int, first: bool, acc: Seq<char>) -> (
    Seq<char>,
    int,
)
    decreases ts.len() - k,
{
    let t = cur(ts, k);
    let gap = if first {
        Seq::<char>::empty()
    } else {
        gap_at(gs, k)
    };
    if t is Eof || k < 0 || k >= ts.len() {
        (acc + gap, k)
    } else if t is CloseBrace && depth <= 1 {
        (acc + gap, adv(ts, k))
    } else {
        let depth2 = if t is OpenBrace {
            depth + 1
        } else if t is CloseBrace {
            depth - 1
        } else {
            depth
        };
        let acc2 = acc + gap + tok_text(t);
        if k + 1 < ts.len() {
            p_prompt(ts, gs, k + 1, depth2, false, acc2)
        } else {
            (acc2, k)
        }
    }
}

/// `main { template_args { … } statements prompt { … } }` from `k`; a file
/// has at most one main block. The object instances bound on the way, and
/// the inline objects of argument types, stay recorded where it fails later.
#[verifier::opaque]
pub open spec fn p_main(ts: Seq<(TokV, int, int)>, gs: Seq<Seq<char>>, k: int, st: GSt) -> (Result<MainV, PErr>, int, GSt) {
    if st.main {
        (Err(PErr::Duplicate("main"@, errloc(ts, k))), k, st)
    } else {
        let (r1, k1) = p_keyword(ts, k, "main"@);
        match r1 {
            Err(e) => (Err(e), k1, st),
            Ok(_) => {
                let (r2, k2) = p_expect(ts, k1, TokV::OpenBrace);
                match r2 {
                    Err(e) => (Err(e), k2, st),
                    Ok(_) => {
                        let (ra, ka, sta) = if cur(ts, k2) == TokV::Keyword("template_args"@) {
                            let k3 = adv(ts, k2);
                            let (rb, kb) = p_expect(ts, k3, TokV::OpenBrace);
                            match rb {
                                Err(e) => (Err(e), kb, st),
                                Ok(_) => {
                                    let (rc, kc, stc) = p_targ_items(ts, kb, st, Seq::empty());
                                    match rc {
                                        Err(e) => (Err(e), kc, stc),
                                        Ok(args) => {
                                            let (rd, kd) = p_expect(ts, kc, TokV::CloseBrace);
                                            match rd {
                                                Err(e) => (Err(e), kd, stc),
                                                Ok(_) => (Ok(args), kd, stc),
                                            }
                                        },
                                    }
                                },
                            }
                        } else {
                            (Ok(Seq::empty()), k2, st)
                        };
                        match ra {
                            Err(e) => (Err(e), ka, sta),
                            Ok(args) => {
                                let (r4, k4, st4) = p_stmts(ts, ka, sta, Seq::empty());
                                match r4 {
                                    Err(e) => (Err(e), k4, st4),
                                    Ok(stmts) => if cur(ts, k4) == TokV::Keyword("prompt"@) {
                                        let (r6, k6) = p_expect(ts, adv(ts, k4), TokV::OpenBrace);
                                        match r6 {
                                            Err(e) => (Err(e), k6, st4),
                                            Ok(_) => {
                                                let (text, k7) = p_prompt(ts, gs, k6, 1, true, Seq::empty());
                                                let (r8, k8) = p_expect(ts, skip_ws(ts, k7), TokV::CloseBrace);
                                                match r8 {
                                                    Err(e) => (Err(e), k8, st4),
                                                    Ok(_) => (
                                                        Ok(MainV { stmts, prompt: text, args }),
                                                        k8,
                                                        GSt { main: true, main_vars: assign_vars(stmts), ..st4 },
                                                    ),
                                                }
                                            },
                                        }
                                    } else {
                                        (Err(PErr::Unexpected("Expected prompt block"@, errloc(ts, k4))), k4, st4)
                                    },
                                }
                            },
                        }
                    },
                }
            },
        }
    }
}

/// The variables `let` statements assign template results to, in order.
pub open spec fn assign_vars(stmts: Seq<StmtV>) -> Seq<Seq<char>>
    decreases stmts.len(),
{
    if stmts.len() == 0 {
        Seq::empty()
    } else {
        let acc = assign_vars(stmts.drop_last());
        match stmts.last() {
            StmtV::Assign(v, _) => acc.push(v),
            _ => acc,
        }
    }
}

/// Whether a main block is among `defs`.
pub open spec fn has_main(defs: Seq<DefV>) -> bool {
    exists|i: int| 0 <= i < defs.len() && #[trigger] defs[i] is Main
}

/// The definitions of a file after its imports; other tokens are skipped.
pub open spec fn p_defs(ts: Seq<(TokV, int, int)>, gs: Seq<Seq<char>>, k: int, st: GSt, library: bool, acc: Seq<DefV>) -> (
    Result<Seq<DefV>, PErr>,
    int,
    GSt,
)
    decreases ts.len() - k,
{
    if k < 0 || k >= ts.len() || cur(ts, k) is Eof {
        (Ok(acc), k, st)
    } else {
        let t = cur(ts, k);
        if t == TokV::Keyword("main"@) {
            if library {
                (Err(PErr::Unexpected("main block in library file"@, errloc(ts, k))), k, st)
            } else {
                let (r1, k1, st1) = p_main(ts, gs, k, st);
                match r1 {
                    Err(e) => (Err(e), k1, st1),
                    Ok(m) => if k < k1 < ts.len() {
                        p_defs(ts, gs, k1, st1, library, acc.push(DefV::Main(m)))
                    } else {
                        (Ok(acc.push(DefV::Main(m))), k1, st1)
                    },
                }
            }
        } else if t == TokV::Keyword("object"@) || t == TokV::Keyword("template"@) || t == TokV::Keyword("union"@) {
            let (r1, k1, st1) = if t == TokV::Keyword("object"@) {
                p_object(ts, k, st)
            } else if t == TokV::Keyword("template"@) {
                p_template(ts, k, st)
            } else {
                p_union(ts, k, st)
            };
            match r1 {
                Err(e) => (Err(e), k1, st1),
                Ok(d) => if k < k1 < ts.len() {
                    p_defs(ts, gs, k1, st1, library, acc.push(d))
                } else {
                    (Ok(acc.push(d)), k1, st1)
                },
            }
        } else if k + 1 < ts.len() {
            p_defs(ts, gs, k + 1, st, library, acc)
        } else {
            (Ok(acc), k, st)
        }
    }
}




// ───────────────────────── imports ─────────────────────────

/// The text of each imported file by its resolved path, or why it could not
/// be read.
pub type SourcesV = Seq<(Seq<char>, Result<Seq<char>, Seq<char>>)>;

pub open spec fn source_of(files: SourcesV, p: Seq<char>) -> Option<Result<Seq<char>, Seq<char>>> {
    let i = apos(files, p);
    if i >= 0 {
        Some(files[i].1)
    } else {
        None
    }
}

/// How many of the given files could still be entered: those whose chain key
/// is not in the import chain.
pub open spec fn unentered(files: SourcesV, base: Seq<char>, ch: Seq<Seq<char>>) -> nat
    decreases files.len(),
{
    if files.len() == 0 {
        0
    } else {
        unentered(files.drop_last(), base, ch) + (if ch.contains(resolve_spec(base, files.last().0)) {
            0nat
        } else {
            1nat
        })
    }
}

pub proof fn lemma_unentered_mono(files: SourcesV, base: Seq<char>, ch: Seq<Seq<char>>, x: Seq<char>)
    ensures
        unentered(files, base, ch.push(x)) <= unentered(files, base, ch),
    decreases files.len(),
{
    if files.len() > 0 {
        lemma_unentered_mono(files.drop_last(), base, ch, x);
        let k = resolve_spec(base, files.last().0);
        if ch.contains(k) {
            let i = choose|i: int| 0 <= i < ch.len() && ch[i] == k;
            assert(ch.push(x)[i] == k);
        }
    }
}

/// Entering a file that is given and not yet in the chain leaves fewer to enter.
pub proof fn lemma_unentered_push(files: SourcesV, base: Seq<char>, ch: Seq<Seq<char>>, p: Seq<char>)
    requires
        apos(files, p) >= 0,
        !ch.contains(resolve_spec(base, p)),
    ensures
        unentered(files, base, ch.push(resolve_spec(base, p))) < unentered(files, base, ch),
    decreases files.len(),
{
    let x = resolve_spec(base, p);
    if apos(files.drop_last(), p) >= 0 {
        lemma_unentered_push(files.drop_last(), base, ch, p);
        let k = resolve_spec(base, files.last().0);
        if ch.contains(k) {
            let i = choose|i: int| 0 <= i < ch.len() && ch[i] == k;
            assert(ch.push(x)[i] == k);
        }
    } else {
        lemma_unentered_mono(files.drop_last(), base, ch, x);
        assert(ch.push(x)[ch.len() as int] == x);
    }
}

/// The name a definition is imported by.
pub open spec fn def_name(d: DefV) -> Option<Seq<char>> {
    match d {
        DefV::Object(f) => Some(f.name),
        DefV::Template(t) => Some(t.name),
        DefV::Union(f) => Some(f.name),
        _ => None,
    }
}

/// A library's definition of `name`: the last one, where several share it.
pub open spec fn lib_lookup(lib: Seq<DefV>, name: Seq<char>) -> Option<DefV>
    decreases lib.len(),
{
    if lib.len() == 0 {
        None
    } else if def_name(lib.last()) == Some(name) {
        Some(lib.last())
    } else {
        lib_lookup(lib.drop_last(), name)
    }
}

/// Registering, under its bare name, each library object a type refers to
/// (with the objects its fields refer to) that is not registered yet.
pub open spec fn add_refs(t: TyV, lib: Seq<DefV>, st: GSt) -> GSt
    decreases t,
{
    match t {
        TyV::Obj(_, td) => match lib_lookup(lib, td.label) {
            Some(DefV::Object(f)) => if apos(st.reg, td.label) >= 0 {
                st
            } else {
                let st1 = GSt { reg: ainsert(st.reg, td.label, f), ..st };
                match td.fields {
                    Some(fs) => add_refs_fields(fs, lib, st1),
                    None => st1,
                }
            },
            _ => st,
        },
        TyV::Arr(_, td) => match td.elem {
            Some(e) => add_refs(*e, lib, st),
            None => st,
        },
        TyV::Union(ms, _) => add_refs_fields(ms, lib, st),
        _ => st,
    }
}

/// [`add_refs`] for the type of each field in turn.
pub open spec fn add_refs_fields(fs: Seq<FieldV>, lib: Seq<DefV>, st: GSt) -> GSt
    decreases fs,
{
    if fs.len() == 0 {
        st
    } else {
        add_refs(fs.last().ty, lib, add_refs_fields(fs.drop_last(), lib, st))
    }
}

/// An imported object or union: registered under its namespaced name unless
/// that is taken, then the objects it refers to.
pub open spec fn reg_import_field(f: FieldV, lib: Seq<DefV>, st: GSt) -> GSt {
    let nid = namespaced(st, f.name);
    if apos(st.reg, nid) >= 0 {
        st
    } else {
        add_refs(f.ty, lib, GSt { reg: ainsert(st.reg, nid, f), ..st })
    }
}

/// Registering one imported definition.
pub open spec fn reg_one(d: DefV, lib: Seq<DefV>, st: GSt) -> GSt {
    match d {
        DefV::Object(f) => reg_import_field(f, lib, st),
        DefV::Union(f) => reg_import_field(f, lib, st),
        DefV::Template(t) => {
            let nid = namespaced(st, t.name);
            if apos(st.tpl, nid) >= 0 {
                st
            } else {
                add_refs(t.output.ty, lib, add_refs_fields(t.inputs, lib, GSt { tpl: ainsert(st.tpl, nid, t), ..st }))
            }
        },
        _ => st,
    }
}

/// Registering the imported names `items[j..]`; each must be defined by the library.
pub open spec fn reg_items(items: Seq<Seq<char>>, j: int, lib: Seq<DefV>, path: Seq<char>, st: GSt) -> (Result<(), PErr>, GSt)
    decreases items.len() - j,
{
    if j < 0 || j >= items.len() {
        (Ok(()), st)
    } else {
        match lib_lookup(lib, items[j]) {
            None => (Err(PErr::NotImported(items[j], path)), st),
            Some(d) => reg_items(items, j + 1, lib, path, reg_one(d, lib, st)),
        }
    }
}

/// The module stack with its innermost entry left.
pub open spec fn pop_module(st: GSt) -> GSt {
    if st.module.len() > 0 {
        GSt { module: st.module.drop_last(), ..st }
    } else {
        st
    }
}

/// Resolving the imports `imps[i..]` of a file against the given sources:
/// (outcome, state after, import chain after).
pub open spec fn r_imports(imps: Seq<DefV>, i: int, st: GSt, ch: Seq<Seq<char>>, files: SourcesV, base: Seq<char>) -> (
    Result<(), PErr>,
    GSt,
    Seq<Seq<char>>,
)
    decreases unentered(files, base, ch), 1int, imps.len() - i,
{
    if i < 0 || i >= imps.len() {
        (Ok(()), st, ch)
    } else {
        match imps[i] {
            DefV::Import(items, path) => {
                let fp = resolve_spec(base, path);
                let st1 = GSt { module: st.module.push(path), ..st };
                let cp = resolve_spec(base, fp);
                if ch.contains(cp) {
                    (Err(PErr::Circular(cp, ch)), st1, ch)
                } else {
                    let ch1 = ch.push(cp);
                    match source_of(files, fp) {
                        None => (Err(PErr::NeedFile(fp, path)), st1, ch1),
                        Some(Err(msg)) => (Err(PErr::FileErr(path, msg)), st1, ch1),
                        Some(Ok(text)) => if text.len() + 2 >= usize::MAX {
                            (Err(PErr::Overflow), st1, ch1)
                        } else {
                            proof {
                                lemma_unentered_push(files, base, ch, fp);
                            }
                            let (r2, st2, ch2) = pf(text, st1, ch1, true, files, base);
                            match r2 {
                                Err(e) => (Err(e), st2, ch2),
                                Ok(lib) => {
                                    let (r3, st3) = reg_items(items, 0, lib, path, st2);
                                    match r3 {
                                        Err(e) => (Err(e), st3, ch1),
                                        Ok(_) => r_imports(imps, i + 1, pop_module(st3), ch, files, base),
                                    }
                                },
                            }
                        },
                    }
                }
            },
            _ => r_imports(imps, i + 1, st, ch, files, base),
        }
    }
}

/// A whole file read with its imports resolved against the given sources:
/// its imports, each imported library read in turn (which registers what it
/// defines under the import's path), the imported names registered, then the
/// file's own definitions and main block. An application file must have a
/// main block; a library file must not.
/// (outcome, state after, import chain after).
pub open spec fn pf(src: Seq<char>, st: GSt, ch: Seq<Seq<char>>, library: bool, files: SourcesV, base: Seq<char>) -> (
    Result<Seq<DefV>, PErr>,
    GSt,
    Seq<Seq<char>>,
)
    decreases unentered(files, base, ch), 2int, 0int,
{
    let ts = parser_tokens(src);
    let k0 = skip_ws(ts, 0);
    let (r1, k1) = p_imports(ts, k0, Seq::empty());
    match r1 {
        Err(e) => (Err(e), st, ch),
        Ok(imports) => {
            let (r2, st2, ch2) = r_imports(imports, 0, st, ch, files, base);
            match r2 {
                Err(e) => (Err(e), st2, ch2),
                Ok(_) => if st2.counter < 0 || st2.counter + ts.len() >= i64::MAX {
                    (Err(PErr::Overflow), st2, ch)
                } else {
                    let (r3, _, st3) = p_defs(ts, parser_gaps(src), k1, st2, library, imports);
                    match r3 {
                        Err(e) => (Err(e), st3, ch),
                        Ok(defs) => if library || has_main(defs) {
                            (Ok(defs), st3, ch)
                        } else {
                            (Err(PErr::MissingMain), st3, ch)
                        },
                    }
                },
            }
        },
    }
}

/// What the leading imports of a file are read into is all imports.
pub proof fn lemma_imports_are_imports(ts: Seq<(TokV, int, int)>, k: int, acc: Seq<DefV>, i: int)
    requires
        forall|j: int| 0 <= j < acc.len() ==> #[trigger] acc[j] is Import,
        p_imports(ts, k, acc).0 is Ok,
        0 <= i < p_imports(ts, k, acc).0->Ok_0.len(),
    ensures
        p_imports(ts, k, acc).0->Ok_0[i] is Import,
    decreases ts.len() - k,
{
    if cur(ts, k) == TokV::Keyword("import"@) {
        let (r1, k1) = p_import(ts, k);
        if let Ok(d) = r1 {
            assert(d is Import);
            if k < k1 < ts.len() {
                assert forall|j: int| 0 <= j < acc.push(d).len() implies #[trigger] acc.push(d)[j] is Import by {
                    if j < acc.len() {
                        assert(acc[j] is Import);
                    }
                }
                lemma_imports_are_imports(ts, k1, acc.push(d), i);
            } else {
                if i < acc.len() {
                    assert(acc[i] is Import);
                }
            }
        }
    } else {
        assert(acc[i] is Import);
    }
}

/// Imports that resolve leave the import chain as it was.
pub proof fn lemma_r_imports_chain(imps: Seq<DefV>, i: int, st: GSt, ch: Seq<Seq<char>>, files: SourcesV, base: Seq<char>)
    ensures
        r_imports(imps, i, st, ch, files, base).0 is Ok ==> r_imports(imps, i, st, ch, files, base).2 == ch,
    decreases imps.len() - i,
{
    if 0 <= i < imps.len() {
        match imps[i] {
            DefV::Import(items, path) => {
                let fp = resolve_spec(base, path);
                let st1 = GSt { module: st.module.push(path), ..st };
                let cp = resolve_spec(base, fp);
                if !ch.contains(cp) {
                    let ch1 = ch.push(cp);
                    if let Some(Ok(text)) = source_of(files, fp) {
                        if text.len() + 2 < usize::MAX {
                            let (r2, st2, ch2) = pf(text, st1, ch1, true, files, base);
                            if let Ok(lib) = r2 {
                                let (r3, st3) = reg_items(items, 0, lib, path, st2);
                                lemma_r_imports_chain(imps, i + 1, pop_module(st3), ch, files, base);
                            }
                        }
                    }
                }
            },
            _ => {
                lemma_r_imports_chain(imps, i + 1, st, ch, files, base);
            },
        }
    }
}

/// A file whose imports all resolve and which parses leaves the import chain
/// as it was.
pub proof fn lemma_pf_chain(src: Seq<char>, st: GSt, ch: Seq<Seq<char>>, library: bool, files: SourcesV, base: Seq<char>)
    ensures
        pf(src, st, ch, library, files, base).0 is Ok ==> pf(src, st, ch, library, files, base).2 == ch,
{
    let ts = parser_tokens(src);
    let (r1, k1) = p_imports(ts, skip_ws(ts, 0), Seq::empty());
    if let Ok(imports) = r1 {
        lemma_r_imports_chain(imports, 0, st, ch, files, base);
    }
}

// ───────────────────────── well-formed definitions ─────────────────────────

/// Array element types and union members are never literal values (the
/// schema of such a type could not be named).
pub open spec fn ok_ty(t: TyV) -> bool
    decreases t,
{
    match t {
        TyV::Arr(_, td) => match td.elem {
            Some(e) => !(*e is Val),
            None => true,
        },
        TyV::Union(ms, _) => ok_members(ms),
        _ => true,
    }
}

pub open spec fn ok_members(ms: Seq<FieldV>) -> bool
    decreases ms,
{
    if ms.len() == 0 {
        true
    } else {
        ok_ty(ms.last().ty) && !(ms.last().ty is Val) && ok_members(ms.drop_last())
    }
}

/// A type the grammar can produce: not a literal, and well formed.
pub open spec fn good_ty(t: TyV) -> bool {
    ok_ty(t) && !(t is Val)
}

pub open spec fn all_good(ts: Seq<TyV>) -> bool {
    forall|i: int| 0 <= i < ts.len() ==> #[trigger] good_ty(ts[i])
}

pub open spec fn good_fields(fs: Seq<FieldV>) -> bool {
    forall|i: int| 0 <= i < fs.len() ==> #[trigger] good_ty(fs[i].ty)
}

/// Registered definitions are objects or well-formed unions, and templates
/// take and give well-formed types.
pub open spec fn defs_ok(st: GSt) -> bool {
    &&& forall|i: int| 0 <= i < st.reg.len() ==> #[trigger] reg_entry_ok(st.reg[i].1)
    &&& forall|j: int| 0 <= j < st.tpl.len() ==> #[trigger] tpl_entry_ok(st.tpl[j].1)
}

pub open spec fn reg_entry_ok(f: FieldV) -> bool {
    good_ty(f.ty) && (f.ty is Obj || f.ty is Union)
}

pub open spec fn tpl_entry_ok(t: TemplV) -> bool {
    good_fields(t.inputs) && good_ty(t.output.ty)
}

proof fn lemma_ok_members(ms: Seq<FieldV>)
    ensures
        ok_members(ms) == good_fields(ms),
    decreases ms.len(),
{
    if ms.len() > 0 {
        lemma_ok_members(ms.drop_last());
        if good_fields(ms) {
            assert(good_ty(ms[ms.len() - 1].ty));
            assert forall|i: int| 0 <= i < ms.drop_last().len() implies #[trigger] good_ty(ms.drop_last()[i].ty) by {
                assert(good_ty(ms[i].ty));
            }
        }
        if ok_members(ms) {
            assert forall|i: int| 0 <= i < ms.len() implies #[trigger] good_ty(ms[i].ty) by {
                if i < ms.len() - 1 {
                    assert(good_ty(ms.drop_last()[i].ty));
                }
            }
        }
    }
}

proof fn lemma_good_fields_push(fs: Seq<FieldV>, f: FieldV)
    requires
        good_fields(fs),
        good_ty(f.ty),
    ensures
        good_fields(fs.push(f)),
{
    assert forall|i: int| 0 <= i < fs.push(f).len() implies #[trigger] good_ty(fs.push(f)[i].ty) by {
        if i < fs.len() {
            assert(good_ty(fs[i].ty));
        }
    }
}

proof fn lemma_all_good_push(ts: Seq<TyV>, t: TyV)
    requires
        all_good(ts),
        good_ty(t),
    ensures
        all_good(ts.push(t)),
{
    assert forall|i: int| 0 <= i < ts.push(t).len() implies #[trigger] good_ty(ts.push(t)[i]) by {
        if i < ts.len() {
            assert(good_ty(ts[i]));
        }
    }
}

proof fn lemma_members_named_good(ts: Seq<TyV>)
    requires
        all_good(ts),
    ensures
        good_fields(members_named(ts)),
        ok_members(members_named(ts)),
{
    assert forall|i: int| 0 <= i < members_named(ts).len() implies #[trigger] good_ty(members_named(ts)[i].ty) by {
        assert(good_ty(ts[i]));
    }
    lemma_ok_members(members_named(ts));
}

proof fn lemma_matches_from<V>(s: Seq<(Seq<char>, V)>, name: Seq<char>)
    ensures
        forall|i: int| 0 <= i < name_matches(s, name).len() ==> exists|j: int| 0 <= j < s.len() && #[trigger] name_matches(s, name)[i] == s[j],
    decreases s.len(),
{
    if s.len() > 0 {
        lemma_matches_from(s.drop_last(), name);
        let m = name_matches(s, name);
        let m0 = name_matches(s.drop_last(), name);
        assert forall|i: int| 0 <= i < m.len() implies exists|j: int| 0 <= j < s.len() && #[trigger] m[i] == s[j] by {
            if i < m0.len() {
                let j = choose|j: int| 0 <= j < s.drop_last().len() && m0[i] == s.drop_last()[j];
                assert(m[i] == s[j]);
            } else {
                assert(m[i] == s[s.len() - 1]);
            }
        }
    }
}

proof fn lemma_create_good(st: GSt, name: Seq<char>, arr: bool)
    requires
        defs_ok(st),
    ensures
        create_spec(st, name, arr) is Ok ==> good_ty(create_spec(st, name, arr)->Ok_0),
{
    lemma_matches_from(st.reg, name);
    let m = name_matches(st.reg, name);
    if m.len() == 1 {
        let j = choose|j: int| 0 <= j < st.reg.len() && m[0] == st.reg[j];
        assert(reg_entry_ok(st.reg[j].1));
    }
}

proof fn lemma_reg_insert_ok(st: GSt, k: Seq<char>, f: FieldV)
    requires
        defs_ok(st),
        reg_entry_ok(f),
    ensures
        defs_ok(GSt { reg: ainsert(st.reg, k, f), ..st }),
{
    let s = st.reg;
    lemma_apos(s, k);
    let j = apos(s, k);
    let r = ainsert(s, k, f);
    if j >= 0 {
        assert(r == s.update(j, (k, f)));
    } else {
        assert(r == s.push((k, f)));
    }
    assert forall|i: int| 0 <= i < r.len() implies #[trigger] reg_entry_ok(r[i].1) by {
        if (j >= 0 && i != j) || (j < 0 && i < s.len()) {
            assert(r[i] == s[i]);
            assert(reg_entry_ok(s[i].1));
        } else {
            assert(r[i].1 == f);
        }
    }
    assert forall|x: int| 0 <= x < st.tpl.len() implies #[trigger] tpl_entry_ok(st.tpl[x].1) by {
        assert(tpl_entry_ok(st.tpl[x].1));
    }
}

proof fn lemma_tpl_insert_ok(st: GSt, k: Seq<char>, t: TemplV)
    requires
        defs_ok(st),
        tpl_entry_ok(t),
    ensures
        defs_ok(GSt { tpl: ainsert(st.tpl, k, t), ..st }),
{
    let s = st.tpl;
    lemma_apos(s, k);
    let j = apos(s, k);
    let r = ainsert(s, k, t);
    if j >= 0 {
        assert(r == s.update(j, (k, t)));
    } else {
        assert(r == s.push((k, t)));
    }
    assert forall|i: int| 0 <= i < r.len() implies #[trigger] tpl_entry_ok(r[i].1) by {
        if (j >= 0 && i != j) || (j < 0 && i < s.len()) {
            assert(r[i] == s[i]);
            assert(tpl_entry_ok(s[i].1));
        } else {
            assert(r[i].1 == t);
        }
    }
    assert forall|x: int| 0 <= x < st.reg.len() implies #[trigger] reg_entry_ok(st.reg[x].1) by {
        assert(reg_entry_ok(st.reg[x].1));
    }
}


/// A definition as the grammar gives it back: objects and unions are
/// registrable, templates take and give well-formed types.
pub open spec fn def_good(d: DefV) -> bool {
    match d {
        DefV::Object(f) => reg_entry_ok(f),
        DefV::Union(f) => reg_entry_ok(f),
        DefV::Template(t) => tpl_entry_ok(t),
        _ => true,
    }
}

pub open spec fn defs_good(ds: Seq<DefV>) -> bool {
    forall|i: int| 0 <= i < ds.len() ==> #[trigger] def_good(ds[i])
}

proof fn lemma_lookup_in<V>(s: Seq<(Seq<char>, V)>, name: Seq<char>, p: spec_fn(V) -> bool)
    requires
        forall|i: int| 0 <= i < s.len() ==> #[trigger] p(s[i].1),
    ensures
        lookup_spec(s, name) is Ok ==> p(lookup_spec(s, name)->Ok_0),
{
    lemma_matches_from(s, name);
    let m = name_matches(s, name);
    if m.len() == 1 {
        let j = choose|j: int| 0 <= j < s.len() && m[0] == s[j];
        assert(p(s[j].1));
    }
}

proof fn lemma_lookup_reg_good(st: GSt, name: Seq<char>)
    requires
        defs_ok(st),
    ensures
        lookup_spec(st.reg, name) is Ok ==> reg_entry_ok(lookup_spec(st.reg, name)->Ok_0),
        lookup_spec(st.tpl, name) is Ok ==> tpl_entry_ok(lookup_spec(st.tpl, name)->Ok_0),
{
    let p = |x: FieldV| reg_entry_ok(x);
    assert forall|i: int| 0 <= i < st.reg.len() implies #[trigger] p(st.reg[i].1) by {
        assert(reg_entry_ok(st.reg[i].1));
    }
    lemma_lookup_in(st.reg, name, p);
    let q = |x: TemplV| tpl_entry_ok(x);
    assert forall|i: int| 0 <= i < st.tpl.len() implies #[trigger] q(st.tpl[i].1) by {
        assert(tpl_entry_ok(st.tpl[i].1));
    }
    lemma_lookup_in(st.tpl, name, q);
}

// ───────────────────────── checking templates ─────────────────────────

pub enum WarnV {
    UndefinedType(Seq<char>, Seq<char>),
    PossibleTypo(Seq<char>, Seq<char>, Seq<char>),
    NoMainBlock,
}

/// An undefined type in a template: (template, type, in the return type).
pub type UndefV = (Seq<char>, Seq<char>, bool);

pub open spec fn warn_view(w: ValidationWarning) -> WarnV {
    match w {
        ValidationWarning::UndefinedType { type_label, location } => WarnV::UndefinedType(type_label@, location@),
        ValidationWarning::PossibleTypo { type_label, similar_to, location } => WarnV::PossibleTypo(
            type_label@,
            similar_to@,
            location@,
        ),
        ValidationWarning::NoMainBlock => WarnV::NoMainBlock,
    }
}

pub open spec fn undef_view(e: ValidationError) -> UndefV {
    match e {
        ValidationError::UndefinedTypeInTemplate { template_name, type_label, is_return_type } => (
            template_name@,
            type_label@,
            is_return_type,
        ),
    }
}

/// The number of positions below `n` where `a` and `b` differ.
pub open spec fn mismatches(a: Seq<char>, b: Seq<char>, n: int) -> int
    decreases n,
{
    if n <= 0 {
        0
    } else {
        mismatches(a, b, n - 1) + if a[n - 1] != b[n - 1] {
            1int
        } else {
            0int
        }
    }
}

/// Two names longer than two bytes (in UTF-8) that differ in at most two of
/// their common character positions.
pub open spec fn similar(known: Seq<char>, name: Seq<char>) -> bool {
    let n = if known.len() < name.len() {
        known.len() as int
    } else {
        name.len() as int
    };
    vstd::utf8::encode_utf8(known).len() > 2 && vstd::utf8::encode_utf8(name).len() > 2 && mismatches(known, name, n) <= 2
}

pub open spec fn typo_warnings(keys: Seq<Seq<char>>, name: Seq<char>, loc: Seq<char>) -> Seq<WarnV>
    decreases keys.len(),
{
    if keys.len() == 0 {
        Seq::empty()
    } else {
        typo_warnings(keys.drop_last(), name, loc) + if similar(keys.last(), name) {
            seq![WarnV::PossibleTypo(name, keys.last(), loc)]
        } else {
            Seq::<WarnV>::empty()
        }
    }
}

pub open spec fn reg_keys(st: GSt) -> Seq<Seq<char>> {
    st.reg.map_values(|e: (Seq<char>, FieldV)| e.0)
}

/// A type name used in template `tn` must be built in or defined.
pub open spec fn check_name(st: GSt, name: Seq<char>, tn: Seq<char>, is_ret: bool, loc: Seq<char>) -> (Seq<WarnV>, Seq<UndefV>) {
    if name != "String"@ && name != "Number"@ && lookup_spec(st.reg, name) is Err {
        (typo_warnings(reg_keys(st), name, loc), seq![(tn, name, is_ret)])
    } else {
        (Seq::empty(), Seq::empty())
    }
}

pub open spec fn label_of(t: TyV) -> Seq<char> {
    match t {
        TyV::Str(_, td) => td.label,
        TyV::Int(_, td) => td.label,
        TyV::Float(_, td) => td.label,
        TyV::Bool(_, td) => td.label,
        TyV::Obj(_, td) => td.label,
        TyV::Arr(_, td) => td.label,
        TyV::Union(_, td) => td.label,
        TyV::Val(_) => Seq::empty(),
    }
}

pub open spec fn check_type(st: GSt, t: TyV, tn: Seq<char>, is_ret: bool) -> (Seq<WarnV>, Seq<UndefV>)
    decreases t,
{
    match t {
        TyV::Arr(_, td) => match td.elem {
            Some(e) => check_name(st, label_of(*e), tn, is_ret, "array element type in template "@ + tn),
            None => (Seq::empty(), Seq::empty()),
        },
        TyV::Union(ms, _) => check_members(st, ms, tn, is_ret),
        TyV::Obj(_, td) => check_name(
            st,
            td.label,
            tn,
            is_ret,
            (if is_ret {
                "return"@
            } else {
                "parameter"@
            }) + " type in template "@ + tn,
        ),
        _ => (Seq::empty(), Seq::empty()),
    }
}

pub open spec fn check_members(st: GSt, ms: Seq<FieldV>, tn: Seq<char>, is_ret: bool) -> (Seq<WarnV>, Seq<UndefV>)
    decreases ms,
{
    if ms.len() == 0 {
        (Seq::empty(), Seq::empty())
    } else {
        let (w1, e1) = check_members(st, ms.drop_last(), tn, is_ret);
        let (w2, e2) = check_type(st, ms.last().ty, tn, is_ret);
        (w1 + w2, e1 + e2)
    }
}

pub open spec fn check_inputs(st: GSt, fs: Seq<FieldV>, tn: Seq<char>) -> (Seq<WarnV>, Seq<UndefV>)
    decreases fs.len(),
{
    if fs.len() == 0 {
        (Seq::empty(), Seq::empty())
    } else {
        let (w1, e1) = check_inputs(st, fs.drop_last(), tn);
        let (w2, e2) = check_type(st, fs.last().ty, tn, false);
        (w1 + w2, e1 + e2)
    }
}

pub open spec fn check_templates(st: GSt, ts: Seq<(Seq<char>, TemplV)>) -> (Seq<WarnV>, Seq<UndefV>)
    decreases ts.len(),
{
    if ts.len() == 0 {
        (Seq::empty(), Seq::empty())
    } else {
        let (w1, e1) = check_templates(st, ts.drop_last());
        let (tn, t) = ts.last();
        let (w2, e2) = check_inputs(st, t.inputs, tn);
        let (w3, e3) = check_type(st, t.output.ty, tn, true);
        (w1 + w2 + w3, e1 + e2 + e3)
    }
}

/// The warning for a missing main block, where none has been read.
pub open spec fn main_warning(st: GSt) -> Seq<WarnV> {
    if st.main {
        Seq::empty()
    } else {
        seq![WarnV::NoMainBlock]
    }
}

/// What `validate` reports: that no main block has been read, if none has,
/// then the undefined types of each template's parameters and return type,
/// with the defined names they may be typos of.
pub open spec fn validate_spec(st: GSt) -> (Seq<WarnV>, Seq<UndefV>) {
    let (w, e) = check_templates(st, st.tpl);
    (main_warning(st) + w, e)
}

// ───────────────────────── the collected definitions ─────────────────────────

/// A parsed definition.
#[derive(Debug)]
pub enum WAILDefinition {
    Object(WAILField),
    Template(WAILTemplateDef),
    Union(WAILField),
    Comment(String),
    Import(WAILImport),
    Main(WAILMainDef),
}

/// A statement of a main block.
#[derive(Debug)]
pub enum MainStatement {
    /// `let variable = Template(args);`
    Assignment { variable: String, template_call: WAILTemplateCall },
    /// `Template(args);`
    TemplateCall(WAILTemplateCall),
    /// `let variable = Object(args);`
    ObjectInstantiation { variable: String, object_type: String, arguments: Vec<(String, TemplateArgument)> },
}

/// `main { template_args { … } statements prompt { … } }`.
#[derive(Debug)]
pub struct WAILMainDef {
    pub statements: Vec<MainStatement>,
    pub prompt: String,
    pub template_args: Vec<(String, WAILType)>,
}

pub open spec fn call_view(c: WAILTemplateCall) -> CallV {
    (c.template_name@, tentries_view(c.arguments@))
}

pub open spec fn stmt_view(s: MainStatement) -> StmtV {
    match s {
        MainStatement::Assignment { variable, template_call } => StmtV::Assign(variable@, call_view(template_call)),
        MainStatement::TemplateCall(c) => StmtV::Call(call_view(c)),
        MainStatement::ObjectInstantiation { variable, object_type, arguments } => StmtV::Inst(
            variable@,
            object_type@,
            tentries_view(arguments@),
        ),
    }
}

pub open spec fn stmts_view(s: Seq<MainStatement>) -> Seq<StmtV> {
    s.map_values(|x: MainStatement| stmt_view(x))
}

pub open spec fn targs_types_view(s: Seq<(String, WAILType)>) -> Seq<(Seq<char>, TyV)> {
    s.map_values(|e: (String, WAILType)| (e.0@, ty_view(e.1)))
}

pub open spec fn main_view(m: WAILMainDef) -> MainV {
    MainV { stmts: stmts_view(m.statements@), prompt: m.prompt@, args: targs_types_view(m.template_args@) }
}

pub open spec fn def_view(d: WAILDefinition) -> DefV {
    match d {
        WAILDefinition::Object(f) => DefV::Object(field_view(f)),
        WAILDefinition::Template(t) => DefV::Template(templ_view(t)),
        WAILDefinition::Union(f) => DefV::Union(field_view(f)),
        WAILDefinition::Comment(c) => DefV::Comment(c@),
        WAILDefinition::Import(i) => DefV::Import(i.items@.map_values(|s: String| s@), i.path@),
        WAILDefinition::Main(m) => DefV::Main(main_view(m)),
    }
}

pub open spec fn defs_view(s: Seq<WAILDefinition>) -> Seq<DefV> {
    s.map_values(|d: WAILDefinition| def_view(d))
}

pub open spec fn reg_view(r: Seq<(String, WAILField)>) -> Seq<(Seq<char>, FieldV)> {
    r.map_values(|e: (String, WAILField)| (e.0@, field_view(e.1)))
}

pub open spec fn tpl_view(r: Seq<(String, WAILTemplateDef)>) -> Seq<(Seq<char>, TemplV)> {
    r.map_values(|e: (String, WAILTemplateDef)| (e.0@, templ_view(e.1)))
}

pub open spec fn obj_view(o: WAILObject) -> TyV {
    TyV::Obj(members_view(o.value@), td_view(o.type_data))
}

pub open spec fn refs_view(r: Seq<(String, WAILObject)>) -> Seq<(Seq<char>, TyV)> {
    r.map_values(|e: (String, WAILObject)| (e.0@, obj_view(e.1)))
}

pub open spec fn strs(r: Seq<String>) -> Seq<Seq<char>> {
    r.map_values(|e: String| e@)
}

/// Definitions collected while parsing, kept across files.
#[derive(Debug)]
pub struct DefState {
    pub(crate) registry: Vec<(String, WAILField)>,
    pub(crate) template_registry: Vec<(String, WAILTemplateDef)>,
    pub(crate) adhoc_obj_ref_id_counter: i64,
    pub(crate) adhoc_obj_ids: Vec<String>,
    pub(crate) adhoc_obj_refs: Vec<(String, WAILObject)>,
    pub(crate) current_module: Vec<String>,
    pub(crate) object_instances: Vec<(String, WAILObjectInstantiation)>,
    pub(crate) has_main: bool,
    pub(crate) main_vars: Vec<String>,
}

pub open spec fn inst_keys(r: Seq<(String, WAILObjectInstantiation)>) -> Seq<Seq<char>> {
    r.map_values(|e: (String, WAILObjectInstantiation)| e.0@)
}

impl DefState {
    pub closed spec fn view(&self) -> GSt {
        GSt {
            reg: reg_view(self.registry@),
            tpl: tpl_view(self.template_registry@),
            counter: self.adhoc_obj_ref_id_counter as int,
            adhoc_ids: strs(self.adhoc_obj_ids@),
            adhoc_refs: refs_view(self.adhoc_obj_refs@),
            module: strs(self.current_module@),
            objs: inst_keys(self.object_instances@),
            main: self.has_main,
            main_vars: strs(self.main_vars@),
        }
    }

    pub fn new() -> (r: Self)
        ensures
            r.view() == (GSt {
                reg: Seq::empty(),
                tpl: Seq::empty(),
                counter: 0,
                adhoc_ids: Seq::empty(),
                adhoc_refs: Seq::empty(),
                module: Seq::empty(),
                objs: Seq::empty(),
                main: false,
                main_vars: Seq::empty(),
            }),
    {
        let r = DefState {
            registry: Vec::new(),
            template_registry: Vec::new(),
            adhoc_obj_ref_id_counter: 0,
            adhoc_obj_ids: Vec::new(),
            adhoc_obj_refs: Vec::new(),
            current_module: Vec::new(),
            object_instances: Vec::new(),
            has_main: false,
            main_vars: Vec::new(),
        };
        assert(strs(r.main_vars@) =~= Seq::empty());
        assert(inst_keys(r.object_instances@) =~= Seq::empty());
        assert(reg_view(r.registry@) =~= Seq::empty());
        assert(tpl_view(r.template_registry@) =~= Seq::empty());
        assert(strs(r.adhoc_obj_ids@) =~= Seq::empty());
        assert(refs_view(r.adhoc_obj_refs@) =~= Seq::empty());
        assert(strs(r.current_module@) =~= Seq::empty());
        r
    }
}

pub(crate) proof fn lemma_apos<V>(s: Seq<(Seq<char>, V)>, k: Seq<char>)
    ensures
        -1 <= apos(s, k) < s.len(),
        apos(s, k) >= 0 ==> s[apos(s, k)].0 == k,
        forall|i: int| 0 <= i < s.len() && (apos(s, k) < 0 || i < apos(s, k)) ==> #[trigger] s[i].0 != k,
    decreases s.len(),
{
    if s.len() > 0 {
        lemma_apos(s.drop_last(), k);
        assert forall|i: int| 0 <= i < s.len() && (apos(s, k) < 0 || i < apos(s, k)) implies #[trigger] s[i].0 != k by {
            if i < s.len() - 1 {
                assert(s.drop_last()[i] == s[i]);
            }
        }
    }
}

/// Position of the entry with key `key`.
pub(crate) fn find_in<V>(s: &Vec<(String, V)>, key: &String) -> (r: Option<usize>)
    ensures
        match r {
            Some(i) => apos(s@.map_values(|e: (String, V)| (e.0@, ())), key@) == i && i < s@.len(),
            None => apos(s@.map_values(|e: (String, V)| (e.0@, ())), key@) == -1,
        },
{
    let ghost ks = s@.map_values(|e: (String, V)| (e.0@, ()));
    proof {
        lemma_apos(ks, key@);
    }
    let mut i: usize = 0;
    while i < s.len()
        invariant
            i <= s@.len(),
            ks == s@.map_values(|e: (String, V)| (e.0@, ())),
            forall|j: int| 0 <= j < i ==> #[trigger] ks[j].0 != key@,
            -1 <= apos(ks, key@) < ks.len(),
            apos(ks, key@) >= 0 ==> ks[apos(ks, key@)].0 == key@,
            forall|j: int| 0 <= j < ks.len() && (apos(ks, key@) < 0 || j < apos(ks, key@)) ==> #[trigger] ks[j].0 != key@,
        decreases s@.len() - i,
    {
        if s[i].0 == *key {
            assert(ks[i as int].0 == key@);
            return Some(i);
        }
        i += 1;
    }
    None
}

pub(crate) proof fn lemma_apos_keys<V, W>(a: Seq<(Seq<char>, V)>, b: Seq<(Seq<char>, W)>, k: Seq<char>)
    requires
        a.len() == b.len(),
        forall|i: int| 0 <= i < a.len() ==> #[trigger] a[i].0 == b[i].0,
    ensures
        apos(a, k) == apos(b, k),
    decreases a.len(),
{
    if a.len() > 0 {
        lemma_apos_keys(a.drop_last(), b.drop_last(), k);
    }
}

/// `registry.insert(key, field)`.
fn reg_insert(reg: &mut Vec<(String, WAILField)>, key: String, f: WAILField)
    ensures
        reg_view(final(reg)@) == ainsert(reg_view(old(reg)@), key@, field_view(f)),
{
    let ghost v0 = reg_view(reg@);
    proof {
        lemma_apos_keys(reg@.map_values(|e: (String, WAILField)| (e.0@, ())), v0, key@);
    }
    match find_in(reg, &key) {
        Some(i) => {
            let ghost fv = field_view(f);
            let ghost kv = key@;
            reg.set(i, (key, f));
            assert(reg_view(reg@) =~= v0.update(i as int, (kv, fv)));
        },
        None => {
            let ghost fv = field_view(f);
            let ghost kv = key@;
            reg.push((key, f));
            assert(reg_view(reg@) =~= v0.push((kv, fv)));
        },
    }
}

/// `template_registry.insert(key, t)`.
fn tpl_insert(reg: &mut Vec<(String, WAILTemplateDef)>, key: String, t: WAILTemplateDef)
    ensures
        tpl_view(final(reg)@) == ainsert(tpl_view(old(reg)@), key@, templ_view(t)),
{
    let ghost v0 = tpl_view(reg@);
    proof {
        lemma_apos_keys(reg@.map_values(|e: (String, WAILTemplateDef)| (e.0@, ())), v0, key@);
    }
    match find_in(reg, &key) {
        Some(i) => {
            let ghost tv = templ_view(t);
            let ghost kv = key@;
            reg.set(i, (key, t));
            assert(tpl_view(reg@) =~= v0.update(i as int, (kv, tv)));
        },
        None => {
            let ghost tv = templ_view(t);
            let ghost kv = key@;
            reg.push((key, t));
            assert(tpl_view(reg@) =~= v0.push((kv, tv)));
        },
    }
}

/// `adhoc_obj_refs.insert(key, o)`.
fn refs_insert(reg: &mut Vec<(String, WAILObject)>, key: String, o: WAILObject)
    ensures
        refs_view(final(reg)@) == ainsert(refs_view(old(reg)@), key@, obj_view(o)),
{
    let ghost v0 = refs_view(reg@);
    proof {
        lemma_apos_keys(reg@.map_values(|e: (String, WAILObject)| (e.0@, ())), v0, key@);
    }
    match find_in(reg, &key) {
        Some(i) => {
            let ghost ov = obj_view(o);
            let ghost kv = key@;
            reg.set(i, (key, o));
            assert(refs_view(reg@) =~= v0.update(i as int, (kv, ov)));
        },
        None => {
            let ghost ov = obj_view(o);
            let ghost kv = key@;
            reg.push((key, o));
            assert(refs_view(reg@) =~= v0.push((kv, ov)));
        },
    }
}


/// A result of the grammar matches its mathematical value.
pub open spec fn res_matches<T, V>(r: Result<T, WAILParseError>, s: Result<V, PErr>, f: spec_fn(T) -> V) -> bool {
    match r {
        Ok(t) => s == Ok::<V, PErr>(f(t)),
        Err(e) => s is Err && perr_view(e) == Some(s->Err_0),
    }
}

proof fn lemma_after_dot(k: Seq<char>, j: int)
    requires
        0 <= j <= k.len(),
        forall|i: int| j <= i < k.len() ==> k[i] != '.',
        j == 0 || k[j - 1] == '.',
    ensures
        after_dot(k) == k.subrange(j, k.len() as int),
    decreases k.len(),
{
    if k.len() == j {
        if j > 0 {
            assert(k.last() == '.');
        }
        assert(k.subrange(j, k.len() as int) =~= Seq::<char>::empty());
    } else {
        lemma_after_dot(k.drop_last(), j);
        assert(k.subrange(j, k.len() as int) =~= k.drop_last().subrange(j, k.len() - 1).push(k.last()));
    }
}

/// Whether the part of `key` after its last `.` is `name`.
fn key_names(key: &String, name: &String) -> (r: bool)
    ensures
        r == (after_dot(key@) == name@),
{
    let ks = chars_of(key.as_str());
    let mut j = ks.len();
    while j > 0 && ks[j - 1] != '.'
        invariant
            j <= ks@.len(),
            forall|i: int| j <= i < ks@.len() ==> ks@[i] != '.',
        decreases j,
    {
        j -= 1;
    }
    proof {
        lemma_after_dot(ks@, j as int);
    }
    let tail = crate::text::string_from_chars(vstd::slice::slice_subrange(ks.as_slice(), j, ks.len()));
    tail == *name
}

/// Looks a definition up by its bare name.
fn lookup_symbol(reg: &Vec<(String, WAILField)>, name: &String) -> (r: Result<WAILField, WAILParseError>)
    ensures
        res_matches(r, lookup_spec(reg_view(reg@), name@), |f: WAILField| field_view(f)),
{
    let ghost rv = reg_view(reg@);
    let mut found: Vec<usize> = Vec::new();
    let mut i: usize = 0;
    while i < reg.len()
        invariant
            i <= reg@.len(),
            rv == reg_view(reg@),
            forall|j: int| 0 <= j < found@.len() ==> #[trigger] found@[j] < i,
            name_matches(rv.take(i as int), name@) == found@.map_values(|j: usize| rv[j as int]),
        decreases reg@.len() - i,
    {
        proof {
            assert(rv.take(i + 1).drop_last() =~= rv.take(i as int));
            assert(rv.take(i + 1).last() == rv[i as int]);
        }
        if key_names(&reg[i].0, name) {
            let ghost f0 = found@;
            found.push(i);
            assert(found@.map_values(|j: usize| rv[j as int]) =~= f0.map_values(|j: usize| rv[j as int]).push(rv[i as int]));
        }
        i += 1;
    }
    assert(rv.take(i as int) =~= rv);
    let ghost m = name_matches(rv, name@);
    if found.len() == 0 {
        Err(WAILParseError::SymbolNotFound { name: name.clone() })
    } else if found.len() == 1 {
        assert(m[0] == rv[found@[0] as int]);
        Ok(clone_field(&reg[found[0]].1))
    } else {
        let mut keys: Vec<String> = Vec::new();
        let mut q: usize = 0;
        while q < found.len()
            invariant
                q <= found@.len(),
                rv == reg_view(reg@),
                forall|j: int| 0 <= j < found@.len() ==> #[trigger] found@[j] < reg@.len(),
                m == found@.map_values(|j: usize| rv[j as int]),
                keys@.map_values(|k: String| k@) == m.take(q as int).map_values(|e: (Seq<char>, FieldV)| e.0),
            decreases found@.len() - q,
        {
            proof {
                assert(m[q as int] == rv[found@[q as int] as int]);
                assert(rv[found@[q as int] as int].0 == reg@[found@[q as int] as int].0@);
            }
            let ghost k0 = keys@;
            let kc = reg[found[q]].0.clone();
            keys.push(kc);
            proof {
                assert(m.take(q + 1) =~= m.take(q as int).push(m[q as int]));
                assert(m.take(q + 1).map_values(|e: (Seq<char>, FieldV)| e.0) =~= m.take(q as int).map_values(|e: (Seq<char>, FieldV)| e.0).push(m[q as int].0));
                assert(keys@.map_values(|k: String| k@) =~= k0.map_values(|k: String| k@).push(kc@));
            }
            assert(keys@.map_values(|k: String| k@) =~= m.take(q + 1).map_values(|e: (Seq<char>, FieldV)| e.0));
            q += 1;
        }
        assert(m.take(q as int) =~= m);
        Err(WAILParseError::AmbiguousSymbol { name: name.clone(), matches: keys })
    }
}

/// Looks a template up by its bare name.
fn lookup_template(reg: &Vec<(String, WAILTemplateDef)>, name: &String) -> (r: Result<WAILTemplateDef, WAILParseError>)
    ensures
        res_matches(r, lookup_spec(tpl_view(reg@), name@), |t: WAILTemplateDef| templ_view(t)),
{
    let ghost rv = tpl_view(reg@);
    let mut found: Vec<usize> = Vec::new();
    let mut i: usize = 0;
    while i < reg.len()
        invariant
            i <= reg@.len(),
            rv == tpl_view(reg@),
            forall|j: int| 0 <= j < found@.len() ==> #[trigger] found@[j] < i,
            name_matches(rv.take(i as int), name@) == found@.map_values(|j: usize| rv[j as int]),
        decreases reg@.len() - i,
    {
        proof {
            assert(rv.take(i + 1).drop_last() =~= rv.take(i as int));
            assert(rv.take(i + 1).last() == rv[i as int]);
        }
        if key_names(&reg[i].0, name) {
            let ghost f0 = found@;
            found.push(i);
            assert(found@.map_values(|j: usize| rv[j as int]) =~= f0.map_values(|j: usize| rv[j as int]).push(rv[i as int]));
        }
        i += 1;
    }
    assert(rv.take(i as int) =~= rv);
    let ghost m = name_matches(rv, name@);
    if found.len() == 0 {
        Err(WAILParseError::SymbolNotFound { name: name.clone() })
    } else if found.len() == 1 {
        assert(m[0] == rv[found@[0] as int]);
        Ok(clone_template(&reg[found[0]].1))
    } else {
        let mut keys: Vec<String> = Vec::new();
        let mut q: usize = 0;
        while q < found.len()
            invariant
                q <= found@.len(),
                rv == tpl_view(reg@),
                forall|j: int| 0 <= j < found@.len() ==> #[trigger] found@[j] < reg@.len(),
                m == found@.map_values(|j: usize| rv[j as int]),
                keys@.map_values(|k: String| k@) == m.take(q as int).map_values(|e: (Seq<char>, TemplV)| e.0),
            decreases found@.len() - q,
        {
            proof {
                assert(m[q as int] == rv[found@[q as int] as int]);
                assert(rv[found@[q as int] as int].0 == reg@[found@[q as int] as int].0@);
            }
            let ghost k0 = keys@;
            let kc = reg[found[q]].0.clone();
            keys.push(kc);
            proof {
                assert(m.take(q + 1) =~= m.take(q as int).push(m[q as int]));
                assert(m.take(q + 1).map_values(|e: (Seq<char>, TemplV)| e.0) =~= m.take(q as int).map_values(|e: (Seq<char>, TemplV)| e.0).push(m[q as int].0));
                assert(keys@.map_values(|k: String| k@) =~= k0.map_values(|k: String| k@).push(kc@));
            }
            assert(keys@.map_values(|k: String| k@) =~= m.take(q + 1).map_values(|e: (Seq<char>, TemplV)| e.0));
            q += 1;
        }
        assert(m.take(q as int) =~= m);
        Err(WAILParseError::AmbiguousSymbol { name: name.clone(), matches: keys })
    }
}

/// A copy of a template with the same value.
pub fn clone_template(t: &WAILTemplateDef) -> (r: WAILTemplateDef)
    ensures
        templ_view(r) == templ_view(*t),
{
    WAILTemplateDef {
        name: t.name.clone(),
        inputs: clone_fields(&t.inputs),
        output: clone_field(&t.output),
        prompt_template: t.prompt_template.clone(),
        annotations: clone_anns(&t.annotations),
    }
}

fn text(lit: &str) -> (r: String)
    ensures
        r@ == lit@,
{
    String::from_str(lit)
}

fn str_is(s: &String, lit: &str) -> (r: bool)
    ensures
        r == (s@ == lit@),
{
    let t = String::from_str(lit);
    *s == t
}

fn plain_data(json: JsonValue, label: String) -> (r: WAILTypeData)
    ensures
        td_view(r) == plain_td(json@, label@),
{
    WAILTypeData { json_type: json, type_label: label, field_definitions: None, element_type: None }
}

/// A string type with value `v` whose JSON is the string `json`.
fn string_type_of(v: String, json: String) -> (r: WAILType)
    ensures
        ty_view(r) == string_ty(v@, JVal::Str(json@)),
{
    WAILType::Simple(WAILSimpleType::String(WAILString { value: v, type_data: plain_data(JsonValue::String(json), text("String")) }))
}

impl DefState {
    /// `id` in the module being read.
    pub fn namespaced_identifier(&self, id: &String) -> (r: String)
        ensures
            r@ == namespaced(self.view(), id@),
    {
        let n = self.current_module.len();
        if n > 0 {
            let mut out = self.current_module[n - 1].clone();
            push_str(&mut out, ".");
            push_str(&mut out, id.as_str());
            proof {
                assert(strs(self.current_module@).last() == self.current_module@[n - 1]@);
            }
            out
        } else {
            id.clone()
        }
    }

    /// The type a type name stands for.
    pub fn create_type_value(&self, name: &String, is_array: bool) -> (r: Result<WAILType, WAILParseError>)
        ensures
            defs_ok(self.view()) && r is Ok ==> good_ty(ty_view(r->Ok_0)),
            res_matches(r, create_spec(self.view(), name@, is_array), |t: WAILType| ty_view(t)),
    {
        proof {
            assert(members_view(Seq::<(WAILString, WAILType)>::empty()) =~= Seq::empty());
            assert(crate::json_types::view_entries(Seq::<(String, JsonValue)>::empty()) =~= Seq::empty());
            assert(crate::json_types::view_values(Seq::<JsonValue>::empty()) =~= Seq::empty());
            if defs_ok(self.view()) {
                lemma_create_good(self.view(), name@, is_array);
            }
        }
        let ghost want: Result<TyV, PErr> = match builtin_ty(name@) {
            Some(t) => Ok(t),
            None => match lookup_spec(self.view().reg, name@) {
                Ok(f) => Ok(f.ty),
                Err(PErr::Ambiguous(a, b)) => Err(PErr::Ambiguous(a, b)),
                Err(_) => Ok(TyV::Obj(Seq::empty(), plain_td(JVal::Object(Seq::empty()), name@))),
            },
        };
        let inner = if str_is(name, "String") {
            let t = string_type_of(String::new(), String::new());
            assert(want == Ok::<TyV, PErr>(ty_view(t)));
            t
        } else if str_is(name, "Number") {
            let t = WAILType::Simple(
                WAILSimpleType::Number(
                    WAILNumber::Integer(
                        WAILInteger { value: 0, type_data: plain_data(JsonValue::Number(crate::json_types::Number::Integer(0)), name.clone()) },
                    ),
                ),
            );
            assert(want == Ok::<TyV, PErr>(ty_view(t)));
            t
        } else if str_is(name, "Boolean") {
            let t = WAILType::Simple(
                WAILSimpleType::Boolean(WAILBoolean { value: text("false"), type_data: plain_data(JsonValue::Boolean(false), name.clone()) }),
            );
            assert(want == Ok::<TyV, PErr>(ty_view(t)));
            t
        } else {
            assert(builtin_ty(name@) is None);
            match lookup_symbol(&self.registry, name) {
                Ok(f) => {
                    assert(want == Ok::<TyV, PErr>(ty_view(f.field_type)));
                    f.field_type
                },
                Err(e) => match e {
                    WAILParseError::AmbiguousSymbol { .. } => {
                        assert(want is Err);
                        return Err(e);
                    },
                    _ => {
                        let t = WAILType::Composite(
                            WAILCompositeType::Object(
                                WAILObject { value: Vec::new(), type_data: plain_data(JsonValue::Object(Vec::new()), name.clone()) },
                            ),
                        );
                        assert(want == Ok::<TyV, PErr>(ty_view(t)));
                        t
                    },
                },
            }
        };
        if is_array {
            Ok(
                WAILType::Composite(
                    WAILCompositeType::Array(
                        WAILArray {
                            values: Vec::new(),
                            type_data: WAILTypeData {
                                json_type: JsonValue::Array(Vec::new()),
                                type_label: text("Array"),
                                field_definitions: None,
                                element_type: Some(Box::new(inner)),
                            },
                        },
                    ),
                ),
            )
        } else {
            Ok(inner)
        }
    }
}


// ───────────────────────── reading tokens ─────────────────────────

/// A code for each token kind without a payload (0 for the others).
pub open spec fn kind_code(t: TokV) -> int {
    match t {
        TokV::OpenBrace => 1,
        TokV::CloseBrace => 2,
        TokV::OpenParen => 3,
        TokV::CloseParen => 4,
        TokV::OpenBracket => 5,
        TokV::CloseBracket => 6,
        TokV::Colon => 7,
        TokV::Semicolon => 8,
        TokV::Comma => 9,
        TokV::Equals => 10,
        TokV::Arrow => 11,
        TokV::Pipe => 12,
        TokV::At => 13,
        TokV::Hash => 14,
        TokV::Newline => 15,
        TokV::Eof => 16,
        _ => 0,
    }
}

/// The token kind a code stands for.
pub open spec fn code_tok(c: int) -> TokV {
    if c == 1 {
        TokV::OpenBrace
    } else if c == 2 {
        TokV::CloseBrace
    } else if c == 3 {
        TokV::OpenParen
    } else if c == 4 {
        TokV::CloseParen
    } else if c == 5 {
        TokV::OpenBracket
    } else if c == 6 {
        TokV::CloseBracket
    } else if c == 7 {
        TokV::Colon
    } else if c == 8 {
        TokV::Semicolon
    } else if c == 9 {
        TokV::Comma
    } else if c == 10 {
        TokV::Equals
    } else if c == 11 {
        TokV::Arrow
    } else if c == 12 {
        TokV::Pipe
    } else if c == 13 {
        TokV::At
    } else if c == 14 {
        TokV::Hash
    } else if c == 15 {
        TokV::Newline
    } else {
        TokV::Eof
    }
}

fn kind(t: &Token) -> (r: u8)
    ensures
        r == kind_code(t@),
{
    match t {
        Token::OpenBrace => 1,
        Token::CloseBrace => 2,
        Token::OpenParen => 3,
        Token::CloseParen => 4,
        Token::OpenBracket => 5,
        Token::CloseBracket => 6,
        Token::Colon => 7,
        Token::Semicolon => 8,
        Token::Comma => 9,
        Token::Equals => 10,
        Token::Arrow => 11,
        Token::Pipe => 12,
        Token::At => 13,
        Token::Hash => 14,
        Token::Newline => 15,
        Token::Eof => 16,
        _ => 0,
    }
}

proof fn lemma_code(t: TokV, c: int)
    requires
        1 <= c <= 16,
    ensures
        (kind_code(t) == c) == (t == code_tok(c)),
{
}

fn is_blank(t: &Token) -> (r: bool)
    ensures
        r == (t@ is Whitespace || t@ is Newline),
{
    match t {
        Token::Whitespace(_) => true,
        Token::Newline => true,
        _ => false,
    }
}

pub open spec fn same_stream(a: Cursor, b: Cursor) -> bool {
    &&& b.wf()
    &&& b.stream() == a.stream()
}

impl Cursor {
    fn current(&self) -> (r: &Token)
        requires
            self.wf(),
        ensures
            r@ == cur(self.stream(), self.at()),
    {
        &self.toks[self.pos]
    }

    fn kind_now(&self) -> (r: u8)
        requires
            self.wf(),
        ensures
            r == kind_code(cur(self.stream(), self.at())),
    {
        kind(&self.toks[self.pos])
    }

    fn advance(&mut self)
        requires
            old(self).wf(),
        ensures
            final(self).at() >= old(self).at(),
            same_stream(*old(self), *final(self)),
            final(self).at() == adv(old(self).stream(), old(self).at()),
    {
        if self.pos < self.toks.len() - 1 {
            self.pos = self.pos + 1;
        }
    }

    fn err_location(&self) -> (r: Location)
        requires
            self.wf(),
        ensures
            loc_view(r) == errloc(self.stream(), self.at()),
    {
        if self.pos < self.locs.len() - 1 {
            self.locs[self.pos + 1]
        } else {
            self.locs[self.locs.len() - 1]
        }
    }

    fn unexpected(&self) -> (r: WAILParseError)
        requires
            self.wf(),
        ensures
            perr_view(r) == Some(unexpected(self.stream(), self.at())),
    {
        WAILParseError::UnexpectedToken { found: self.toks[self.pos].to_string(), location: self.err_location() }
    }

    fn skip_ws(&mut self)
        requires
            old(self).wf(),
        ensures
            final(self).at() >= old(self).at(),
            same_stream(*old(self), *final(self)),
            final(self).at() == skip_ws(old(self).stream(), old(self).at()),
    {
        let ghost ts = self.stream();
        while self.pos < self.toks.len() - 1 && is_blank(self.current())
            invariant
                self.wf(),
                self.stream() == ts,
                ts == old(self).stream(),
                self.at() >= old(self).at(),
                skip_ws(ts, self.at()) == skip_ws(ts, old(self).at()),
            decreases self.toks@.len() - self.pos,
        {
            self.pos = self.pos + 1;
        }
    }

    fn expect(&mut self, want: u8) -> (r: Result<(), WAILParseError>)
        requires
            old(self).wf(),
            1 <= want <= 16,
        ensures
            final(self).at() >= old(self).at(),
            same_stream(*old(self), *final(self)),
            ({
                let (sr, sk) = p_expect(old(self).stream(), old(self).at(), code_tok(want as int));
                res_matches(r, sr, |u: ()| u) && final(self).at() == sk
            }),
    {
        proof {
            lemma_code(cur(self.stream(), self.at()), want as int);
        }
        if self.kind_now() == want {
            self.advance();
            Ok(())
        } else {
            Err(self.unexpected())
        }
    }

    fn expect_identifier(&mut self) -> (r: Result<String, WAILParseError>)
        requires
            old(self).wf(),
        ensures
            final(self).at() >= old(self).at(),
            same_stream(*old(self), *final(self)),
            ({
                let (sr, sk) = p_ident(old(self).stream(), old(self).at());
                res_matches(r, sr, |s: String| s@) && final(self).at() == sk
            }),
    {
        self.skip_ws();
        match self.current() {
            Token::Identifier(name) => {
                let n = name.clone();
                self.advance();
                Ok(n)
            },
            Token::Keyword(name) => Err(WAILParseError::UnexpectedKeyword { found: name.clone(), location: self.err_location() }),
            _ => Err(self.unexpected()),
        }
    }

    fn at_keyword(&self, kw: &str) -> (r: bool)
        requires
            self.wf(),
        ensures
            r == (cur(self.stream(), self.at()) == TokV::Keyword(kw@)),
    {
        match self.current() {
            Token::Keyword(k) => str_is(k, kw),
            _ => false,
        }
    }

    fn expect_keyword(&mut self, kw: &str) -> (r: Result<(), WAILParseError>)
        requires
            old(self).wf(),
        ensures
            final(self).at() >= old(self).at(),
            same_stream(*old(self), *final(self)),
            ({
                let (sr, sk) = p_keyword(old(self).stream(), old(self).at(), kw@);
                res_matches(r, sr, |u: ()| u) && final(self).at() == sk
            }),
    {
        if self.at_keyword(kw) {
            self.advance();
            Ok(())
        } else {
            Err(self.unexpected())
        }
    }

    fn expect_string(&mut self) -> (r: Result<String, WAILParseError>)
        requires
            old(self).wf(),
        ensures
            final(self).at() >= old(self).at(),
            same_stream(*old(self), *final(self)),
            ({
                let (sr, sk) = p_string(old(self).stream(), old(self).at());
                res_matches(r, sr, |s: String| s@) && final(self).at() == sk
            }),
    {
        match self.current() {
            Token::String(s) => {
                let v = s.clone();
                self.advance();
                Ok(v)
            },
            _ => Err(self.unexpected()),
        }
    }

    /// `@description("…")` annotations.
    fn parse_annotations(&mut self) -> (r: Result<Vec<WAILAnnotation>, WAILParseError>)
        requires
            old(self).wf(),
        ensures
            final(self).at() >= old(self).at(),
            same_stream(*old(self), *final(self)),
            ({
                let (sr, sk) = p_anns(old(self).stream(), old(self).at(), Seq::empty());
                res_matches(r, sr, |a: Vec<WAILAnnotation>| anns_view(a@)) && final(self).at() == sk
            }),
    {
        let ghost ts = self.stream();
        let mut acc: Vec<WAILAnnotation> = Vec::new();
        proof {
            assert(anns_view(acc@) =~= Seq::<AnnV>::empty());
        }
        loop
            invariant
                self.wf(),
                self.stream() == ts,
                ts == old(self).stream(),
                self.at() >= old(self).at(),
                p_anns(ts, self.at(), anns_view(acc@)) == p_anns(ts, old(self).at(), Seq::empty()),
            decreases ts.len() - self.at(),
        {
            let k0 = self.pos;
            if !(self.kind_now() == 13) || self.pos >= self.toks.len() - 1 {
                return Ok(acc);
            }
            self.pos = self.pos + 1;
            let is_desc = match self.current() {
                Token::Identifier(n) => str_is(n, "description"),
                _ => false,
            };
            if !is_desc {
                return Err(self.unexpected());
            }
            self.advance();
            match self.expect(3) {
                Err(e) => {
                    return Err(e);
                },
                Ok(_) => {},
            }
            let d = match self.expect_string() {
                Err(e) => {
                    return Err(e);
                },
                Ok(d) => d,
            };
            match self.expect(4) {
                Err(e) => {
                    return Err(e);
                },
                Ok(_) => {},
            }
            let ghost a0 = acc@;
            let ghost dv = d@;
            let ann = WAILAnnotation::Description(d);
            assert(ann_view(ann) == AnnV::Description(dv));
            acc.push(ann);
            proof {
                assert(acc@.drop_last() =~= a0);
                assert(acc@.last() == ann);
                assert(anns_view(acc@) == anns_view(a0).push(AnnV::Description(dv)));
                assert(p_anns(ts, k0 as int, anns_view(a0)) == (if self.at() > k0 {
                    p_anns(ts, self.at(), anns_view(acc@))
                } else {
                    (Ok(anns_view(acc@)), self.at())
                }));
            }
            if self.pos <= k0 {
                return Ok(acc);
            }
        }
    }

    fn parse_comment(&mut self) -> (r: Result<String, WAILParseError>)
        requires
            old(self).wf(),
        ensures
            final(self).at() >= old(self).at(),
            same_stream(*old(self), *final(self)),
            ({
                let (sr, sk) = p_comment(old(self).stream(), old(self).at());
                res_matches(r, sr, |s: String| s@) && final(self).at() == sk
            }),
    {
        if self.kind_now() == 14 {
            self.advance();
            match self.current() {
                Token::Comment(c) => {
                    let v = c.clone();
                    self.advance();
                    Ok(v)
                },
                _ => Ok(String::new()),
            }
        } else {
            Err(self.unexpected())
        }
    }

    /// An optional `[]`.
    fn array_suffix(&mut self) -> (r: Result<bool, WAILParseError>)
        requires
            old(self).wf(),
        ensures
            final(self).at() >= old(self).at(),
            same_stream(*old(self), *final(self)),
            ({
                let (sr, sk) = p_array_suffix(old(self).stream(), old(self).at());
                res_matches(r, sr, |b: bool| b) && final(self).at() == sk
            }),
    {
        if self.kind_now() == 5 {
            self.advance();
            match self.expect(6) {
                Ok(_) => Ok(true),
                Err(e) => Err(e),
            }
        } else {
            Ok(false)
        }
    }
}


// ───────────────────────── types and fields ─────────────────────────

/// The counter of inline objects fits in what is left to read.
pub open spec fn budget(c: Cursor, st: DefState) -> bool {
    &&& c.wf()
    &&& st.view().counter >= 0
    &&& st.view().counter + (c.stream().len() - c.at()) < i64::MAX
}

/// The counter grew by no more than the tokens read.
pub open spec fn spent(c0: Cursor, st0: DefState, c1: Cursor, st1: DefState) -> bool {
    &&& st0.view().counter <= st1.view().counter
    &&& st1.view().counter - st0.view().counter <= c1.at() - c0.at()
}

proof fn lemma_members_view_push(s: Seq<(WAILString, WAILType)>, e: (WAILString, WAILType))
    ensures
        members_view(s.push(e)) == members_view(s).push((e.0.value@, td_view(e.0.type_data), ty_view(e.1))),
{
    assert(s.push(e).drop_last() =~= s);
}

proof fn lemma_members_view_len(s: Seq<(WAILString, WAILType)>)
    ensures
        members_view(s).len() == s.len(),
        forall|i: int| 0 <= i < s.len() ==> #[trigger] members_view(s)[i] == (s[i].0.value@, td_view(s[i].0.type_data), ty_view(s[i].1)),
    decreases s.len(),
{
    if s.len() > 0 {
        lemma_members_view_len(s.drop_last());
    }
}

proof fn lemma_member_pos(m: Seq<(Seq<char>, TdV, TyV)>, k: Seq<char>)
    ensures
        -1 <= member_pos(m, k) < m.len(),
        member_pos(m, k) >= 0 ==> m[member_pos(m, k)].0 == k,
        forall|i: int| 0 <= i < m.len() && (member_pos(m, k) < 0 || i < member_pos(m, k)) ==> #[trigger] m[i].0 != k,
    decreases m.len(),
{
    if m.len() > 0 {
        lemma_member_pos(m.drop_last(), k);
        assert forall|i: int| 0 <= i < m.len() && (member_pos(m, k) < 0 || i < member_pos(m, k)) implies #[trigger] m[i].0 != k by {
            if i < m.len() - 1 {
                assert(m.drop_last()[i] == m[i]);
            }
        }
    }
}

/// Inserts member `name: t` into an object's member map.
fn insert_member(ms: &mut Vec<(WAILString, WAILType)>, name: &String, t: WAILType)
    ensures
        members_view(final(ms)@) == member_insert(members_view(old(ms)@), name@, key_td(name@), ty_view(t)),
{
    let ghost mv = members_view(ms@);
    proof {
        lemma_members_view_len(ms@);
        lemma_member_pos(mv, name@);
    }
    let jn = name.clone();
    let jv = JsonValue::String(jn);
    assert(jv@ == JVal::Str(name@));
    let kd = plain_data(jv, text("String"));
    assert(td_view(kd) == key_td(name@));
    let key = WAILString { value: name.clone(), type_data: kd };
    let mut i: usize = 0;
    while i < ms.len()
        invariant
            i <= ms@.len(),
            mv == members_view(ms@),
            mv.len() == ms@.len(),
            forall|j: int| 0 <= j < ms@.len() ==> #[trigger] mv[j] == (ms@[j].0.value@, td_view(ms@[j].0.type_data), ty_view(ms@[j].1)),
            forall|j: int| 0 <= j < i ==> #[trigger] mv[j].0 != name@,
            -1 <= member_pos(mv, name@) < mv.len(),
            td_view(key.type_data) == key_td(name@),
            key.value@ == name@,
            ms@ == old(ms)@,
            member_pos(mv, name@) >= 0 ==> mv[member_pos(mv, name@)].0 == name@,
            forall|j: int| 0 <= j < mv.len() && (member_pos(mv, name@) < 0 || j < member_pos(mv, name@)) ==> #[trigger] mv[j].0 != name@,
        decreases ms@.len() - i,
    {
        if ms[i].0.value == *name {
            assert(mv[i as int].0 == name@);
            assert(member_pos(mv, name@) == i);
            assert(td_view(key.type_data) == key_td(name@));
            let ghost e = (key, t);
            let ghost ev = (key.value@, td_view(key.type_data), ty_view(t));
            ms.set(i, (key, t));
            proof {
                lemma_members_view_len(ms@);
                assert(members_view(ms@) =~= mv.update(i as int, ev));
            }
            return;
        }
        i += 1;
    }
    let ghost e = (key, t);
    proof {
        lemma_members_view_push(ms@, e);
        assert(member_pos(mv, name@) < 0);
        assert(td_view(key.type_data) == key_td(name@));
    }
    ms.push((key, t));
}

/// A copy of an object type with the same value.
fn clone_object(o: &WAILObject) -> (r: WAILObject)
    ensures
        obj_view(r) == obj_view(*o),
{
    WAILObject { value: clone_members(&o.value), type_data: clone_td(&o.type_data) }
}

/// The member map of an object with these fields.
fn members_from(fields: &Vec<WAILField>) -> (r: Vec<(WAILString, WAILType)>)
    ensures
        members_view(r@) == members_of(fields_view(fields@)),
{
    let mut ms: Vec<(WAILString, WAILType)> = Vec::new();
    let ghost fv = fields_view(fields@);
    proof {
        assert(members_view(ms@) =~= Seq::empty());
        lemma_fields_view_len(fields@);
    }
    let mut i: usize = 0;
    while i < fields.len()
        invariant
            i <= fields@.len(),
            fv == fields_view(fields@),
            fv.len() == fields@.len(),
            forall|j: int| 0 <= j < fields@.len() ==> #[trigger] fv[j] == field_view(fields@[j]),
            members_view(ms@) == members_of(fv.take(i as int)),
        decreases fields@.len() - i,
    {
        let t = clone_type(&fields[i].field_type);
        insert_member(&mut ms, &fields[i].name, t);
        proof {
            assert(fv.take(i + 1).drop_last() =~= fv.take(i as int));
            assert(fv.take(i + 1).last() == fv[i as int]);
        }
        i += 1;
    }
    assert(fv.take(i as int) =~= fv);
    ms
}

proof fn lemma_fields_view_len(s: Seq<WAILField>)
    ensures
        fields_view(s).len() == s.len(),
        forall|i: int| 0 <= i < s.len() ==> #[trigger] fields_view(s)[i] == field_view(s[i]),
    decreases s.len(),
{
    if s.len() > 0 {
        lemma_fields_view_len(s.drop_last());
    }
}

proof fn lemma_tys_view_len(s: Seq<WAILType>)
    ensures
        tys_view(s).len() == s.len(),
        forall|i: int| 0 <= i < s.len() ==> #[trigger] tys_view(s)[i] == ty_view(s[i]),
    decreases s.len(),
{
    if s.len() > 0 {
        lemma_tys_view_len(s.drop_last());
    }
}

/// Union members named by position.
fn name_members(ts: Vec<WAILType>) -> (r: Vec<WAILField>)
    ensures
        all_good(tys_view(ts@)) ==> good_fields(fields_view(r@)) && ok_members(fields_view(r@)),
        fields_view(r@) == members_named(tys_view(ts@)),
{
    let ghost tv = tys_view(ts@);
    proof {
        lemma_tys_view_len(ts@);
    }
    let mut ts = ts;
    let mut out: Vec<WAILField> = Vec::new();
    let n = ts.len();
    let mut i: usize = 0;
    proof {
        assert(fields_view(out@) =~= Seq::<FieldV>::empty());
    }
    while i < n
        invariant
            i <= n,
            n == tv.len(),
            ts@.len() == n - i,
            forall|j: int| 0 <= j < ts@.len() ==> #[trigger] ty_view(ts@[j]) == tv[i + j],
            fields_view(out@) == members_named(tv).take(i as int),
        decreases n - i,
    {
        let ghost ts_old = ts@;
        let t = ts.remove(0);
        assert(t == ts_old[0]);
        assert(ty_view(t) == tv[i as int]);
        let mut name = text("member_");
        push_u64(&mut name, i as u64);
        let f = WAILField { name, field_type: t, annotations: Vec::new() };
        let ghost o0 = out@;
        proof {
            assert(anns_view(Seq::<WAILAnnotation>::empty()) =~= Seq::<AnnV>::empty());
            assert(field_view(f) == members_named(tv)[i as int]);
            assert(out@.push(f).drop_last() =~= out@);
        }
        out.push(f);
        proof {
            assert(members_named(tv).take(i + 1) =~= members_named(tv).take(i as int).push(members_named(tv)[i as int]));
            assert forall|j: int| 0 <= j < ts@.len() implies #[trigger] ty_view(ts@[j]) == tv[i + 1 + j] by {
                assert(ts@[j] == ts_old[j + 1]);
            }
        }
        i += 1;
    }
    assert(members_named(tv).take(n as int) =~= members_named(tv));
    proof {
        if all_good(tv) {
            lemma_members_named_good(tv);
        }
    }
    out
}

/// `| Name[]` members after the first.
fn union_members(c: &mut Cursor, st: &DefState, first: WAILType) -> (r: Result<Vec<WAILType>, WAILParseError>)
    requires
        old(c).wf(),
    ensures
        defs_ok(st.view()) && good_ty(ty_view(first)) && r is Ok ==> all_good(tys_view(r->Ok_0@)),
        same_stream(*old(c), *final(c)),
        final(c).at() >= old(c).at(),
        ({
            let (sr, sk) = p_union_members(old(c).stream(), old(c).at(), st.view(), seq![ty_view(first)]);
            res_matches(r, sr, |v: Vec<WAILType>| tys_view(v@)) && final(c).at() == sk
        }),
{
    let ghost ts = c.stream();
    let mut acc: Vec<WAILType> = Vec::new();
    let ghost fv = ty_view(first);
    acc.push(first);
    proof {
        assert(acc@.drop_last() =~= Seq::<WAILType>::empty());
        assert(tys_view(Seq::<WAILType>::empty()) == Seq::<TyV>::empty());
        assert(tys_view(acc@) == tys_view(acc@.drop_last()).push(ty_view(acc@.last())));
        assert(tys_view(acc@) =~= seq![fv]);
        if good_ty(fv) {
            assert(all_good(seq![fv]));
        }
    }
    loop
        invariant
            c.wf(),
            c.stream() == ts,
            ts == old(c).stream(),
            c.at() >= old(c).at(),
            fv == ty_view(first),
            defs_ok(st.view()) && good_ty(fv) ==> all_good(tys_view(acc@)),
            p_union_members(ts, c.at(), st.view(), tys_view(acc@)) == p_union_members(ts, old(c).at(), st.view(), seq![fv]),
        decreases ts.len() - c.at(),
    {
        let k0 = c.pos;
        proof {
            lemma_code(cur(ts, c.at()), 12);
        }
        if !(c.kind_now() == 12) || c.pos >= c.toks.len() - 1 {
            assert(p_union_members(ts, c.at(), st.view(), tys_view(acc@)) == (Ok::<Seq<TyV>, PErr>(tys_view(acc@)), c.at()));
            return Ok(acc);
        }
        c.pos = c.pos + 1;
        let name = match c.expect_identifier() {
            Err(e) => {
                return Err(e);
            },
            Ok(n) => n,
        };
        let arr = match c.array_suffix() {
            Err(e) => {
                return Err(e);
            },
            Ok(a) => a,
        };
        let t = match st.create_type_value(&name, arr) {
            Err(e) => {
                return Err(e);
            },
            Ok(t) => t,
        };
        let ghost a0 = acc@;
        let ghost tv = ty_view(t);
        acc.push(t);
        proof {
            assert(acc@.drop_last() =~= a0);
            assert(tys_view(acc@) == tys_view(a0).push(tv));
            if defs_ok(st.view()) && good_ty(fv) {
                lemma_all_good_push(tys_view(a0), tv);
            }
        }
        if c.pos <= k0 {
            return Ok(acc);
        }
    }
}

/// A type: an inline object, or a name with an optional `[]`, or several
/// such joined by `|`.
fn parse_type(c: &mut Cursor, st: &mut DefState) -> (r: Result<WAILType, WAILParseError>)
    requires
        budget(*old(c), *old(st)),
    ensures
        defs_ok(old(st).view()) ==> defs_ok(final(st).view()),
        defs_ok(old(st).view()) && r is Ok ==> good_ty(ty_view(r->Ok_0)),
        final(c).at() >= old(c).at(),
        same_stream(*old(c), *final(c)),
        spent(*old(c), *old(st), *final(c), *final(st)),
        ({
            let (sr, sk, sst) = p_type(old(c).stream(), old(c).at(), old(st).view());
            res_matches(r, sr, |t: WAILType| ty_view(t)) && final(c).at() == sk && final(st).view() == sst
        }),
    decreases old(c).stream().len() - old(c).at(), 3int,
{
    proof {
        lemma_code(cur(c.stream(), c.at()), 1);
    }
    if c.kind_now() == 1 {
        return parse_adhoc(c, st);
    }
    let base = match c.expect_identifier() {
        Err(e) => {
            return Err(e);
        },
        Ok(b) => b,
    };
    let arr = match c.array_suffix() {
        Err(e) => {
            return Err(e);
        },
        Ok(a) => a,
    };
    proof {
        lemma_code(cur(c.stream(), c.at()), 12);
    }
    if c.kind_now() == 12 {
        let first = match st.create_type_value(&base, arr) {
            Err(e) => {
                return Err(e);
            },
            Ok(t) => t,
        };
        let ms = match union_members(c, st, first) {
            Err(e) => {
                return Err(e);
            },
            Ok(ms) => ms,
        };
        let members = name_members(ms);
        proof {
            assert(crate::json_types::view_entries(Seq::<(String, JsonValue)>::empty()) =~= Seq::empty());
        }
        Ok(
            WAILType::Composite(
                WAILCompositeType::Union(WAILUnion { members, type_data: plain_data(JsonValue::Object(Vec::new()), text("Union")) }),
            ),
        )
    } else {
        st.create_type_value(&base, arr)
    }
}

/// An inline object type `{ field: Type … }`, registered under a fresh name.
#[verifier::rlimit(40)]
fn parse_adhoc(c: &mut Cursor, st: &mut DefState) -> (r: Result<WAILType, WAILParseError>)
    requires
        budget(*old(c), *old(st)),
        cur(old(c).stream(), old(c).at()) is OpenBrace,
    ensures
        defs_ok(old(st).view()) ==> defs_ok(final(st).view()),
        defs_ok(old(st).view()) && r is Ok ==> good_ty(ty_view(r->Ok_0)),
        final(c).at() >= old(c).at(),
        same_stream(*old(c), *final(c)),
        spent(*old(c), *old(st), *final(c), *final(st)),
        ({
            let (sr, sk, sst) = p_adhoc(old(c).stream(), old(c).at(), old(st).view());
            res_matches(r, sr, |t: WAILType| ty_view(t)) && final(c).at() == sk && final(st).view() == sst
        }),
    decreases old(c).stream().len() - old(c).at(), 2int,
{
    let ghost ts = c.stream();
    let ghost k = c.at();
    let ghost st0 = st.view();
    let cnt = st.adhoc_obj_ref_id_counter + 1;
    st.adhoc_obj_ref_id_counter = cnt;
    let mut id = text("adhoc_");
    push_i64(&mut id, cnt);
    let ghost idv = id@;
    let ghost st1 = st.view();
    assert(st1 == with_counter(st0, cnt as int));
    let k0 = c.pos;
    match c.expect(1) {
        Err(e) => {
            return Err(e);
        },
        Ok(_) => {},
    }
    if c.pos <= k0 {
        return Err(c.unexpected());
    }
    let fields = match parse_adhoc_fields(c, st) {
        Err(e) => {
            return Err(e);
        },
        Ok(f) => f,
    };
    match c.expect(2) {
        Err(e) => {
            return Err(e);
        },
        Ok(_) => {},
    }
    let members = members_from(&fields);
    let ghost ids0 = st.adhoc_obj_ids@;
    st.adhoc_obj_ids.push(id.clone());
    proof {
        assert(crate::json_types::view_entries(Seq::<(String, JsonValue)>::empty()) =~= Seq::empty());
    }
    let object = WAILObject {
        value: members,
        type_data: WAILTypeData {
            json_type: JsonValue::Object(Vec::new()),
            type_label: id.clone(),
            field_definitions: Some(fields),
            element_type: None,
        },
    };
    let nid = st.namespaced_identifier(&id);
    refs_insert(&mut st.adhoc_obj_refs, nid.clone(), clone_object(&object));
    let copy = clone_object(&object);
    proof {
        assert(anns_view(Seq::<WAILAnnotation>::empty()) =~= Seq::<AnnV>::empty());
    }
    let entry = WAILField { name: id, field_type: WAILType::Composite(WAILCompositeType::Object(copy)), annotations: Vec::new() };
    let ghost before = st.view();
    let ghost ev = field_view(entry);
    let ghost kv = nid@;
    reg_insert(&mut st.registry, nid, entry);
    proof {
        if defs_ok(old(st).view()) {
            assert(defs_ok(before));
            lemma_reg_insert_ok(before, kv, ev);
            assert(st.view() == GSt { reg: ainsert(before.reg, kv, ev), ..before });
        }
    }
    proof {
        assert(strs(st.adhoc_obj_ids@) =~= strs(ids0).push(idv));
    }
    Ok(WAILType::Composite(WAILCompositeType::Object(object)))
}


/// The fields of an inline object, up to its `}`.
fn parse_adhoc_fields(c: &mut Cursor, st: &mut DefState) -> (r: Result<Vec<WAILField>, WAILParseError>)
    requires
        budget(*old(c), *old(st)),
    ensures
        defs_ok(old(st).view()) ==> defs_ok(final(st).view()),
        defs_ok(old(st).view()) && r is Ok ==> good_fields(fields_view(r->Ok_0@)),
        same_stream(*old(c), *final(c)),
        spent(*old(c), *old(st), *final(c), *final(st)),
        final(c).at() >= old(c).at(),
        ({
            let (sr, sk, sst) = p_adhoc_fields(old(c).stream(), old(c).at(), old(st).view(), Seq::empty());
            res_matches(r, sr, |v: Vec<WAILField>| fields_view(v@)) && final(c).at() == sk && final(st).view() == sst
        }),
    decreases old(c).stream().len() - old(c).at(), 1int,
{
    let ghost ts = c.stream();
    let ghost k = c.at();
    let ghost st0 = st.view();
    let mut fields: Vec<WAILField> = Vec::new();
    proof {
        assert(fields_view(fields@) =~= Seq::<FieldV>::empty());
        assert(good_fields(Seq::<FieldV>::empty()));
    }
    loop
        invariant
            c.wf(),
            c.stream() == ts,
            ts == old(c).stream(),
            k == old(c).at(),
            st0 == old(st).view(),
            c.at() >= k,
            st.view().counter >= st0.counter,
            st.view().counter - st0.counter <= c.at() - k,
            st0.counter + (ts.len() - k) < i64::MAX,
            st0.counter >= 0,
            defs_ok(st0) ==> defs_ok(st.view()) && good_fields(fields_view(fields@)),
            p_adhoc_fields(ts, c.at(), st.view(), fields_view(fields@)) == p_adhoc_fields(ts, k, st0, Seq::empty()),
        decreases ts.len() - c.at(),
    {
        let k1 = c.pos;
        match c.current() {
            Token::CloseBrace => {
                return Ok(fields);
            },
            Token::Identifier(_) => {
                let f = match parse_field(c, st) {
                    Err(e) => {
                        return Err(e);
                    },
                    Ok(f) => f,
                };
                if !(k1 < c.pos && c.pos < c.toks.len()) {
                    return Err(c.unexpected());
                }
                let ghost f0 = fields@;
                let ghost fview = field_view(f);
                fields.push(f);
                proof {
                    assert(fields@.drop_last() =~= f0);
                    assert(fields_view(fields@) == fields_view(f0).push(fview));
                    if defs_ok(st0) {
                        lemma_good_fields_push(fields_view(f0), fview);
                    }
                }
            },
            Token::Newline => {
                if c.pos < c.toks.len() - 1 {
                    c.pos = c.pos + 1;
                } else {
                    return Err(c.unexpected());
                }
            },
            Token::Whitespace(_) => {
                if c.pos < c.toks.len() - 1 {
                    c.pos = c.pos + 1;
                } else {
                    return Err(c.unexpected());
                }
            },
            Token::Hash => {
                match c.parse_comment() {
                    Err(e) => {
                        return Err(e);
                    },
                    Ok(_) => {},
                }
                if c.pos <= k1 {
                    return Err(c.unexpected());
                }
            },
            _ => {
                return Err(c.unexpected());
            },
        }
    }
}

/// `name: Type @description(…)…`
fn parse_field(c: &mut Cursor, st: &mut DefState) -> (r: Result<WAILField, WAILParseError>)
    requires
        budget(*old(c), *old(st)),
    ensures
        defs_ok(old(st).view()) ==> defs_ok(final(st).view()),
        defs_ok(old(st).view()) && r is Ok ==> good_ty(field_view(r->Ok_0).ty),
        final(c).at() >= old(c).at(),
        same_stream(*old(c), *final(c)),
        spent(*old(c), *old(st), *final(c), *final(st)),
        ({
            let (sr, sk, sst) = p_field(old(c).stream(), old(c).at(), old(st).view());
            res_matches(r, sr, |f: WAILField| field_view(f)) && final(c).at() == sk && final(st).view() == sst
        }),
    decreases old(c).stream().len() - old(c).at(), 0int,
{
    let k0 = c.pos;
    let name = match c.expect_identifier() {
        Err(e) => {
            return Err(e);
        },
        Ok(n) => n,
    };
    match c.expect(7) {
        Err(e) => {
            return Err(e);
        },
        Ok(_) => {},
    }
    if c.pos <= k0 {
        return Err(c.unexpected());
    }
    let t = match parse_type(c, st) {
        Err(e) => {
            return Err(e);
        },
        Ok(t) => t,
    };
    let anns = match c.parse_annotations() {
        Err(e) => {
            return Err(e);
        },
        Ok(a) => a,
    };
    Ok(WAILField { name, field_type: t, annotations: anns })
}


// ───────────────────────── definitions ─────────────────────────

/// The fields of an object definition, up to its `}`; other tokens are skipped.
fn parse_obj_fields(c: &mut Cursor, st: &mut DefState) -> (r: Result<Vec<WAILField>, WAILParseError>)
    requires
        budget(*old(c), *old(st)),
    ensures
        defs_ok(old(st).view()) ==> defs_ok(final(st).view()),
        defs_ok(old(st).view()) && r is Ok ==> good_fields(fields_view(r->Ok_0@)),
        same_stream(*old(c), *final(c)),
        spent(*old(c), *old(st), *final(c), *final(st)),
        final(c).at() >= old(c).at(),
        ({
            let (sr, sk, sst) = p_obj_fields(old(c).stream(), old(c).at(), old(st).view(), Seq::empty());
            res_matches(r, sr, |v: Vec<WAILField>| fields_view(v@)) && final(c).at() == sk && final(st).view() == sst
        }),
{
    let ghost ts = c.stream();
    let ghost k = c.at();
    let ghost st0 = st.view();
    let mut fields: Vec<WAILField> = Vec::new();
    proof {
        assert(fields_view(fields@) =~= Seq::<FieldV>::empty());
        assert(good_fields(Seq::<FieldV>::empty()));
    }
    loop
        invariant
            c.wf(),
            c.stream() == ts,
            ts == old(c).stream(),
            k == old(c).at(),
            st0 == old(st).view(),
            c.at() >= k,
            st.view().counter >= st0.counter,
            st.view().counter - st0.counter <= c.at() - k,
            st0.counter + (ts.len() - k) < i64::MAX,
            st0.counter >= 0,
            defs_ok(st0) ==> defs_ok(st.view()) && good_fields(fields_view(fields@)),
            p_obj_fields(ts, c.at(), st.view(), fields_view(fields@)) == p_obj_fields(ts, k, st0, Seq::empty()),
        decreases ts.len() - c.at(),
    {
        let k1 = c.pos;
        match c.current() {
            Token::CloseBrace => {
                return Ok(fields);
            },
            Token::Identifier(_) => {
                let f = match parse_field(c, st) {
                    Err(e) => {
                        return Err(e);
                    },
                    Ok(f) => f,
                };
                if !(k1 < c.pos && c.pos < c.toks.len()) {
                    return Err(c.unexpected());
                }
                let ghost f0 = fields@;
                let ghost fview = field_view(f);
                fields.push(f);
                proof {
                    assert(fields@.drop_last() =~= f0);
                    assert(fields_view(fields@) == fields_view(f0).push(fview));
                    if defs_ok(st0) {
                        lemma_good_fields_push(fields_view(f0), fview);
                    }
                }
            },
            Token::Eof => {
                return Err(WAILParseError::UnexpectedEOF { expected: text("field or closing brace"), location: c.err_location() });
            },
            _ => {
                if c.pos < c.toks.len() - 1 {
                    c.pos = c.pos + 1;
                } else {
                    return Err(c.unexpected());
                }
            },
        }
    }
}

/// `object Name { fields } annotations`
#[verifier::rlimit(40)]
fn parse_object(c: &mut Cursor, st: &mut DefState) -> (r: Result<WAILDefinition, WAILParseError>)
    requires
        budget(*old(c), *old(st)),
    ensures
        defs_ok(old(st).view()) ==> defs_ok(final(st).view()),
        defs_ok(old(st).view()) && r is Ok ==> def_good(def_view(r->Ok_0)),
        same_stream(*old(c), *final(c)),
        spent(*old(c), *old(st), *final(c), *final(st)),
        final(c).at() >= old(c).at(),
        ({
            let (sr, sk, sst) = p_object(old(c).stream(), old(c).at(), old(st).view());
            res_matches(r, sr, |d: WAILDefinition| def_view(d)) && final(c).at() == sk && final(st).view() == sst
        }),
{
    match c.expect_keyword("object") {
        Err(e) => {
            return Err(e);
        },
        Ok(_) => {},
    }
    let name = match c.expect_identifier() {
        Err(e) => {
            return Err(e);
        },
        Ok(n) => n,
    };
    let nid = st.namespaced_identifier(&name);
    proof {
        lemma_apos_keys(st.registry@.map_values(|e: (String, WAILField)| (e.0@, ())), st.view().reg, nid@);
    }
    if find_in(&st.registry, &nid).is_some() {
        proof {
            if defs_ok(st.view()) {
                lemma_lookup_reg_good(st.view(), name@);
            }
        }
        return match lookup_symbol(&st.registry, &name) {
            Ok(f) => Ok(WAILDefinition::Object(f)),
            Err(e) => Err(e),
        };
    }
    match c.expect(1) {
        Err(e) => {
            return Err(e);
        },
        Ok(_) => {},
    }
    let mut fields = match parse_obj_fields(c, st) {
        Err(e) => {
            return Err(e);
        },
        Ok(f) => f,
    };
    match c.expect(2) {
        Err(e) => {
            return Err(e);
        },
        Ok(_) => {},
    }
    let anns = match c.parse_annotations() {
        Err(e) => {
            return Err(e);
        },
        Ok(a) => a,
    };
    let mut members = members_from(&fields);
    insert_member(&mut members, &text("_type"), string_type_of(name.clone(), text("_type")));
    let ghost fv0 = fields@;
    let tag = WAILField { name: text("_type"), field_type: string_type_of(name.clone(), text("_type")), annotations: Vec::new() };
    proof {
        assert(anns_view(Seq::<WAILAnnotation>::empty()) =~= Seq::<AnnV>::empty());
    }
    let ghost tagv = field_view(tag);
    assert(tagv == FieldV { name: "_type"@, ty: type_tag(name@), anns: Seq::empty() });
    fields.push(tag);
    proof {
        assert(fields@.drop_last() =~= fv0);
        assert(fields_view(fields@) == fields_view(fv0).push(tagv));
        assert(crate::json_types::view_entries(Seq::<(String, JsonValue)>::empty()) =~= Seq::empty());
    }
    let object = WAILObject {
        value: members,
        type_data: WAILTypeData {
            json_type: JsonValue::Object(Vec::new()),
            type_label: name.clone(),
            field_definitions: Some(fields),
            element_type: None,
        },
    };
    let field = WAILField { name, field_type: WAILType::Composite(WAILCompositeType::Object(object)), annotations: anns };
    let key = st.namespaced_identifier(&field.name);
    let ghost before = st.view();
    let ghost kv = key@;
    reg_insert(&mut st.registry, key, clone_field(&field));
    proof {
        if defs_ok(old(st).view()) {
            lemma_reg_insert_ok(before, kv, field_view(field));
            assert(st.view() == GSt { reg: ainsert(before.reg, kv, field_view(field)), ..before });
        }
    }
    Ok(WAILDefinition::Object(field))
}

/// `union Name = A | B[] | … ;`
#[verifier::rlimit(40)]
fn parse_union(c: &mut Cursor, st: &mut DefState) -> (r: Result<WAILDefinition, WAILParseError>)
    requires
        budget(*old(c), *old(st)),
    ensures
        defs_ok(old(st).view()) ==> defs_ok(final(st).view()),
        defs_ok(old(st).view()) && r is Ok ==> def_good(def_view(r->Ok_0)),
        same_stream(*old(c), *final(c)),
        spent(*old(c), *old(st), *final(c), *final(st)),
        final(c).at() >= old(c).at(),
        ({
            let (sr, sk, sst) = p_union(old(c).stream(), old(c).at(), old(st).view());
            res_matches(r, sr, |d: WAILDefinition| def_view(d)) && final(c).at() == sk && final(st).view() == sst
        }),
{
    match c.expect_keyword("union") {
        Err(e) => {
            return Err(e);
        },
        Ok(_) => {},
    }
    let name = match c.expect_identifier() {
        Err(e) => {
            return Err(e);
        },
        Ok(n) => n,
    };
    let nid = st.namespaced_identifier(&name);
    proof {
        lemma_apos_keys(st.registry@.map_values(|e: (String, WAILField)| (e.0@, ())), st.view().reg, nid@);
    }
    if find_in(&st.registry, &nid).is_some() {
        proof {
            if defs_ok(st.view()) {
                lemma_lookup_reg_good(st.view(), name@);
            }
        }
        return match lookup_symbol(&st.registry, &name) {
            Ok(f) => Ok(WAILDefinition::Object(f)),
            Err(e) => Err(e),
        };
    }
    match c.expect(10) {
        Err(e) => {
            return Err(e);
        },
        Ok(_) => {},
    }
    let first = match c.expect_identifier() {
        Err(e) => {
            return Err(e);
        },
        Ok(n) => n,
    };
    let arr = match c.array_suffix() {
        Err(e) => {
            return Err(e);
        },
        Ok(a) => a,
    };
    let t = match st.create_type_value(&first, arr) {
        Err(e) => {
            return Err(e);
        },
        Ok(t) => t,
    };
    let ms = match union_members(c, st, t) {
        Err(e) => {
            return Err(e);
        },
        Ok(ms) => ms,
    };
    match c.expect(8) {
        Err(e) => {
            return Err(e);
        },
        Ok(_) => {},
    }
    let members = name_members(ms);
    proof {
        assert(crate::json_types::view_entries(Seq::<(String, JsonValue)>::empty()) =~= Seq::empty());
        assert(anns_view(Seq::<WAILAnnotation>::empty()) =~= Seq::<AnnV>::empty());
    }
    let field = WAILField {
        name: name.clone(),
        field_type: WAILType::Composite(
            WAILCompositeType::Union(WAILUnion { members, type_data: plain_data(JsonValue::Object(Vec::new()), name) }),
        ),
        annotations: Vec::new(),
    };
    let ghost before = st.view();
    let ghost kv = nid@;
    reg_insert(&mut st.registry, nid, clone_field(&field));
    proof {
        if defs_ok(old(st).view()) {
            lemma_reg_insert_ok(before, kv, field_view(field));
            assert(st.view() == GSt { reg: ainsert(before.reg, kv, field_view(field)), ..before });
        }
    }
    Ok(WAILDefinition::Union(field))
}

/// `name: Type` parameters separated by commas.
fn parse_params(c: &mut Cursor, st: &mut DefState) -> (r: Result<Vec<WAILField>, WAILParseError>)
    requires
        budget(*old(c), *old(st)),
    ensures
        defs_ok(old(st).view()) ==> defs_ok(final(st).view()),
        defs_ok(old(st).view()) && r is Ok ==> good_fields(fields_view(r->Ok_0@)),
        same_stream(*old(c), *final(c)),
        spent(*old(c), *old(st), *final(c), *final(st)),
        final(c).at() >= old(c).at(),
        ({
            let (sr, sk, sst) = p_params(old(c).stream(), old(c).at(), old(st).view(), Seq::empty());
            res_matches(r, sr, |v: Vec<WAILField>| fields_view(v@)) && final(c).at() == sk && final(st).view() == sst
        }),
{
    let ghost ts = c.stream();
    let ghost k = c.at();
    let ghost st0 = st.view();
    let mut params: Vec<WAILField> = Vec::new();
    proof {
        assert(fields_view(params@) =~= Seq::<FieldV>::empty());
        assert(good_fields(Seq::<FieldV>::empty()));
    }
    loop
        invariant
            c.wf(),
            c.stream() == ts,
            ts == old(c).stream(),
            k == old(c).at(),
            st0 == old(st).view(),
            c.at() >= k,
            st.view().counter >= st0.counter,
            st.view().counter - st0.counter <= c.at() - k,
            st0.counter + (ts.len() - k) < i64::MAX,
            st0.counter >= 0,
            defs_ok(st0) ==> defs_ok(st.view()) && good_fields(fields_view(params@)),
            p_params(ts, c.at(), st.view(), fields_view(params@)) == p_params(ts, k, st0, Seq::empty()),
        decreases ts.len() - c.at(),
    {
        let k0 = c.pos;
        let name = match c.expect_identifier() {
            Err(e) => {
                return Err(e);
            },
            Ok(n) => n,
        };
        match c.expect(7) {
            Err(e) => {
                return Err(e);
            },
            Ok(_) => {},
        }
        let t = match parse_type(c, st) {
            Err(e) => {
                return Err(e);
            },
            Ok(t) => t,
        };
        let ghost p0 = params@;
        let f = WAILField { name, field_type: t, annotations: Vec::new() };
        let ghost fview = field_view(f);
        params.push(f);
        proof {
            assert(params@.drop_last() =~= p0);
            assert(anns_view(Seq::<WAILAnnotation>::empty()) =~= Seq::<AnnV>::empty());
            assert(fields_view(params@) == fields_view(p0).push(fview));
            if defs_ok(st0) {
                lemma_good_fields_push(fields_view(p0), fview);
            }
            lemma_code(cur(ts, c.at()), 9);
        }
        if c.kind_now() == 9 && k0 <= c.pos && c.pos < c.toks.len() - 1 {
            c.pos = c.pos + 1;
        } else {
            return Ok(params);
        }
    }
}

/// `template Name(params) -> Type annotations { prompt: """…""" }`
#[verifier::rlimit(40)]
fn parse_template(c: &mut Cursor, st: &mut DefState) -> (r: Result<WAILDefinition, WAILParseError>)
    requires
        budget(*old(c), *old(st)),
    ensures
        defs_ok(old(st).view()) ==> defs_ok(final(st).view()),
        defs_ok(old(st).view()) && r is Ok ==> def_good(def_view(r->Ok_0)),
        same_stream(*old(c), *final(c)),
        spent(*old(c), *old(st), *final(c), *final(st)),
        final(c).at() >= old(c).at(),
        ({
            let (sr, sk, sst) = p_template(old(c).stream(), old(c).at(), old(st).view());
            res_matches(r, sr, |d: WAILDefinition| def_view(d)) && final(c).at() == sk && final(st).view() == sst
        }),
{
    match c.expect_keyword("template") {
        Err(e) => {
            return Err(e);
        },
        Ok(_) => {},
    }
    let name = match c.expect_identifier() {
        Err(e) => {
            return Err(e);
        },
        Ok(n) => n,
    };
    let nid = st.namespaced_identifier(&name);
    proof {
        lemma_apos_keys(st.template_registry@.map_values(|e: (String, WAILTemplateDef)| (e.0@, ())), st.view().tpl, nid@);
    }
    if find_in(&st.template_registry, &nid).is_some() {
        proof {
            if defs_ok(st.view()) {
                lemma_lookup_reg_good(st.view(), name@);
            }
        }
        return match lookup_template(&st.template_registry, &name) {
            Ok(t) => Ok(WAILDefinition::Template(t)),
            Err(e) => Err(e),
        };
    }
    match c.expect(3) {
        Err(e) => {
            return Err(e);
        },
        Ok(_) => {},
    }
    proof {
        lemma_code(cur(c.stream(), c.at()), 4);
    }
    let params = if c.kind_now() == 4 {
        let v: Vec<WAILField> = Vec::new();
        proof {
            assert(fields_view(v@) =~= Seq::<FieldV>::empty());
        }
        v
    } else {
        match parse_params(c, st) {
            Err(e) => {
                return Err(e);
            },
            Ok(p) => p,
        }
    };
    parse_template_rest(c, st, name, params, Ghost(defs_ok(old(st).view())))
}

/// A template after its parameters.
#[verifier::rlimit(40)]
fn parse_template_rest(
    c: &mut Cursor,
    st: &mut DefState,
    name: String,
    params: Vec<WAILField>,
    Ghost(pre_ok): Ghost<bool>,
) -> (r: Result<
    WAILDefinition,
    WAILParseError,
>)
    requires
        budget(*old(c), *old(st)),
        pre_ok ==> defs_ok(old(st).view()) && good_fields(fields_view(params@)),
    ensures
        pre_ok ==> defs_ok(final(st).view()),
        pre_ok && r is Ok ==> def_good(def_view(r->Ok_0)),
        same_stream(*old(c), *final(c)),
        spent(*old(c), *old(st), *final(c), *final(st)),
        final(c).at() >= old(c).at(),
        ({
            let (sr, sk, sst) = p_template_rest(old(c).stream(), old(c).at(), old(st).view(), name@, fields_view(params@));
            res_matches(r, sr, |d: WAILDefinition| def_view(d)) && final(c).at() == sk && final(st).view() == sst
        }),
{
    match c.expect(4) {
        Err(e) => {
            return Err(e);
        },
        Ok(_) => {},
    }
    match c.expect(11) {
        Err(e) => {
            return Err(e);
        },
        Ok(_) => {},
    }
    let ret = match parse_type(c, st) {
        Err(e) => {
            return Err(e);
        },
        Ok(t) => t,
    };
    let anns = match c.parse_annotations() {
        Err(e) => {
            return Err(e);
        },
        Ok(a) => a,
    };
    match c.expect(1) {
        Err(e) => {
            return Err(e);
        },
        Ok(_) => {},
    }
    if !c.at_keyword("prompt") {
        return Err(c.unexpected());
    }
    c.advance();
    match c.expect(7) {
        Err(e) => {
            return Err(e);
        },
        Ok(_) => {},
    }
    let content = match c.current() {
        Token::TripleQuoteContent(t) => t.clone(),
        _ => {
            return Err(c.unexpected());
        },
    };
    c.advance();
    match c.expect(2) {
        Err(e) => {
            return Err(e);
        },
        Ok(_) => {},
    }
    let out_name = match &ret {
        WAILType::Composite(WAILCompositeType::Object(o)) => o.type_data.type_label.clone(),
        _ => text("output"),
    };
    proof {
        assert(anns_view(Seq::<WAILAnnotation>::empty()) =~= Seq::<AnnV>::empty());
    }
    let t = WAILTemplateDef {
        name,
        inputs: params,
        output: WAILField { name: out_name, field_type: ret, annotations: Vec::new() },
        prompt_template: adjust_indentation(content.as_str(), 0),
        annotations: anns,
    };
    let key = st.namespaced_identifier(&t.name);
    let ghost before = st.view();
    let ghost kv = key@;
    tpl_insert(&mut st.template_registry, key, clone_template(&t));
    proof {
        if pre_ok {
            lemma_tpl_insert_ok(before, kv, templ_view(t));
            assert(st.view() == GSt { tpl: ainsert(before.tpl, kv, templ_view(t)), ..before });
        }
    }
    Ok(WAILDefinition::Template(t))
}


// ───────────────────────── files ─────────────────────────

/// The imported names, up to the `}`.
fn parse_import_items(c: &mut Cursor) -> (r: Result<Vec<String>, WAILParseError>)
    requires
        old(c).wf(),
    ensures
        same_stream(*old(c), *final(c)),
        final(c).at() >= old(c).at(),
        ({
            let (sr, sk) = p_import_items(old(c).stream(), old(c).at(), Seq::empty());
            res_matches(r, sr, |v: Vec<String>| strs(v@)) && final(c).at() == sk
        }),
{
    let ghost ts = c.stream();
    let mut items: Vec<String> = Vec::new();
    proof {
        assert(strs(items@) =~= Seq::<Seq<char>>::empty());
    }
    loop
        invariant
            c.wf(),
            c.stream() == ts,
            ts == old(c).stream(),
            c.at() >= old(c).at(),
            p_import_items(ts, c.at(), strs(items@)) == p_import_items(ts, old(c).at(), Seq::empty()),
        decreases ts.len() - c.at(),
    {
        let k0 = c.pos;
        let name = match c.current() {
            Token::CloseBrace => {
                return Ok(items);
            },
            Token::Identifier(n) => n.clone(),
            _ => {
                return Err(c.unexpected());
            },
        };
        c.advance();
        let ghost i0 = items@;
        let ghost nv = name@;
        items.push(name);
        proof {
            assert(strs(items@) =~= strs(i0).push(nv));
            lemma_code(cur(ts, c.at()), 9);
            lemma_code(cur(ts, c.at()), 2);
        }
        if c.kind_now() == 9 {
            if c.pos >= c.toks.len() - 1 || c.pos + 1 <= k0 {
                return Err(c.unexpected());
            }
            c.advance();
        } else if c.kind_now() == 2 {
            return Ok(items);
        } else {
            return Err(c.unexpected());
        }
    }
}

/// `import { A, B } from "path"`
fn parse_import(c: &mut Cursor) -> (r: Result<WAILDefinition, WAILParseError>)
    requires
        old(c).wf(),
    ensures
        same_stream(*old(c), *final(c)),
        final(c).at() >= old(c).at(),
        ({
            let (sr, sk) = p_import(old(c).stream(), old(c).at());
            res_matches(r, sr, |d: WAILDefinition| def_view(d)) && final(c).at() == sk
        }),
{
    c.skip_ws();
    match c.expect_keyword("import") {
        Err(e) => {
            return Err(e);
        },
        Ok(_) => {},
    }
    c.skip_ws();
    match c.expect(1) {
        Err(e) => {
            return Err(e);
        },
        Ok(_) => {},
    }
    let items = match parse_import_items(c) {
        Err(e) => {
            return Err(e);
        },
        Ok(v) => v,
    };
    match c.expect(2) {
        Err(e) => {
            return Err(e);
        },
        Ok(_) => {},
    }
    match c.expect_keyword("from") {
        Err(e) => {
            return Err(e);
        },
        Ok(_) => {},
    }
    let path = match c.expect_string() {
        Err(e) => {
            return Err(e);
        },
        Ok(p) => p,
    };
    Ok(WAILDefinition::Import(WAILImport { items, path }))
}

/// The leading imports of a file.
fn parse_imports(c: &mut Cursor) -> (r: Result<Vec<WAILDefinition>, WAILParseError>)
    requires
        old(c).wf(),
    ensures
        same_stream(*old(c), *final(c)),
        final(c).at() >= old(c).at(),
        ({
            let (sr, sk) = p_imports(old(c).stream(), old(c).at(), Seq::empty());
            res_matches(r, sr, |v: Vec<WAILDefinition>| defs_view(v@)) && final(c).at() == sk
        }),
{
    let ghost ts = c.stream();
    let mut defs: Vec<WAILDefinition> = Vec::new();
    proof {
        assert(defs_view(defs@) =~= Seq::<DefV>::empty());
    }
    loop
        invariant
            c.wf(),
            c.stream() == ts,
            ts == old(c).stream(),
            c.at() >= old(c).at(),
            p_imports(ts, c.at(), defs_view(defs@)) == p_imports(ts, old(c).at(), Seq::empty()),
        decreases ts.len() - c.at(),
    {
        let k0 = c.pos;
        if !c.at_keyword("import") {
            return Ok(defs);
        }
        let d = match parse_import(c) {
            Err(e) => {
                return Err(e);
            },
            Ok(d) => d,
        };
        let ghost d0 = defs@;
        let ghost dv = def_view(d);
        defs.push(d);
        proof {
            assert(defs_view(defs@) =~= defs_view(d0).push(dv));
        }
        if !(k0 < c.pos && c.pos < c.toks.len()) {
            return Ok(defs);
        }
    }
}

/// The definitions of a file after its imports; other tokens are skipped.
// ───────────────────────── main blocks, executably ─────────────────────────

proof fn lemma_keys_contains(v: Seq<(String, WAILObjectInstantiation)>, k: Seq<char>)
    ensures
        (apos(v.map_values(|e: (String, WAILObjectInstantiation)| (e.0@, ())), k) >= 0) == inst_keys(v).contains(k),
{
    let ks = v.map_values(|e: (String, WAILObjectInstantiation)| (e.0@, ()));
    lemma_apos(ks, k);
    if apos(ks, k) >= 0 {
        assert(inst_keys(v)[apos(ks, k)] == k);
    } else {
        assert forall|j: int| 0 <= j < inst_keys(v).len() implies inst_keys(v)[j] != k by {
            assert(ks[j].0 != k);
        }
    }
}

fn has_instance(v: &Vec<(String, WAILObjectInstantiation)>, k: &String) -> (r: bool)
    ensures
        r == inst_keys(v@).contains(k@),
{
    proof {
        lemma_keys_contains(v@, k@);
    }
    find_in(v, k).is_some()
}

/// Binds an object instance under `key`, replacing one bound there before.
fn bind_instance(v: &mut Vec<(String, WAILObjectInstantiation)>, key: String, o: WAILObjectInstantiation)
    ensures
        inst_keys(final(v)@) == (if inst_keys(old(v)@).contains(key@) {
            inst_keys(old(v)@)
        } else {
            inst_keys(old(v)@).push(key@)
        }),
{
    proof {
        lemma_keys_contains(v@, key@);
        lemma_apos(v@.map_values(|e: (String, WAILObjectInstantiation)| (e.0@, ())), key@);
    }
    match find_in(v, &key) {
        Some(i) => {
            let ghost k0 = inst_keys(v@);
            v.set(i, (key, o));
            assert(inst_keys(v@) =~= k0);
        },
        None => {
            let ghost k0 = inst_keys(v@);
            v.push((key, o));
            assert(inst_keys(v@) =~= k0.push(key@));
        },
    }
}

impl Cursor {
    fn at_identifier(&self) -> (r: bool)
        requires
            self.wf(),
        ensures
            r == (cur(self.stream(), self.at()) is Identifier),
    {
        match self.current() {
            Token::Identifier(_) => true,
            _ => false,
        }
    }
}

/// An argument value of a template call (see [`p_targ`]).
fn parse_targ(c: &mut Cursor, st: &DefState) -> (r: Result<TemplateArgument, WAILParseError>)
    requires
        old(c).wf(),
    ensures
        final(c).at() >= old(c).at(),
        same_stream(*old(c), *final(c)),
        ({
            let (sr, sk) = p_targ(old(c).stream(), old(c).at(), st.view());
            res_matches(r, sr, |a: TemplateArgument| targ_view(a)) && final(c).at() == sk
        }),
{
    let t = c.current().copy();
    match t {
        Token::Dollar => {
            c.advance();
            match c.expect_identifier() {
                Err(e) => Err(e),
                Ok(n) => Ok(TemplateArgument::TemplateArgRef(n)),
            }
        },
        Token::Identifier(n) => {
            proof {
                lemma_apos_keys(st.view().reg, st.registry@.map_values(|e: (String, WAILField)| (e.0@, ())), n@);
            }
            let a = if has_instance(&st.object_instances, &n) {
                TemplateArgument::ObjectRef(n)
            } else if find_in(&st.registry, &n).is_some() {
                TemplateArgument::TypeRef(n)
            } else {
                TemplateArgument::TemplateArgRef(n)
            };
            c.advance();
            Ok(a)
        },
        Token::String(v) => {
            c.advance();
            Ok(TemplateArgument::String(v))
        },
        Token::Number(n) => {
            c.advance();
            Ok(TemplateArgument::Number(n))
        },
        _ => Err(c.unexpected()),
    }
}

fn targ_insert(acc: &mut Vec<(String, TemplateArgument)>, key: String, v: TemplateArgument)
    ensures
        tentries_view(final(acc)@) == ainsert(tentries_view(old(acc)@), key@, targ_view(v)),
{
    let ghost a0 = tentries_view(acc@);
    proof {
        crate::parser_types::lemma_tentries_view(acc@);
        lemma_apos_keys(a0, acc@.map_values(|e: (String, TemplateArgument)| (e.0@, ())), key@);
        lemma_apos(a0, key@);
    }
    match find_in(acc, &key) {
        Some(i) => {
            acc.set(i, (key, v));
            proof {
                crate::parser_types::lemma_tentries_view(acc@);
                assert(tentries_view(acc@) =~= a0.update(i as int, (key@, targ_view(v))));
            }
        },
        None => {
            acc.push((key, v));
            proof {
                crate::parser_types::lemma_tentries_view(acc@);
                assert(tentries_view(acc@) =~= a0.push((key@, targ_view(v))));
            }
        },
    }
}

/// The arguments of a template call (see [`p_call_args`]).
fn parse_call_args(c: &mut Cursor, st: &DefState) -> (r: Result<Vec<(String, TemplateArgument)>, WAILParseError>)
    requires
        old(c).wf(),
    ensures
        final(c).at() >= old(c).at(),
        same_stream(*old(c), *final(c)),
        ({
            let (sr, sk) = p_call_args(old(c).stream(), old(c).at(), st.view(), Seq::empty());
            res_matches(r, sr, |v: Vec<(String, TemplateArgument)>| tentries_view(v@)) && final(c).at() == sk
        }),
{
    let ghost ts = c.stream();
    let ghost k = c.at();
    let mut acc: Vec<(String, TemplateArgument)> = Vec::new();
    proof {
        crate::parser_types::lemma_tentries_view(acc@);
        assert(tentries_view(acc@) =~= Seq::<(Seq<char>, TArg)>::empty());
    }
    loop
        invariant
            c.wf(),
            c.stream() == ts,
            ts == old(c).stream(),
            k == old(c).at(),
            c.at() >= k,
            p_call_args(ts, c.at(), st.view(), tentries_view(acc@)) == p_call_args(ts, k, st.view(), Seq::empty()),
        decreases ts.len() - c.at(),
    {
        let k0 = c.pos;
        proof {
            lemma_code(cur(ts, c.at()), 4);
            lemma_code(cur(ts, c.at()), 15);
            lemma_code(cur(ts, c.at()), 9);
        }
        let kd = c.kind_now();
        if kd == 4 {
            return Ok(acc);
        }
        if kd == 15 {
            if c.pos < c.toks.len() - 1 {
                c.pos = c.pos + 1;
            } else {
                return Ok(acc);
            }
        } else if c.at_identifier() {
            let name = match c.expect_identifier() {
                Err(e) => {
                    return Err(e);
                },
                Ok(n) => n,
            };
            match c.expect(7) {
                Err(e) => {
                    return Err(e);
                },
                Ok(_) => {},
            }
            let v = match parse_targ(c, st) {
                Err(e) => {
                    return Err(e);
                },
                Ok(v) => v,
            };
            targ_insert(&mut acc, name, v);
            proof {
                lemma_code(cur(ts, c.at()), 4);
                lemma_code(cur(ts, c.at()), 9);
            }
            let k3 = c.kind_now();
            if k3 == 9 {
                c.advance();
            } else if k3 != 4 {
                return Err(c.unexpected());
            }
            if !(k0 < c.pos && c.pos < c.toks.len()) {
                return Ok(acc);
            }
        } else {
            return Err(c.unexpected());
        }
    }
}

/// `Name(args)` (see [`p_call`]).
fn parse_call(c: &mut Cursor, st: &DefState) -> (r: Result<WAILTemplateCall, WAILParseError>)
    requires
        old(c).wf(),
    ensures
        final(c).at() >= old(c).at(),
        same_stream(*old(c), *final(c)),
        ({
            let (sr, sk) = p_call(old(c).stream(), old(c).at(), st.view());
            res_matches(r, sr, |v: WAILTemplateCall| call_view(v)) && final(c).at() == sk
        }),
{
    reveal(p_call);
    let name = match c.expect_identifier() {
        Err(e) => {
            return Err(e);
        },
        Ok(n) => n,
    };
    match c.expect(3) {
        Err(e) => {
            return Err(e);
        },
        Ok(_) => {},
    }
    let args = match parse_call_args(c, st) {
        Err(e) => {
            return Err(e);
        },
        Ok(a) => a,
    };
    match c.expect(4) {
        Err(e) => Err(e),
        Ok(_) => Ok(WAILTemplateCall { template_name: name, arguments: args }),
    }
}

fn is_object_type(t: &WAILType) -> (r: bool)
    ensures
        r == (ty_view(*t) is Obj),
{
    match t {
        WAILType::Composite(WAILCompositeType::Object(_)) => true,
        _ => false,
    }
}

/// `let name = Call(args);` (see [`p_assign`]).
#[verifier::rlimit(40)]
fn parse_assign(c: &mut Cursor, st: &mut DefState) -> (r: Result<MainStatement, WAILParseError>)
    requires
        old(c).wf(),
    ensures
        final(c).at() >= old(c).at(),
        same_stream(*old(c), *final(c)),
        ({
            let (sr, sk, sst) = p_assign(old(c).stream(), old(c).at(), old(st).view());
            res_matches(r, sr, |v: MainStatement| stmt_view(v)) && final(c).at() == sk && final(st).view() == sst
        }),
        final(st).view() == (GSt { objs: final(st).view().objs, ..old(st).view() }),
{
    reveal(p_assign);
    let ghost ts = c.stream();
    let ghost st0 = st.view();
    match c.expect_keyword("let") {
        Err(e) => {
            return Err(e);
        },
        Ok(_) => {},
    }
    let var = match c.expect_identifier() {
        Err(e) => {
            return Err(e);
        },
        Ok(n) => n,
    };
    match c.expect(10) {
        Err(e) => {
            return Err(e);
        },
        Ok(_) => {},
    }
    let call = match parse_call(c, st) {
        Err(e) => {
            return Err(e);
        },
        Ok(v) => v,
    };
    let ghost cv = call_view(call);
    proof {
        lemma_apos_keys(st0.reg, st.registry@.map_values(|e: (String, WAILField)| (e.0@, ())), call.template_name@);
    }
    let is_obj = match find_in(&st.registry, &call.template_name) {
        Some(i) => {
            assert(reg_view(st.registry@)[i as int] == (st.registry@[i as int].0@, field_view(st.registry@[i as int].1)));
            is_object_type(&st.registry[i].1.field_type)
        },
        None => false,
    };
    assert(is_obj == names_object(st0, cv.0));
    if is_obj {
        match c.expect(8) {
            Err(e) => {
                return Err(e);
            },
            Ok(_) => {},
        }
        let key = st.namespaced_identifier(&var);
        let inst = WAILObjectInstantiation {
            binding_name: var.clone(),
            object_type: call.template_name.clone(),
            fields: crate::parser_types::clone_tentries(&call.arguments),
        };
        let ghost ov = st.view();
        bind_instance(&mut st.object_instances, key, inst);
        assert(st.view() == GSt {
            objs: if ov.objs.contains(namespaced(ov, var@)) {
                ov.objs
            } else {
                ov.objs.push(namespaced(ov, var@))
            },
            ..ov
        });
        let WAILTemplateCall { template_name, arguments } = call;
        return Ok(MainStatement::ObjectInstantiation { variable: var, object_type: template_name, arguments });
    }
    match lookup_template(&st.template_registry, &call.template_name) {
        Err(WAILParseError::SymbolNotFound { .. }) => {
            let mut reason = text("Template '");
            push_str(&mut reason, call.template_name.as_str());
            push_str(&mut reason, "' not found");
            return Err(WAILParseError::InvalidTemplateCall {
                template_name: call.template_name,
                reason,
                location: c.err_location(),
            });
        },
        Err(e) => {
            return Err(e);
        },
        Ok(_) => {},
    }
    match c.expect(8) {
        Err(e) => Err(e),
        Ok(_) => Ok(MainStatement::Assignment { variable: var, template_call: call }),
    }
}

/// The statements of a main block (see [`p_stmts`]).
fn parse_stmts(c: &mut Cursor, st: &mut DefState) -> (r: Result<Vec<MainStatement>, WAILParseError>)
    requires
        old(c).wf(),
    ensures
        final(c).at() >= old(c).at(),
        same_stream(*old(c), *final(c)),
        final(st).view().counter == old(st).view().counter,
        defs_ok(old(st).view()) ==> defs_ok(final(st).view()),
        ({
            let (sr, sk, sst) = p_stmts(old(c).stream(), old(c).at(), old(st).view(), Seq::empty());
            res_matches(r, sr, |v: Vec<MainStatement>| stmts_view(v@)) && final(c).at() == sk && final(st).view() == sst
        }),
{
    let ghost ts = c.stream();
    let ghost k = c.at();
    let ghost st0 = st.view();
    let mut acc: Vec<MainStatement> = Vec::new();
    proof {
        assert(stmts_view(acc@) =~= Seq::<StmtV>::empty());
    }
    loop
        invariant
            c.wf(),
            c.stream() == ts,
            ts == old(c).stream(),
            k == old(c).at(),
            st0 == old(st).view(),
            c.at() >= k,
            st.view() == (GSt { objs: st.view().objs, ..st0 }),
            p_stmts(ts, c.at(), st.view(), stmts_view(acc@)) == p_stmts(ts, k, st0, Seq::empty()),
        decreases ts.len() - c.at(),
    {
        let k0 = c.pos;
        proof {
            lemma_code(cur(ts, c.at()), 2);
            lemma_code(cur(ts, c.at()), 16);
        }
        if c.at_keyword("prompt") || c.kind_now() == 2 {
            return Ok(acc);
        }
        if c.at_keyword("let") {
            let s = match parse_assign(c, st) {
                Err(e) => {
                    return Err(e);
                },
                Ok(s) => s,
            };
            let ghost a0 = acc@;
            acc.push(s);
            assert(stmts_view(acc@) =~= stmts_view(a0).push(stmt_view(s)));
            if !(k0 < c.pos && c.pos < c.toks.len()) {
                return Ok(acc);
            }
        } else if c.at_identifier() {
            let call = match parse_call(c, st) {
                Err(e) => {
                    return Err(e);
                },
                Ok(v) => v,
            };
            match c.expect(8) {
                Err(e) => {
                    return Err(e);
                },
                Ok(_) => {},
            }
            let ghost a0 = acc@;
            let s = MainStatement::TemplateCall(call);
            acc.push(s);
            assert(stmts_view(acc@) =~= stmts_view(a0).push(stmt_view(s)));
            if !(k0 < c.pos && c.pos < c.toks.len()) {
                return Ok(acc);
            }
        } else if c.kind_now() == 16 {
            return Err(WAILParseError::UnexpectedEOF {
                expected: text("prompt block or closing brace"),
                location: c.err_location(),
            });
        } else if c.pos < c.toks.len() - 1 {
            c.pos = c.pos + 1;
        } else {
            return Ok(acc);
        }
    }
}

fn ty_insert(acc: &mut Vec<(String, WAILType)>, key: String, v: WAILType)
    ensures
        targs_types_view(final(acc)@) == ainsert(targs_types_view(old(acc)@), key@, ty_view(v)),
{
    let ghost a0 = targs_types_view(acc@);
    proof {
        lemma_apos_keys(a0, acc@.map_values(|e: (String, WAILType)| (e.0@, ())), key@);
        lemma_apos(a0, key@);
    }
    match find_in(acc, &key) {
        Some(i) => {
            let ghost tv = ty_view(v);
            acc.set(i, (key, v));
            assert(targs_types_view(acc@) =~= a0.update(i as int, (key@, tv)));
        },
        None => {
            let ghost tv = ty_view(v);
            acc.push((key, v));
            assert(targs_types_view(acc@) =~= a0.push((key@, tv)));
        },
    }
}

/// The items of a `template_args` block (see [`p_targ_items`]).
fn parse_targ_items(c: &mut Cursor, st: &mut DefState) -> (r: Result<Vec<(String, WAILType)>, WAILParseError>)
    requires
        budget(*old(c), *old(st)),
    ensures
        defs_ok(old(st).view()) ==> defs_ok(final(st).view()),
        same_stream(*old(c), *final(c)),
        spent(*old(c), *old(st), *final(c), *final(st)),
        final(c).at() >= old(c).at(),
        ({
            let (sr, sk, sst) = p_targ_items(old(c).stream(), old(c).at(), old(st).view(), Seq::empty());
            res_matches(r, sr, |v: Vec<(String, WAILType)>| targs_types_view(v@)) && final(c).at() == sk
                && final(st).view() == sst
        }),
{
    let ghost ts = c.stream();
    let ghost k = c.at();
    let ghost st0 = st.view();
    let mut acc: Vec<(String, WAILType)> = Vec::new();
    proof {
        assert(targs_types_view(acc@) =~= Seq::<(Seq<char>, TyV)>::empty());
    }
    loop
        invariant
            c.wf(),
            c.stream() == ts,
            ts == old(c).stream(),
            k == old(c).at(),
            st0 == old(st).view(),
            c.at() >= k,
            st.view().counter >= st0.counter,
            st.view().counter - st0.counter <= c.at() - k,
            st0.counter + (ts.len() - k) < i64::MAX,
            st0.counter >= 0,
            defs_ok(st0) ==> defs_ok(st.view()),
            p_targ_items(ts, c.at(), st.view(), targs_types_view(acc@)) == p_targ_items(ts, k, st0, Seq::empty()),
        decreases ts.len() - c.at(),
    {
        let k0 = c.pos;
        proof {
            lemma_code(cur(ts, c.at()), 2);
            lemma_code(cur(ts, c.at()), 15);
        }
        let kd = c.kind_now();
        if kd == 2 {
            return Ok(acc);
        }
        if kd == 15 {
            if c.pos < c.toks.len() - 1 {
                c.pos = c.pos + 1;
            } else {
                return Ok(acc);
            }
        } else if c.at_identifier() {
            let name = match c.expect_identifier() {
                Err(e) => {
                    return Err(e);
                },
                Ok(n) => n,
            };
            match c.expect(7) {
                Err(e) => {
                    return Err(e);
                },
                Ok(_) => {},
            }
            let t = match parse_type(c, st) {
                Err(e) => {
                    return Err(e);
                },
                Ok(t) => t,
            };
            ty_insert(&mut acc, name, t);
            proof {
                lemma_code(cur(ts, c.at()), 2);
                lemma_code(cur(ts, c.at()), 9);
            }
            let k3 = c.kind_now();
            if k3 == 9 {
                c.advance();
            } else if k3 != 2 {
                return Err(c.unexpected());
            }
            if !(k0 < c.pos && c.pos < c.toks.len()) {
                return Ok(acc);
            }
        } else {
            return Err(c.unexpected());
        }
    }
}

/// The text of a prompt block (see [`p_prompt`]), from the token after its `{`.
fn read_prompt(c: &mut Cursor, gaps: &Vec<String>) -> (r: String)
    requires
        old(c).wf(),
        gaps@.len() == old(c).stream().len(),
    ensures
        final(c).at() >= old(c).at(),
        same_stream(*old(c), *final(c)),
        ({
            let (text, sk) = p_prompt(old(c).stream(), strs(gaps@), old(c).at(), 1, true, Seq::empty());
            r@ == text && final(c).at() == sk
        }),
{
    let ghost ts = c.stream();
    let ghost k = c.at();
    let ghost gs = strs(gaps@);
    let mut out = String::new();
    let mut depth: u128 = 1;
    let mut first = true;
    loop
        invariant
            c.wf(),
            c.stream() == ts,
            ts == old(c).stream(),
            k == old(c).at(),
            gs == strs(gaps@),
            gaps@.len() == ts.len(),
            c.at() >= k,
            1 <= depth <= c.at() - k + 1,
            p_prompt(ts, gs, c.at(), depth as int, first, out@) == p_prompt(ts, gs, k, 1, true, Seq::empty()),
        decreases ts.len() - c.at(),
    {
        proof {
            lemma_code(cur(ts, c.at()), 1);
            lemma_code(cur(ts, c.at()), 2);
            lemma_code(cur(ts, c.at()), 16);
        }
        let kd = c.kind_now();
        if !first {
            push_str(&mut out, gaps[c.pos].as_str());
        }
        if kd == 16 {
            return out;
        }
        if kd == 2 && depth <= 1 {
            c.advance();
            return out;
        }
        if kd == 1 {
            depth = depth + 1;
        } else if kd == 2 {
            depth = depth - 1;
        }
        let piece = c.current().to_string();
        push_str(&mut out, piece.as_str());
        first = false;
        if c.pos < c.toks.len() - 1 {
            c.pos = c.pos + 1;
        } else {
            return out;
        }
    }
}

/// Whether a main block is among `defs`.
fn any_main(defs: &Vec<WAILDefinition>) -> (r: bool)
    ensures
        r == has_main(defs_view(defs@)),
{
    let mut i: usize = 0;
    while i < defs.len()
        invariant
            i <= defs@.len(),
            forall|j: int| 0 <= j < i ==> !(#[trigger] defs_view(defs@)[j] is Main),
        decreases defs@.len() - i,
    {
        match &defs[i] {
            WAILDefinition::Main(_) => {
                assert(defs_view(defs@)[i as int] is Main);
                return true;
            },
            _ => {},
        }
        i += 1;
    }
    false
}

/// The variables `let` statements assign template results to (see [`assign_vars`]).
fn assigned_variables(stmts: &Vec<MainStatement>) -> (r: Vec<String>)
    ensures
        strs(r@) == assign_vars(stmts_view(stmts@)),
{
    let ghost sv = stmts_view(stmts@);
    let mut out: Vec<String> = Vec::new();
    let mut i: usize = 0;
    while i < stmts.len()
        invariant
            i <= stmts@.len(),
            sv == stmts_view(stmts@),
            strs(out@) == assign_vars(sv.take(i as int)),
        decreases stmts@.len() - i,
    {
        assert(sv.take(i + 1).drop_last() =~= sv.take(i as int));
        assert(sv.take(i + 1).last() == stmt_view(stmts@[i as int]));
        match &stmts[i] {
            MainStatement::Assignment { variable, .. } => {
                let ghost o0 = out@;
                out.push(variable.clone());
                assert(strs(out@) =~= strs(o0).push(variable@));
            },
            _ => {},
        }
        i += 1;
    }
    assert(sv.take(i as int) =~= sv);
    out
}

/// A main block (see [`p_main`]).
#[verifier::rlimit(60)]
fn parse_main(c: &mut Cursor, st: &mut DefState, gaps: &Vec<String>) -> (r: Result<WAILMainDef, WAILParseError>)
    requires
        budget(*old(c), *old(st)),
        gaps@.len() == old(c).stream().len(),
    ensures
        defs_ok(old(st).view()) ==> defs_ok(final(st).view()),
        same_stream(*old(c), *final(c)),
        spent(*old(c), *old(st), *final(c), *final(st)),
        final(c).at() >= old(c).at(),
        ({
            let (sr, sk, sst) = p_main(old(c).stream(), strs(gaps@), old(c).at(), old(st).view());
            res_matches(r, sr, |m: WAILMainDef| main_view(m)) && final(c).at() == sk && final(st).view() == sst
        }),
{
    reveal(p_main);
    let ghost ts = c.stream();
    let ghost gs = strs(gaps@);
    if st.has_main {
        return Err(WAILParseError::DuplicateDefinition { name: text("main"), location: c.err_location() });
    }
    match c.expect_keyword("main") {
        Err(e) => {
            return Err(e);
        },
        Ok(_) => {},
    }
    match c.expect(1) {
        Err(e) => {
            return Err(e);
        },
        Ok(_) => {},
    }
    let args = if c.at_keyword("template_args") {
        c.advance();
        match c.expect(1) {
            Err(e) => {
                return Err(e);
            },
            Ok(_) => {},
        }
        let a = match parse_targ_items(c, st) {
            Err(e) => {
                return Err(e);
            },
            Ok(a) => a,
        };
        match c.expect(2) {
            Err(e) => {
                return Err(e);
            },
            Ok(_) => {},
        }
        a
    } else {
        let a: Vec<(String, WAILType)> = Vec::new();
        assert(targs_types_view(a@) =~= Seq::<(Seq<char>, TyV)>::empty());
        a
    };
    let stmts = match parse_stmts(c, st) {
        Err(e) => {
            return Err(e);
        },
        Ok(s) => s,
    };
    if !c.at_keyword("prompt") {
        return Err(WAILParseError::UnexpectedToken { found: text("Expected prompt block"), location: c.err_location() });
    }
    c.advance();
    match c.expect(1) {
        Err(e) => {
            return Err(e);
        },
        Ok(_) => {},
    }
    let prompt = read_prompt(c, gaps);
    c.skip_ws();
    match c.expect(2) {
        Err(e) => {
            return Err(e);
        },
        Ok(_) => {},
    }
    let vars = assigned_variables(&stmts);
    st.has_main = true;
    st.main_vars = vars;
    Ok(WAILMainDef { statements: stmts, prompt, template_args: args })
}

fn parse_defs(c: &mut Cursor, st: &mut DefState, gaps: &Vec<String>, library: bool, acc: Vec<WAILDefinition>) -> (r: Result<
    Vec<WAILDefinition>,
    WAILParseError,
>)
    requires
        budget(*old(c), *old(st)),
        gaps@.len() == old(c).stream().len(),
    ensures
        defs_ok(old(st).view()) ==> defs_ok(final(st).view()),
        defs_ok(old(st).view()) && defs_good(defs_view(acc@)) && r is Ok ==> defs_good(defs_view(r->Ok_0@)),
        same_stream(*old(c), *final(c)),
        spent(*old(c), *old(st), *final(c), *final(st)),
        final(c).at() >= old(c).at(),
        ({
            let (sr, sk, sst) = p_defs(old(c).stream(), strs(gaps@), old(c).at(), old(st).view(), library, defs_view(acc@));
            res_matches(r, sr, |v: Vec<WAILDefinition>| defs_view(v@)) && final(c).at() == sk && final(st).view() == sst
        }),
{
    let ghost ts = c.stream();
    let ghost k = c.at();
    let ghost st0 = st.view();
    let ghost dv0 = defs_view(acc@);
    let mut defs = acc;
    loop
        invariant
            c.wf(),
            c.stream() == ts,
            ts == old(c).stream(),
            k == old(c).at(),
            st0 == old(st).view(),
            c.at() >= k,
            st.view().counter >= st0.counter,
            st.view().counter - st0.counter <= c.at() - k,
            st0.counter + (ts.len() - k) < i64::MAX,
            st0.counter >= 0,
            dv0 == defs_view(acc@),
            defs_ok(st0) ==> defs_ok(st.view()),
            defs_ok(st0) && defs_good(dv0) ==> defs_good(defs_view(defs@)),
            gaps@.len() == ts.len(),
            p_defs(ts, strs(gaps@), c.at(), st.view(), library, defs_view(defs@)) == p_defs(ts, strs(gaps@), k, st0, library, dv0),
        decreases ts.len() - c.at(),
    {
        let k0 = c.pos;
        proof {
            lemma_code(cur(ts, c.at()), 16);
        }
        if c.kind_now() == 16 {
            return Ok(defs);
        }
        if c.at_keyword("main") {
            if library {
                return Err(WAILParseError::UnexpectedToken {
                    found: text("main block in library file"),
                    location: c.err_location(),
                });
            }
            let m = match parse_main(c, st, gaps) {
                Err(e) => {
                    return Err(e);
                },
                Ok(m) => m,
            };
            let ghost d0 = defs@;
            let d = WAILDefinition::Main(m);
            let ghost dv = def_view(d);
            defs.push(d);
            proof {
                assert(defs_view(defs@) =~= defs_view(d0).push(dv));
                if defs_ok(st0) && defs_good(dv0) {
                    assert forall|i: int| 0 <= i < defs_view(defs@).len() implies #[trigger] def_good(defs_view(defs@)[i]) by {
                        if i < defs_view(d0).len() {
                            assert(def_good(defs_view(d0)[i]));
                        }
                    }
                }
            }
            if !(k0 < c.pos && c.pos < c.toks.len()) {
                return Ok(defs);
            }
        } else if c.at_keyword("object") || c.at_keyword("template") || c.at_keyword("union") {
            let is_obj = c.at_keyword("object");
            let is_tpl = c.at_keyword("template");
            let r = if is_obj {
                parse_object(c, st)
            } else if is_tpl {
                parse_template(c, st)
            } else {
                parse_union(c, st)
            };
            let d = match r {
                Err(e) => {
                    return Err(e);
                },
                Ok(d) => d,
            };
            let ghost d0 = defs@;
            let ghost dv = def_view(d);
            defs.push(d);
            proof {
                assert(defs_view(defs@) =~= defs_view(d0).push(dv));
                if defs_ok(st0) && defs_good(dv0) {
                    assert forall|i: int| 0 <= i < defs_view(defs@).len() implies #[trigger] def_good(defs_view(defs@)[i]) by {
                        if i < defs_view(d0).len() {
                            assert(def_good(defs_view(d0)[i]));
                        }
                    }
                }
            }
            if !(k0 < c.pos && c.pos < c.toks.len()) {
                return Ok(defs);
            }
        } else if c.pos < c.toks.len() - 1 {
            c.pos = c.pos + 1;
        } else {
            return Ok(defs);
        }
    }
}


proof fn lemma_lex_len(s: Seq<char>, p: int, l: int, c: int)
    requires
        0 <= p <= s.len(),
    ensures
        lex_run(s, p, l, c).len() <= s.len() - p + 1,
    decreases s.len() - p,
{
    crate::wail_parser::lemma_token_progress(s, p);
    let (t, st, e) = token_spec(s, p);
    let (l2, c2) = advance_over(l, c, s.subrange(p, e));
    if !(t is Eof || e <= p || p < 0 || e > s.len()) {
        lemma_lex_len(s, e, l2, c2);
    }
}

proof fn lemma_drop_len(a: Seq<(TokV, int, int)>)
    ensures
        drop_skippable(a).len() <= a.len(),
    decreases a.len(),
{
    if a.len() > 0 {
        lemma_drop_len(a.drop_first());
    }
}

/// The parser never sees more tokens than there are characters, plus one.
pub proof fn lemma_parser_tokens_len(s: Seq<char>)
    ensures
        parser_tokens(s).len() <= s.len() + 1,
        parser_tokens(s).len() >= 1,
{
    lemma_lex_len(s, 0, 1, 1);
    lemma_lex_last(s, 0, 1, 1);
    let raw = lex_run(s, 0, 1, 1);
    if raw.len() > 2 {
        lemma_drop_len(raw.skip(2));
    }
}

// ───────────────────────── resolving imports ─────────────────────────

pub open spec fn src_res_view(r: Result<String, String>) -> Result<Seq<char>, Seq<char>> {
    match r {
        Ok(t) => Ok(t@),
        Err(m) => Err(m@),
    }
}

pub open spec fn src_view(v: Seq<(String, Result<String, String>)>) -> SourcesV {
    v.map_values(|e: (String, Result<String, String>)| (e.0@, src_res_view(e.1)))
}

/// Why reading a file with its imports stopped.
#[derive(Debug)]
pub(crate) enum Halt {
    Error(WAILParseError),
    /// an imported file whose text is not among the sources: resolved path, import path
    NeedFile(String, String),
    Overflow,
}

pub(crate) open spec fn halt_view(h: Halt) -> Option<PErr> {
    match h {
        Halt::Error(e) => perr_view(e),
        Halt::NeedFile(fp, path) => Some(PErr::NeedFile(fp@, path@)),
        Halt::Overflow => Some(PErr::Overflow),
    }
}

pub(crate) open spec fn halt_matches<T, V>(r: Result<T, Halt>, s: Result<V, PErr>, f: spec_fn(T) -> V) -> bool {
    match r {
        Ok(t) => s == Ok::<V, PErr>(f(t)),
        Err(h) => s is Err && halt_view(h) == Some(s->Err_0),
    }
}

fn def_name_of(d: &WAILDefinition) -> (r: Option<&String>)
    ensures
        match r {
            Some(n) => def_name(def_view(*d)) == Some(n@),
            None => def_name(def_view(*d)) is None,
        },
{
    match d {
        WAILDefinition::Object(f) => Some(&f.name),
        WAILDefinition::Template(t) => Some(&t.name),
        WAILDefinition::Union(f) => Some(&f.name),
        _ => None,
    }
}

/// Where the library's definition of `name` is (see [`lib_lookup`]).
#[verifier::spinoff_prover]
#[verifier::rlimit(30)]
fn lib_find(lib: &Vec<WAILDefinition>, name: &String) -> (r: Option<usize>)
    ensures
        match r {
            Some(i) => i < lib@.len() && lib_lookup(defs_view(lib@), name@) == Some(def_view(lib@[i as int])),
            None => lib_lookup(defs_view(lib@), name@) is None,
        },
{
    let ghost dv = defs_view(lib@);
    let mut i = lib.len();
    assert(dv.take(i as int) =~= dv);
    while i > 0
        invariant
            i <= lib@.len(),
            dv == defs_view(lib@),
            lib_lookup(dv, name@) == lib_lookup(dv.take(i as int), name@),
        decreases i,
    {
        let found = match def_name_of(&lib[i - 1]) {
            Some(n) => *n == *name,
            None => false,
        };
        assert(dv.take(i as int).last() == def_view(lib@[i - 1]));
        if found {
            return Some(i - 1);
        }
        assert(dv.take(i as int).drop_last() =~= dv.take(i - 1));
        i -= 1;
    }
    None
}

/// Registers the library objects a type refers to (see [`add_refs`]).
fn add_referenced(t: &WAILType, lib: &Vec<WAILDefinition>, st: &mut DefState)
    ensures
        final(st).view() == add_refs(ty_view(*t), defs_view(lib@), old(st).view()),
        defs_ok(old(st).view()) && defs_good(defs_view(lib@)) ==> defs_ok(final(st).view()),
    decreases t,
{
    match t {
        WAILType::Composite(WAILCompositeType::Object(o)) => {
            let label = &o.type_data.type_label;
            match lib_find(lib, label) {
                Some(i) => {
                    match &lib[i] {
                        WAILDefinition::Object(f) => {
                            proof {
                                lemma_apos_keys(st.registry@.map_values(|e: (String, WAILField)| (e.0@, ())), st.view().reg, label@);
                            }
                            if find_in(&st.registry, label).is_some() {
                                return;
                            }
                            let ghost before = st.view();
                            reg_insert(&mut st.registry, label.clone(), clone_field(f));
                            proof {
                                if defs_ok(before) && defs_good(defs_view(lib@)) {
                                    assert(def_good(defs_view(lib@)[i as int]));
                                    lemma_reg_insert_ok(before, label@, field_view(*f));
                                }
                                assert(st.view() == GSt { reg: ainsert(before.reg, label@, field_view(*f)), ..before });
                            }
                            match &o.type_data.field_definitions {
                                Some(fs) => {
                                    proof {
                                        assert(decreases_to!(*t => o.type_data.field_definitions->Some_0));
                                    }
                                    add_referenced_fields(fs, lib, st);
                                },
                                None => {},
                            }
                        },
                        _ => {},
                    }
                },
                None => {},
            }
        },
        WAILType::Composite(WAILCompositeType::Array(a)) => {
            match &a.type_data.element_type {
                Some(e) => {
                    proof {
                        assert(decreases_to!(*t => *(a.type_data.element_type->Some_0)));
                    }
                    add_referenced(e, lib, st);
                },
                None => {},
            }
        },
        WAILType::Composite(WAILCompositeType::Union(u)) => {
            add_referenced_fields(&u.members, lib, st);
        },
        _ => {},
    }
}

/// [`add_referenced`] for the type of each field in turn.
fn add_referenced_fields(fs: &Vec<WAILField>, lib: &Vec<WAILDefinition>, st: &mut DefState)
    ensures
        final(st).view() == add_refs_fields(fields_view(fs@), defs_view(lib@), old(st).view()),
        defs_ok(old(st).view()) && defs_good(defs_view(lib@)) ==> defs_ok(final(st).view()),
    decreases fs,
{
    let ghost st0 = st.view();
    let ghost l = defs_view(lib@);
    let mut i: usize = 0;
    proof {
        lemma_fields_view_len(fs@);
        assert(fields_view(fs@.take(0)) =~= Seq::<FieldV>::empty());
    }
    while i < fs.len()
        invariant
            i <= fs@.len(),
            st0 == old(st).view(),
            l == defs_view(lib@),
            st.view() == add_refs_fields(fields_view(fs@.take(i as int)), l, st0),
            defs_ok(st0) && defs_good(l) ==> defs_ok(st.view()),
        decreases fs@.len() - i,
    {
        proof {
            assert(decreases_to!(fs => fs@));
            assert(decreases_to!(fs@ => fs@[i as int]));
            assert(decreases_to!(fs@[i as int] => fs@[i as int].field_type));
        }
        add_referenced(&fs[i].field_type, lib, st);
        proof {
            let a = fs@.take(i + 1);
            assert(a.drop_last() =~= fs@.take(i as int));
            assert(a.last() == fs@[i as int]);
            assert(fields_view(a) == fields_view(a.drop_last()).push(field_view(a.last())));
            assert(fields_view(a).drop_last() =~= fields_view(fs@.take(i as int)));
        }
        i += 1;
    }
    assert(fs@.take(i as int) =~= fs@);
}

/// Registers one imported definition (see [`reg_one`]).
fn register_one(d: &WAILDefinition, lib: &Vec<WAILDefinition>, st: &mut DefState)
    ensures
        final(st).view() == reg_one(def_view(*d), defs_view(lib@), old(st).view()),
        defs_ok(old(st).view()) && def_good(def_view(*d)) && defs_good(defs_view(lib@)) ==> defs_ok(final(st).view()),
{
    match d {
        WAILDefinition::Object(f) | WAILDefinition::Union(f) => {
            let nid = st.namespaced_identifier(&f.name);
            proof {
                lemma_apos_keys(st.registry@.map_values(|e: (String, WAILField)| (e.0@, ())), st.view().reg, nid@);
            }
            if find_in(&st.registry, &nid).is_some() {
                return;
            }
            let ghost before = st.view();
            let ghost kv = nid@;
            reg_insert(&mut st.registry, nid, clone_field(f));
            proof {
                if defs_ok(before) && def_good(def_view(*d)) {
                    lemma_reg_insert_ok(before, kv, field_view(*f));
                }
                assert(st.view() == GSt { reg: ainsert(before.reg, kv, field_view(*f)), ..before });
            }
            add_referenced(&f.field_type, lib, st);
        },
        WAILDefinition::Template(t) => {
            let nid = st.namespaced_identifier(&t.name);
            proof {
                lemma_apos_keys(
                    st.template_registry@.map_values(|e: (String, WAILTemplateDef)| (e.0@, ())),
                    st.view().tpl,
                    nid@,
                );
            }
            if find_in(&st.template_registry, &nid).is_some() {
                return;
            }
            let ghost before = st.view();
            let ghost kv = nid@;
            tpl_insert(&mut st.template_registry, nid, clone_template(t));
            proof {
                if defs_ok(before) && def_good(def_view(*d)) {
                    lemma_tpl_insert_ok(before, kv, templ_view(*t));
                }
                assert(st.view() == GSt { tpl: ainsert(before.tpl, kv, templ_view(*t)), ..before });
            }
            add_referenced_fields(&t.inputs, lib, st);
            add_referenced(&t.output.field_type, lib, st);
        },
        _ => {},
    }
}

/// Registers the imported names (see [`reg_items`]).
fn register_items(items: &Vec<String>, lib: &Vec<WAILDefinition>, path: &String, st: &mut DefState) -> (r: Result<(), WAILParseError>)
    ensures
        ({
            let (sr, sst) = reg_items(strs(items@), 0, defs_view(lib@), path@, old(st).view());
            res_matches(r, sr, |u: ()| u) && final(st).view() == sst
        }),
        defs_ok(old(st).view()) && defs_good(defs_view(lib@)) ==> defs_ok(final(st).view()),
{
    let ghost st0 = st.view();
    let ghost its = strs(items@);
    let ghost l = defs_view(lib@);
    let mut j: usize = 0;
    while j < items.len()
        invariant
            j <= items@.len(),
            st0 == old(st).view(),
            its == strs(items@),
            l == defs_view(lib@),
            reg_items(its, j as int, l, path@, st.view()) == reg_items(its, 0, l, path@, st0),
            defs_ok(st0) && defs_good(l) ==> defs_ok(st.view()),
        decreases items@.len() - j,
    {
        match lib_find(lib, &items[j]) {
            None => {
                return Err(WAILParseError::ImportNotFound { name: items[j].clone(), path: path.clone() });
            },
            Some(i) => {
                proof {
                    if defs_good(l) {
                        assert(def_good(l[i as int]));
                    }
                }
                register_one(&lib[i], lib, st);
            },
        }
        j += 1;
    }
    Ok(())
}

fn copy_registry(r: &Vec<(String, WAILField)>) -> (c: Vec<(String, WAILField)>)
    ensures
        reg_view(c@) == reg_view(r@),
{
    let mut c: Vec<(String, WAILField)> = Vec::new();
    let mut i: usize = 0;
    while i < r.len()
        invariant
            i <= r@.len(),
            reg_view(c@) == reg_view(r@.take(i as int)),
        decreases r@.len() - i,
    {
        let e = (r[i].0.clone(), clone_field(&r[i].1));
        let ghost c0 = c@;
        c.push(e);
        proof {
            assert(reg_view(c@) =~= reg_view(c0).push((e.0@, field_view(e.1))));
            assert(reg_view(r@.take(i + 1)) =~= reg_view(r@.take(i as int)).push((r@[i as int].0@, field_view(r@[i as int].1))));
        }
        i += 1;
    }
    assert(r@.take(i as int) =~= r@);
    c
}

fn copy_templates(r: &Vec<(String, WAILTemplateDef)>) -> (c: Vec<(String, WAILTemplateDef)>)
    ensures
        tpl_view(c@) == tpl_view(r@),
{
    let mut c: Vec<(String, WAILTemplateDef)> = Vec::new();
    let mut i: usize = 0;
    while i < r.len()
        invariant
            i <= r@.len(),
            tpl_view(c@) == tpl_view(r@.take(i as int)),
        decreases r@.len() - i,
    {
        let e = (r[i].0.clone(), clone_template(&r[i].1));
        let ghost c0 = c@;
        c.push(e);
        proof {
            assert(tpl_view(c@) =~= tpl_view(c0).push((e.0@, templ_view(e.1))));
            assert(tpl_view(r@.take(i + 1)) =~= tpl_view(r@.take(i as int)).push((r@[i as int].0@, templ_view(r@[i as int].1))));
        }
        i += 1;
    }
    assert(r@.take(i as int) =~= r@);
    c
}

fn copy_refs(r: &Vec<(String, WAILObject)>) -> (c: Vec<(String, WAILObject)>)
    ensures
        refs_view(c@) == refs_view(r@),
{
    let mut c: Vec<(String, WAILObject)> = Vec::new();
    let mut i: usize = 0;
    while i < r.len()
        invariant
            i <= r@.len(),
            refs_view(c@) == refs_view(r@.take(i as int)),
        decreases r@.len() - i,
    {
        let e = (r[i].0.clone(), clone_object(&r[i].1));
        let ghost c0 = c@;
        c.push(e);
        proof {
            assert(refs_view(c@) =~= refs_view(c0).push((e.0@, obj_view(e.1))));
            assert(refs_view(r@.take(i + 1)) =~= refs_view(r@.take(i as int)).push((r@[i as int].0@, obj_view(r@[i as int].1))));
        }
        i += 1;
    }
    assert(r@.take(i as int) =~= r@);
    c
}

fn copy_instances(r: &Vec<(String, WAILObjectInstantiation)>) -> (c: Vec<(String, WAILObjectInstantiation)>)
    ensures
        inst_keys(c@) == inst_keys(r@),
{
    let mut c: Vec<(String, WAILObjectInstantiation)> = Vec::new();
    let mut i: usize = 0;
    while i < r.len()
        invariant
            i <= r@.len(),
            inst_keys(c@) == inst_keys(r@.take(i as int)),
        decreases r@.len() - i,
    {
        let o = WAILObjectInstantiation {
            binding_name: r[i].1.binding_name.clone(),
            object_type: r[i].1.object_type.clone(),
            fields: crate::parser_types::clone_tentries(&r[i].1.fields),
        };
        let e = (r[i].0.clone(), o);
        let ghost c0 = c@;
        c.push(e);
        proof {
            assert(inst_keys(c@) =~= inst_keys(c0).push(e.0@));
            assert(inst_keys(r@.take(i + 1)) =~= inst_keys(r@.take(i as int)).push(r@[i as int].0@));
        }
        i += 1;
    }
    assert(r@.take(r@.len() as int) =~= r@);
    c
}

impl DefState {
    /// A copy with the same view.
    fn copy(&self) -> (r: Self)
        ensures
            r.view() == self.view(),
    {
        let ids = crate::wail_parser::clone_strings(&self.adhoc_obj_ids);
        let module = crate::wail_parser::clone_strings(&self.current_module);
        let r = DefState {
            registry: copy_registry(&self.registry),
            template_registry: copy_templates(&self.template_registry),
            adhoc_obj_ref_id_counter: self.adhoc_obj_ref_id_counter,
            adhoc_obj_ids: ids,
            adhoc_obj_refs: copy_refs(&self.adhoc_obj_refs),
            current_module: module,
            object_instances: copy_instances(&self.object_instances),
            has_main: self.has_main,
            main_vars: crate::wail_parser::clone_strings(&self.main_vars),
        };
        assert(strs(r.adhoc_obj_ids@) =~= strs(self.adhoc_obj_ids@));
        assert(strs(r.current_module@) =~= strs(self.current_module@));
        r
    }
}

/// Reads a file with its imports resolved against `files` (see [`pf`]).
#[verifier::rlimit(60)]
fn parse_file_in(
    input: &str,
    st: &mut DefState,
    chain: &mut ImportChain,
    library: bool,
    files: &Vec<(String, Result<String, String>)>,
) -> (r: Result<Vec<WAILDefinition>, Halt>)
    requires
        input@.len() + 2 < usize::MAX,
    ensures
        ({
            let (sr, sst, sch) = pf(input@, old(st).view(), old(chain).chain(), library, src_view(files@), old(chain).base());
            halt_matches(r, sr, |v: Vec<WAILDefinition>| defs_view(v@)) && final(st).view() == sst && final(chain).chain() == sch
        }),
        final(chain).base() == old(chain).base(),
        defs_ok(old(st).view()) ==> defs_ok(final(st).view()),
        defs_ok(old(st).view()) && r is Ok ==> defs_good(defs_view(r->Ok_0@)),
        r matches Err(Halt::NeedFile(fp, _)) ==> source_of(src_view(files@), fp@) is None,
    decreases unentered(src_view(files@), old(chain).base(), old(chain).chain()), 2int, 0int,
{
    let ghost st0 = st.view();
    let ghost ch0 = chain.chain();
    let ghost base = chain.base();
    let ghost fv = src_view(files@);
    let (mut c, gaps) = Cursor::open(input);
    let ghost ts = c.stream();
    proof {
        lemma_parser_tokens_len(input@);
    }
    c.skip_ws();
    let imports = match parse_imports(&mut c) {
        Err(e) => {
            return Err(Halt::Error(e));
        },
        Ok(v) => v,
    };
    let ghost iv = defs_view(imports@);
    let ghost k1 = c.at();
    assert(p_imports(ts, skip_ws(ts, 0), Seq::empty()) == (Ok::<Seq<DefV>, PErr>(iv), k1));
    proof {
        assert forall|i: int| 0 <= i < iv.len() implies #[trigger] def_good(iv[i]) by {
            lemma_imports_are_imports(ts, skip_ws(ts, 0), Seq::empty(), i);
        }
    }
    match resolve_imports(&imports, st, chain, files) {
        Err(h) => {
            return Err(h);
        },
        Ok(()) => {},
    }
    let ghost st2 = st.view();
    proof {
        lemma_r_imports_chain(iv, 0, st0, ch0, fv, base);
    }
    assert(r_imports(iv, 0, st0, ch0, fv, base) == (Ok::<(), PErr>(()), st2, ch0));
    let n = c.toks.len();
    let counter = st.adhoc_obj_ref_id_counter;
    assert(ts.len() == n);
    if counter < 0 || (counter as u128) + (n as u128) >= (i64::MAX as u128) {
        assert(st2.counter < 0 || st2.counter + ts.len() >= i64::MAX);
        return Err(Halt::Overflow);
    }
    let defs = match parse_defs(&mut c, st, &gaps, library, imports) {
        Err(e) => {
            return Err(Halt::Error(e));
        },
        Ok(v) => v,
    };
    if library || any_main(&defs) {
        Ok(defs)
    } else {
        Err(Halt::Error(WAILParseError::MissingMainBlock))
    }
}

/// Resolves the imports of a file (see [`r_imports`]).
fn resolve_imports(
    imps: &Vec<WAILDefinition>,
    st: &mut DefState,
    chain: &mut ImportChain,
    files: &Vec<(String, Result<String, String>)>,
) -> (r: Result<(), Halt>)
    ensures
        ({
            let (sr, sst, sch) = r_imports(defs_view(imps@), 0, old(st).view(), old(chain).chain(), src_view(files@), old(chain).base());
            halt_matches(r, sr, |u: ()| u) && final(st).view() == sst && final(chain).chain() == sch
        }),
        final(chain).base() == old(chain).base(),
        defs_ok(old(st).view()) ==> defs_ok(final(st).view()),
        r matches Err(Halt::NeedFile(fp, _)) ==> source_of(src_view(files@), fp@) is None,
    decreases unentered(src_view(files@), old(chain).base(), old(chain).chain()), 1int, imps@.len(),
{
    let ghost st0 = st.view();
    let ghost ch0 = chain.chain();
    let ghost base = chain.base();
    let ghost fv = src_view(files@);
    let ghost dv = defs_view(imps@);
    let mut i: usize = 0;
    while i < imps.len()
        invariant
            i <= imps@.len(),
            st0 == old(st).view(),
            ch0 == old(chain).chain(),
            base == old(chain).base(),
            fv == src_view(files@),
            dv == defs_view(imps@),
            chain.chain() == ch0,
            chain.base() == base,
            r_imports(dv, i as int, st.view(), ch0, fv, base) == r_imports(dv, 0, st0, ch0, fv, base),
            defs_ok(st0) ==> defs_ok(st.view()),
        decreases imps@.len() - i,
    {
        match &imps[i] {
            WAILDefinition::Import(imp) => {
                let path = &imp.path;
                let fp = chain.resolve_path(path.as_str());
                let ghost before = st.view();
                st.current_module.push(path.clone());
                proof {
                    assert(strs(st.current_module@) =~= before.module.push(path@));
                    assert(st.view() == GSt { module: before.module.push(path@), ..before });
                }
                match chain.push(fp.as_str()) {
                    Err(e) => {
                        return Err(Halt::Error(e));
                    },
                    Ok(_) => {},
                }
                proof {
                    lemma_apos_keys(
                        files@.map_values(|e: (String, Result<String, String>)| (e.0@, ())),
                        fv,
                        fp@,
                    );
                }
                let j = match find_in(files, &fp) {
                    None => {
                        return Err(Halt::NeedFile(fp, path.clone()));
                    },
                    Some(j) => j,
                };
                let text = match &files[j].1 {
                    Err(msg) => {
                        return Err(Halt::Error(WAILParseError::FileError { path: path.clone(), error: msg.clone() }));
                    },
                    Ok(t) => t,
                };
                let cl = chars_of(text.as_str()).len();
                if cl >= usize::MAX - 2 {
                    return Err(Halt::Overflow);
                }
                proof {
                    lemma_unentered_push(fv, base, ch0, fp@);
                }
                let lib = match parse_file_in(text.as_str(), st, chain, true, files) {
                    Err(h) => {
                        return Err(h);
                    },
                    Ok(l) => l,
                };
                match register_items(&imp.items, &lib, path, st) {
                    Err(e) => {
                        return Err(Halt::Error(e));
                    },
                    Ok(()) => {},
                }
                chain.pop();
                let ghost st3 = st.view();
                let _ = st.current_module.pop();
                proof {
                    crate::wail_parser::lemma_push_then_pop(ch0, resolve_spec(base, fp@));
                    if st3.module.len() > 0 {
                        assert(strs(st.current_module@) =~= st3.module.drop_last());
                    } else {
                        assert(strs(st.current_module@) =~= st3.module);
                    }
                    assert(st.view() == pop_module(st3));
                }
            },
            _ => {},
        }
        i += 1;
    }
    Ok(())
}

/// The state after clearing: no definitions, templates, inline objects,
/// object instances or main block; the inline-object count and the module
/// stack are kept.
pub open spec fn cleared(st: GSt) -> GSt {
    GSt {
        reg: Seq::empty(),
        tpl: Seq::empty(),
        adhoc_ids: Seq::empty(),
        adhoc_refs: Seq::empty(),
        objs: Seq::empty(),
        main: false,
        main_vars: Seq::empty(),
        ..st
    }
}

/// Reads WAIL definitions and keeps what they define.
#[derive(Debug)]
#[allow(dead_code)]
pub struct WAILParser {
    defs: DefState,
    import_chain: ImportChain,
    base_path: String,
    /// the text of imported files, by resolved path (or why it could not be read)
    sources: Vec<(String, Result<String, String>)>,
}

/// The outcome of one attempt at reading a file with its imports.
#[derive(Debug)]
pub enum ParseStep {
    /// the file was read, or refused
    Parsed(Result<Vec<WAILDefinition>, WAILParseError>),
    /// the text of the imported file at this resolved path is needed first;
    /// nothing was changed
    NeedsFile(String),
}

/// What an import whose file text was never handed to the parser is
/// reported with.
pub open spec fn missing_source(fp: Seq<char>) -> Seq<char> {
    "source not loaded: "@ + fp
}

/// The outcome of reading a file when a missing source is an error.
pub open spec fn without_sources(r: Result<Seq<DefV>, PErr>) -> Result<Seq<DefV>, PErr> {
    match r {
        Err(PErr::NeedFile(fp, path)) => Err(PErr::FileErr(path, missing_source(fp))),
        _ => r,
    }
}

impl WAILParser {
    /// What has been defined so far.
    pub closed spec fn state(&self) -> GSt {
        self.defs.view()
    }

    /// The registered definitions, by namespaced name.
    pub closed spec fn registry(&self) -> Seq<(String, WAILField)> {
        self.defs.registry@
    }

    /// The names object instances are bound under.
    pub open spec fn instances(&self) -> Seq<Seq<char>> {
        self.state().objs
    }

    /// The imports being resolved, outermost first, by canonical path.
    pub closed spec fn chain(&self) -> Seq<Seq<char>> {
        self.import_chain.chain()
    }

    /// The directory import paths are taken from.
    pub closed spec fn base(&self) -> Seq<char> {
        self.import_chain.base()
    }

    /// The texts of imported files handed to the parser.
    pub closed spec fn sources(&self) -> SourcesV {
        src_view(self.sources@)
    }

    /// Reading `input` as the parser stands: (outcome, state after, chain after).
    pub open spec fn read_spec(&self, input: Seq<char>, file_type: WAILFileType, clear: bool) -> (
        Result<Seq<DefV>, PErr>,
        GSt,
        Seq<Seq<char>>,
    ) {
        let st0 = if clear {
            cleared(self.state())
        } else {
            self.state()
        };
        if input.len() + 2 >= usize::MAX {
            (Err(PErr::Overflow), st0, self.chain())
        } else {
            pf(input, st0, self.chain(), file_type == WAILFileType::Library, self.sources(), self.base())
        }
    }

    pub fn new(base_path: String) -> (r: Self)
        ensures
            r.state() == (GSt {
                reg: Seq::empty(),
                tpl: Seq::empty(),
                counter: 0,
                adhoc_ids: Seq::empty(),
                adhoc_refs: Seq::empty(),
                module: Seq::empty(),
                objs: Seq::empty(),
                main: false,
                main_vars: Seq::empty(),
            }),
            r.chain() == Seq::<Seq<char>>::empty(),
            r.base() == base_path@,
            r.sources() == SourcesV::empty(),
            defs_ok(r.state()),
    {
        let chain = ImportChain::new(base_path.clone());
        let r = WAILParser {
            defs: DefState::new(),
            import_chain: chain,
            base_path,
            sources: Vec::new(),
        };
        assert(r.sources() =~= SourcesV::empty());
        r
    }

    /// Hands the parser the text of an imported file (or why it could not be
    /// read), by its resolved path.
    pub fn add_source(&mut self, path: String, text: Result<String, String>)
        ensures
            final(self).sources() == old(self).sources().push((path@, src_res_view(text))),
            final(self).state() == old(self).state(),
            final(self).chain() == old(self).chain(),
            final(self).base() == old(self).base(),
    {
        let ghost v0 = self.sources@;
        self.sources.push((path, text));
        assert(src_view(self.sources@) =~= src_view(v0).push((path@, src_res_view(text))));
    }

    /// A token reader over `input`.
    pub fn incremental_parser(&self, input: &str) -> (r: Cursor)
        requires
            input@.len() < usize::MAX - 2,
        ensures
            r.wf(),
            r.at() == 0,
            r.stream() == parser_tokens(input@),
    {
        Cursor::new(input)
    }

    fn clear_definitions(&mut self)
        ensures
            final(self).state() == cleared(old(self).state()),
            final(self).chain() == old(self).chain(),
            final(self).base() == old(self).base(),
            final(self).sources() == old(self).sources(),
            defs_ok(final(self).state()),
    {
        self.defs.registry = Vec::new();
        self.defs.template_registry = Vec::new();
        self.defs.object_instances = Vec::new();
        self.defs.has_main = false;
        self.defs.main_vars = Vec::new();
        assert(strs(self.defs.main_vars@) =~= Seq::empty());
        self.defs.adhoc_obj_ids = Vec::new();
        self.defs.adhoc_obj_refs = Vec::new();
        proof {
            assert(reg_view(self.defs.registry@) =~= Seq::empty());
            assert(tpl_view(self.defs.template_registry@) =~= Seq::empty());
            assert(strs(self.defs.adhoc_obj_ids@) =~= Seq::empty());
            assert(refs_view(self.defs.adhoc_obj_refs@) =~= Seq::empty());
            assert(inst_keys(self.defs.object_instances@) =~= Seq::empty());
            assert(self.state() == cleared(old(self).state()));
        }
    }

    /// One attempt at reading a WAIL file with its imports resolved against
    /// the sources handed over so far. Where the text of an imported file is
    /// missing, nothing changes and its resolved path is returned, so that
    /// the caller can hand it over and try again. Otherwise this is
    /// [`WAILParser::parse_wail_file`].
    pub fn parse_step(&mut self, input_string: String, file_type: WAILFileType, clear: bool) -> (r: ParseStep)
        ensures
            ({
                let (sr, sst, sch) = old(self).read_spec(input_string@, file_type, clear);
                match sr {
                    Err(PErr::NeedFile(fp, _)) => {
                        &&& r matches ParseStep::NeedsFile(p) && p@ == fp
                        &&& source_of(old(self).sources(), fp) is None
                        &&& final(self).state() == old(self).state()
                        &&& final(self).chain() == old(self).chain()
                    },
                    _ => {
                        &&& r matches ParseStep::Parsed(res) && res_matches(res, sr, |v: Vec<WAILDefinition>| defs_view(v@))
                        &&& final(self).state() == sst
                        &&& final(self).chain() == sch
                    },
                }
            }),
            final(self).sources() == old(self).sources(),
            final(self).base() == old(self).base(),
            defs_ok(old(self).state()) ==> defs_ok(final(self).state()),
    {
        let mut st = self.defs.copy();
        if clear {
            st.registry = Vec::new();
            st.template_registry = Vec::new();
            st.adhoc_obj_ids = Vec::new();
            st.adhoc_obj_refs = Vec::new();
            st.object_instances = Vec::new();
            st.has_main = false;
            st.main_vars = Vec::new();
            proof {
                assert(strs(st.main_vars@) =~= Seq::empty());
                assert(inst_keys(st.object_instances@) =~= Seq::empty());
                assert(reg_view(st.registry@) =~= Seq::empty());
                assert(tpl_view(st.template_registry@) =~= Seq::empty());
                assert(strs(st.adhoc_obj_ids@) =~= Seq::empty());
                assert(refs_view(st.adhoc_obj_refs@) =~= Seq::empty());
                assert(st.view() == cleared(old(self).state()));
            }
        }
        let mut chain = self.import_chain.copy();
        let library = match file_type {
            WAILFileType::Library => true,
            WAILFileType::Application => false,
        };
        let n = chars_of(input_string.as_str()).len();
        let res = if n >= usize::MAX - 2 {
            Err(WAILParseError::ParseLimitExceeded)
        } else {
            match parse_file_in(input_string.as_str(), &mut st, &mut chain, library, &self.sources) {
                Err(Halt::NeedFile(fp, _)) => {
                    return ParseStep::NeedsFile(fp);
                },
                Err(Halt::Overflow) => Err(WAILParseError::ParseLimitExceeded),
                Err(Halt::Error(e)) => Err(e),
                Ok(defs) => Ok(defs),
            }
        };
        self.defs = st;
        self.import_chain = chain;
        ParseStep::Parsed(res)
    }

    /// Parses a WAIL file: its imports, each imported library read from the
    /// sources handed over (an import whose text is missing fails as a file
    /// error), then its object, union and template definitions, which are
    /// registered as they are read, and its main block (which an application
    /// file must have and a library file must not). With `clear`, what earlier
    /// files defined is forgotten first.
    pub fn parse_wail_file_with_tokens(&mut self, input_string: String, file_type: WAILFileType, clear: bool) -> (r: Result<
        Vec<WAILDefinition>,
        WAILParseError,
    >)
        ensures
            ({
                let (sr, sst, sch) = old(self).read_spec(input_string@, file_type, clear);
                &&& res_matches(r, without_sources(sr), |v: Vec<WAILDefinition>| defs_view(v@))
                &&& final(self).state() == sst
                &&& final(self).chain() == sch
            }),
            final(self).sources() == old(self).sources(),
            final(self).base() == old(self).base(),
            defs_ok(old(self).state()) ==> defs_ok(final(self).state()),
    {
        let ghost pre = *self;
        if clear {
            self.clear_definitions();
        }
        assert(self.state() == (if clear { cleared(pre.state()) } else { pre.state() }));
        let library = match file_type {
            WAILFileType::Library => true,
            WAILFileType::Application => false,
        };
        let n = chars_of(input_string.as_str()).len();
        if n >= usize::MAX - 2 {
            return Err(WAILParseError::ParseLimitExceeded);
        }
        match parse_file_in(input_string.as_str(), &mut self.defs, &mut self.import_chain, library, &self.sources) {
            Ok(defs) => Ok(defs),
            Err(Halt::Error(e)) => Err(e),
            Err(Halt::NeedFile(fp, path)) => {
                let mut msg = String::from_str("source not loaded: ");
                push_str(&mut msg, fp.as_str());
                Err(WAILParseError::FileError { path, error: msg })
            },
            Err(Halt::Overflow) => Err(WAILParseError::ParseLimitExceeded),
        }
    }

    /// The same as [`WAILParser::parse_wail_file_with_tokens`].
    pub fn parse_wail_file(&mut self, input_string: String, file_type: WAILFileType, clear: bool) -> (r: Result<
        Vec<WAILDefinition>,
        WAILParseError,
    >)
        ensures
            ({
                let (sr, sst, sch) = old(self).read_spec(input_string@, file_type, clear);
                &&& res_matches(r, without_sources(sr), |v: Vec<WAILDefinition>| defs_view(v@))
                &&& final(self).state() == sst
                &&& final(self).chain() == sch
            }),
            final(self).sources() == old(self).sources(),
            final(self).base() == old(self).base(),
            defs_ok(old(self).state()) ==> defs_ok(final(self).state()),
    {
        self.parse_wail_file_with_tokens(input_string, file_type, clear)
    }

    /// The names definitions are registered under, in order.
    pub fn registered_names(&self) -> (r: Vec<String>)
        ensures
            strs(r@) == self.state().reg.map_values(|e: (Seq<char>, FieldV)| e.0),
    {
        let mut out: Vec<String> = Vec::new();
        let mut i: usize = 0;
        while i < self.defs.registry.len()
            invariant
                i <= self.defs.registry@.len(),
                strs(out@) == self.state().reg.take(i as int).map_values(|e: (Seq<char>, FieldV)| e.0),
            decreases self.defs.registry@.len() - i,
        {
            let ghost o0 = out@;
            out.push(self.defs.registry[i].0.clone());
            proof {
                assert(strs(out@) =~= strs(o0).push(self.defs.registry@[i as int].0@));
                assert(self.state().reg.take(i + 1).map_values(|e: (Seq<char>, FieldV)| e.0) =~= self.state().reg.take(
                    i as int,
                ).map_values(|e: (Seq<char>, FieldV)| e.0).push(self.state().reg[i as int].0));
            }
            i += 1;
        }
        assert(self.state().reg.take(i as int) =~= self.state().reg);
        out
    }

    /// The names templates are registered under, in order.
    pub fn template_names(&self) -> (r: Vec<String>)
        ensures
            strs(r@) == self.state().tpl.map_values(|e: (Seq<char>, TemplV)| e.0),
    {
        let mut out: Vec<String> = Vec::new();
        let mut i: usize = 0;
        while i < self.defs.template_registry.len()
            invariant
                i <= self.defs.template_registry@.len(),
                strs(out@) == self.state().tpl.take(i as int).map_values(|e: (Seq<char>, TemplV)| e.0),
            decreases self.defs.template_registry@.len() - i,
        {
            let ghost o0 = out@;
            out.push(self.defs.template_registry[i].0.clone());
            proof {
                assert(strs(out@) =~= strs(o0).push(self.defs.template_registry@[i as int].0@));
                assert(self.state().tpl.take(i + 1).map_values(|e: (Seq<char>, TemplV)| e.0) =~= self.state().tpl.take(
                    i as int,
                ).map_values(|e: (Seq<char>, TemplV)| e.0).push(self.state().tpl[i as int].0));
            }
            i += 1;
        }
        assert(self.state().tpl.take(i as int) =~= self.state().tpl);
        out
    }

    /// Whether a main block has been read.
    pub fn has_main(&self) -> (r: bool)
        ensures
            r == self.state().main,
    {
        self.defs.has_main
    }

    /// Reads a language model's reply to the main block's prompt: one
    /// `<action>…</action>` block per variable its `let` statements assign a
    /// template's result to, each parsed as JSON, into an object keyed by
    /// those variables (see [`crate::llm_output::llm_output_spec`]).
    pub fn parse_llm_output(&self, input: &str) -> (r: Result<JsonValue, String>)
        requires
            self.state().main,
        ensures
            match r {
                Ok(v) => crate::llm_output::llm_output_spec(self.state().main_vars, input@) == Ok::<JVal, Seq<char>>(v@),
                Err(e) => crate::llm_output::llm_output_spec(self.state().main_vars, input@) == Err::<JVal, Seq<char>>(e@),
            },
    {
        proof {
            assert(self.defs.main_vars@.map_values(|x: String| x@) =~= strs(self.defs.main_vars@));
        }
        crate::llm_output::read_llm_output(&self.defs.main_vars, input)
    }

    /// The names object instances are bound under, in order.
    pub fn instance_names(&self) -> (r: Vec<String>)
        ensures
            strs(r@) == self.instances(),
    {
        let mut out: Vec<String> = Vec::new();
        let mut i: usize = 0;
        while i < self.defs.object_instances.len()
            invariant
                i <= self.defs.object_instances@.len(),
                strs(out@) == inst_keys(self.defs.object_instances@.take(i as int)),
            decreases self.defs.object_instances@.len() - i,
        {
            let ghost o0 = out@;
            out.push(self.defs.object_instances[i].0.clone());
            proof {
                assert(strs(out@) =~= strs(o0).push(self.defs.object_instances@[i as int].0@));
                assert(inst_keys(self.defs.object_instances@.take(i + 1)) =~= inst_keys(
                    self.defs.object_instances@.take(i as int),
                ).push(self.defs.object_instances@[i as int].0@));
            }
            i += 1;
        }
        assert(self.defs.object_instances@.take(i as int) =~= self.defs.object_instances@);
        out
    }

    /// A copy of the definition registered under `name`, if any.
    pub fn registered(&self, name: &String) -> (r: Option<WAILField>)
        ensures
            match r {
                Some(f) => apos(self.state().reg, name@) >= 0 && field_view(f) == self.state().reg[apos(self.state().reg, name@)].1,
                None => apos(self.state().reg, name@) < 0,
            },
    {
        proof {
            lemma_apos_keys(self.defs.registry@.map_values(|e: (String, WAILField)| (e.0@, ())), self.state().reg, name@);
        }
        match find_in(&self.defs.registry, name) {
            Some(i) => Some(clone_field(&self.defs.registry[i].1)),
            None => None,
        }
    }

    /// The path to the place a validation error is about.
    pub fn get_error_location(&self, error: &JsonValidationError) -> (r: Vec<PathSegment>)
        ensures
            segs_view(r@) == loc_spec(verr_view(*error)),
    {
        error_location(error)
    }

    /// Repairs `json` in place along `path` against the registered
    /// definitions (see [`crate::wail_repair::fix_json_value`]).
    pub fn fix_json_value(&self, json: &mut JsonValue, path: &[PathSegment]) -> (r: Result<(), String>)
        ensures
            match fix_spec(registry_fields(self.registry()), old(json)@, segs_view(path@)) {
                Ok(w) => final(json)@ == w && r is Ok,
                Err(m) => final(json)@ == old(json)@ && (r matches Err(e) && e@ == m),
            },
    {
        crate::wail_repair::fix_json_value(&self.defs.registry, json, path)
    }
}


// ───────────────────────── checking templates, executably ─────────────────────────

pub open spec fn warns_view(s: Seq<ValidationWarning>) -> Seq<WarnV> {
    s.map_values(|w: ValidationWarning| warn_view(w))
}

pub open spec fn undefs_view(s: Seq<ValidationError>) -> Seq<UndefV> {
    s.map_values(|e: ValidationError| undef_view(e))
}

fn is_similar(known: &String, name: &String) -> (r: bool)
    ensures
        r == similar(known@, name@),
{
    if !(crate::text::utf8_longer_than_two(known.as_str()) && crate::text::utf8_longer_than_two(name.as_str())) {
        return false;
    }
    let a = chars_of(known.as_str());
    let b = chars_of(name.as_str());
    let n = if a.len() < b.len() {
        a.len()
    } else {
        b.len()
    };
    let mut count: usize = 0;
    let mut i: usize = 0;
    while i < n
        invariant
            i <= n,
            n <= a@.len(),
            n <= b@.len(),
            count == mismatches(a@, b@, i as int),
            count <= i,
        decreases n - i,
    {
        if a[i] != b[i] {
            count += 1;
        }
        i += 1;
    }
    count <= 2
}

fn push_warning(ws: &mut Vec<ValidationWarning>, w: ValidationWarning)
    ensures
        warns_view(final(ws)@) == warns_view(old(ws)@).push(warn_view(w)),
{
    let ghost w0 = ws@;
    let ghost wv = warn_view(w);
    ws.push(w);
    assert(warns_view(ws@) =~= warns_view(w0).push(wv));
}

/// Warns of the defined names `name` may be a typo of.
fn push_typos(ws: &mut Vec<ValidationWarning>, reg: &Vec<(String, WAILField)>, name: &String, loc: &String)
    ensures
        warns_view(final(ws)@) == warns_view(old(ws)@) + typo_warnings(reg_view(reg@).map_values(|e: (Seq<char>, FieldV)| e.0), name@, loc@),
{
    let ghost keys = reg_view(reg@).map_values(|e: (Seq<char>, FieldV)| e.0);
    let mut i: usize = 0;
    proof {
        assert(keys.take(0) =~= Seq::<Seq<char>>::empty());
        assert(warns_view(ws@) =~= warns_view(old(ws)@) + Seq::<WarnV>::empty());
    }
    while i < reg.len()
        invariant
            i <= reg@.len(),
            keys == reg_view(reg@).map_values(|e: (Seq<char>, FieldV)| e.0),
            keys.len() == reg@.len(),
            warns_view(ws@) == warns_view(old(ws)@) + typo_warnings(keys.take(i as int), name@, loc@),
        decreases reg@.len() - i,
    {
        proof {
            assert(keys.take(i + 1).drop_last() =~= keys.take(i as int));
            assert(keys.take(i + 1).last() == keys[i as int]);
            assert(keys[i as int] == reg@[i as int].0@);
        }
        let ghost before = warns_view(ws@);
        if is_similar(&reg[i].0, name) {
            push_warning(
                ws,
                ValidationWarning::PossibleTypo { type_label: name.clone(), similar_to: reg[i].0.clone(), location: loc.clone() },
            );
        }
        proof {
            assert(warns_view(ws@) =~= warns_view(old(ws)@) + typo_warnings(keys.take(i + 1), name@, loc@));
        }
        i += 1;
    }
    assert(keys.take(i as int) =~= keys);
}

fn is_defined(reg: &Vec<(String, WAILField)>, name: &String) -> (r: bool)
    ensures
        r == (lookup_spec(reg_view(reg@), name@) is Ok),
{
    match lookup_symbol(reg, name) {
        Ok(_) => true,
        Err(_) => false,
    }
}

/// Reports `name` if it is neither built in nor defined.
fn check_name_exec(
    reg: &Vec<(String, WAILField)>,
    name: &String,
    tn: &String,
    is_ret: bool,
    loc: &String,
    ws: &mut Vec<ValidationWarning>,
    es: &mut Vec<ValidationError>,
)
    ensures
        ({
            let st = GSt { reg: reg_view(reg@), tpl: Seq::empty(), counter: 0, adhoc_ids: Seq::empty(), adhoc_refs: Seq::empty(), module: Seq::empty(), objs: Seq::empty(), main: false, main_vars: Seq::empty() };
            let (w, e) = check_name(st, name@, tn@, is_ret, loc@);
            &&& warns_view(final(ws)@) == warns_view(old(ws)@) + w
            &&& undefs_view(final(es)@) == undefs_view(old(es)@) + e
        }),
{
    if !str_is(name, "String") && !str_is(name, "Number") && !is_defined(reg, name) {
        let ghost e0 = es@;
        let item = ValidationError::UndefinedTypeInTemplate { template_name: tn.clone(), type_label: name.clone(), is_return_type: is_ret };
        let ghost iv = undef_view(item);
        es.push(item);
        assert(undefs_view(es@) =~= undefs_view(e0) + seq![iv]);
        push_typos(ws, reg, name, loc);
        proof {
            let st = GSt { reg: reg_view(reg@), tpl: Seq::empty(), counter: 0, adhoc_ids: Seq::empty(), adhoc_refs: Seq::empty(), module: Seq::empty(), objs: Seq::empty(), main: false, main_vars: Seq::empty() };
            assert(reg_keys(st) == reg_view(reg@).map_values(|e: (Seq<char>, FieldV)| e.0));
        }
    } else {
        assert(warns_view(ws@) =~= warns_view(old(ws)@) + Seq::<WarnV>::empty());
        assert(undefs_view(es@) =~= undefs_view(old(es)@) + Seq::<UndefV>::empty());
    }
}

/// The registry-only part of a state, which is all the checks read.
pub open spec fn reg_only(reg: Seq<(String, WAILField)>) -> GSt {
    GSt { reg: reg_view(reg), tpl: Seq::empty(), counter: 0, adhoc_ids: Seq::empty(), adhoc_refs: Seq::empty(), module: Seq::empty(), objs: Seq::empty(), main: false, main_vars: Seq::empty() }
}

proof fn lemma_check_reg(st: GSt, t: TyV, tn: Seq<char>, is_ret: bool)
    ensures
        check_type(st, t, tn, is_ret) == check_type(GSt { reg: st.reg, tpl: Seq::empty(), counter: 0, adhoc_ids: Seq::empty(), adhoc_refs: Seq::empty(), module: Seq::empty(), objs: Seq::empty(), main: false, main_vars: Seq::empty() }, t, tn, is_ret),
    decreases t,
{
    match t {
        TyV::Union(ms, _) => {
            lemma_check_members_reg(st, ms, tn, is_ret);
        },
        _ => {},
    }
}

proof fn lemma_check_members_reg(st: GSt, ms: Seq<FieldV>, tn: Seq<char>, is_ret: bool)
    ensures
        check_members(st, ms, tn, is_ret) == check_members(GSt { reg: st.reg, tpl: Seq::empty(), counter: 0, adhoc_ids: Seq::empty(), adhoc_refs: Seq::empty(), module: Seq::empty(), objs: Seq::empty(), main: false, main_vars: Seq::empty() }, ms, tn, is_ret),
    decreases ms,
{
    if ms.len() > 0 {
        lemma_check_members_reg(st, ms.drop_last(), tn, is_ret);
        lemma_check_reg(st, ms.last().ty, tn, is_ret);
    }
}

fn text_cat(a: &str, b: &String) -> (r: String)
    ensures
        r@ == a@ + b@,
{
    let mut r = text(a);
    push_str(&mut r, b.as_str());
    r
}

/// Reports the undefined types a template type names.
fn check_type_exec(
    reg: &Vec<(String, WAILField)>,
    t: &WAILType,
    tn: &String,
    is_ret: bool,
    ws: &mut Vec<ValidationWarning>,
    es: &mut Vec<ValidationError>,
)
    requires
        ok_ty(ty_view(*t)),
    ensures
        ({
            let (w, e) = check_type(reg_only(reg@), ty_view(*t), tn@, is_ret);
            &&& warns_view(final(ws)@) == warns_view(old(ws)@) + w
            &&& undefs_view(final(es)@) == undefs_view(old(es)@) + e
        }),
    decreases t,
{
    match t {
        WAILType::Composite(WAILCompositeType::Array(a)) => match &a.type_data.element_type {
            Some(e) => {
                proof {
                    assert(!(ty_view(**e) is Val));
                }
                let label = e.type_label();
                proof {
                    assert(label@ == label_of(ty_view(**e)));
                }
                let loc = text_cat("array element type in template ", tn);
                check_name_exec(reg, &label, tn, is_ret, &loc, ws, es);
            },
            None => {
                assert(warns_view(ws@) =~= warns_view(old(ws)@) + Seq::<WarnV>::empty());
                assert(undefs_view(es@) =~= undefs_view(old(es)@) + Seq::<UndefV>::empty());
            },
        },
        WAILType::Composite(WAILCompositeType::Union(u)) => {
            let ghost mv = fields_view(u.members@);
            proof {
                lemma_fields_view_len(u.members@);
                lemma_ok_members(mv);
                assert(mv.take(0) =~= Seq::<FieldV>::empty());
                assert(warns_view(ws@) =~= warns_view(old(ws)@) + Seq::<WarnV>::empty());
                assert(undefs_view(es@) =~= undefs_view(old(es)@) + Seq::<UndefV>::empty());
                assert forall|k: int| 0 <= k < u.members@.len() implies decreases_to!(*t => u.members@[k].field_type) by {
                    assert(decreases_to!(*t => u.members));
                    assert(decreases_to!(u.members => u.members@));
                    assert(decreases_to!(u.members@ => u.members@[k]));
                }
            }
            let mut i: usize = 0;
            while i < u.members.len()
                invariant
                    i <= u.members@.len(),
                    mv == fields_view(u.members@),
                    mv.len() == u.members@.len(),
                    forall|k: int| 0 <= k < u.members@.len() ==> #[trigger] mv[k] == field_view(u.members@[k]),
                    good_fields(mv),
                    forall|k: int| 0 <= k < u.members@.len() ==> decreases_to!(*t => u.members@[k].field_type),
                    ({
                        let (w, e) = check_members(reg_only(reg@), mv.take(i as int), tn@, is_ret);
                        &&& warns_view(ws@) == warns_view(old(ws)@) + w
                        &&& undefs_view(es@) == undefs_view(old(es)@) + e
                    }),
                decreases u.members@.len() - i,
            {
                proof {
                    assert(good_ty(mv[i as int].ty));
                    assert(mv.take(i + 1).drop_last() =~= mv.take(i as int));
                    assert(mv.take(i + 1).last() == mv[i as int]);
                }
                let ghost w0 = warns_view(ws@);
                let ghost e0 = undefs_view(es@);
                check_type_exec(reg, &u.members[i].field_type, tn, is_ret, ws, es);
                proof {
                    let (w1, e1) = check_members(reg_only(reg@), mv.take(i as int), tn@, is_ret);
                    let (w2, e2) = check_type(reg_only(reg@), mv[i as int].ty, tn@, is_ret);
                    assert(warns_view(ws@) =~= warns_view(old(ws)@) + (w1 + w2));
                    assert(undefs_view(es@) =~= undefs_view(old(es)@) + (e1 + e2));
                }
                i += 1;
            }
            assert(mv.take(i as int) =~= mv);
        },
        WAILType::Composite(WAILCompositeType::Object(o)) => {
            let loc = if is_ret {
                text_cat("return type in template ", tn)
            } else {
                text_cat("parameter type in template ", tn)
            };
            proof {
                assert(loc@ == (if is_ret {
                    "return"@
                } else {
                    "parameter"@
                }) + " type in template "@ + tn@) by {
                    reveal_strlit("return type in template ");
                    reveal_strlit("parameter type in template ");
                    reveal_strlit("return");
                    reveal_strlit("parameter");
                    reveal_strlit(" type in template ");
                }
            }
            check_name_exec(reg, &o.type_data.type_label, tn, is_ret, &loc, ws, es);
        },
        _ => {
            assert(warns_view(ws@) =~= warns_view(old(ws)@) + Seq::<WarnV>::empty());
            assert(undefs_view(es@) =~= undefs_view(old(es)@) + Seq::<UndefV>::empty());
        },
    }
}

impl WAILParser {
    /// Checks the templates: every type a parameter or return type names
    /// must be built in or defined; an undefined one is an error, and each
    /// defined name it may be a typo of is a warning. That no main block has
    /// been read is also a warning.
    pub fn validate(&self) -> (r: (Vec<ValidationWarning>, Vec<ValidationError>))
        requires
            defs_ok(self.state()),
        ensures
            (warns_view(r.0@), undefs_view(r.1@)) == validate_spec(self.state()),
    {
        let reg = &self.defs.registry;
        let tpl = &self.defs.template_registry;
        let ghost st = self.state();
        let ghost tv = tpl_view(tpl@);
        let mut ws: Vec<ValidationWarning> = Vec::new();
        let mut es: Vec<ValidationError> = Vec::new();
        if !self.defs.has_main {
            push_warning(&mut ws, ValidationWarning::NoMainBlock);
        }
        proof {
            assert(tv.take(0) =~= Seq::<(Seq<char>, TemplV)>::empty());
            assert(warns_view(ws@) =~= main_warning(st) + Seq::<WarnV>::empty());
            assert(undefs_view(es@) =~= Seq::<UndefV>::empty());
        }
        let mut j: usize = 0;
        while j < tpl.len()
            invariant
                j <= tpl@.len(),
                tv == tpl_view(tpl@),
                st == self.state(),
                defs_ok(st),
                st.tpl == tv,
                st.reg == reg_view(reg@),
                reg == &self.defs.registry,
                ({
                    let (w, e) = check_templates(st, tv.take(j as int));
                    &&& warns_view(ws@) == main_warning(st) + w
                    &&& undefs_view(es@) == e
                }),
            decreases tpl@.len() - j,
        {
            let t = &tpl[j];
            let ghost tn = t.0@;
            let ghost td = templ_view(t.1);
            proof {
                assert(tv[j as int] == (tn, td));
                assert(tpl_entry_ok(st.tpl[j as int].1));
                assert(tv.take(j + 1).drop_last() =~= tv.take(j as int));
                assert(tv.take(j + 1).last() == tv[j as int]);
                lemma_fields_view_len(t.1.inputs@);
            }
            let ghost w_before = warns_view(ws@);
            let ghost e_before = undefs_view(es@);
            let ghost iv = fields_view(t.1.inputs@);
            let mut i: usize = 0;
            proof {
                assert(iv.take(0) =~= Seq::<FieldV>::empty());
                assert(warns_view(ws@) =~= w_before + Seq::<WarnV>::empty());
                assert(undefs_view(es@) =~= e_before + Seq::<UndefV>::empty());
            }
            while i < t.1.inputs.len()
                invariant
                    i <= t.1.inputs@.len(),
                    iv == fields_view(t.1.inputs@),
                    iv.len() == t.1.inputs@.len(),
                    forall|k: int| 0 <= k < t.1.inputs@.len() ==> #[trigger] iv[k] == field_view(t.1.inputs@[k]),
                    good_fields(iv),
                    tn == t.0@,
                    st.reg == reg_view(reg@),
                    ({
                        let (w, e) = check_inputs(st, iv.take(i as int), tn);
                        &&& warns_view(ws@) == w_before + w
                        &&& undefs_view(es@) == e_before + e
                    }),
                decreases t.1.inputs@.len() - i,
            {
                proof {
                    assert(good_ty(iv[i as int].ty));
                    assert(iv.take(i + 1).drop_last() =~= iv.take(i as int));
                    assert(iv.take(i + 1).last() == iv[i as int]);
                    lemma_check_reg(st, iv[i as int].ty, tn, false);
                }
                check_type_exec(reg, &t.1.inputs[i].field_type, &t.0, false, &mut ws, &mut es);
                proof {
                    let (w1, e1) = check_inputs(st, iv.take(i as int), tn);
                    let (w2, e2) = check_type(st, iv[i as int].ty, tn, false);
                    assert(warns_view(ws@) =~= w_before + (w1 + w2));
                    assert(undefs_view(es@) =~= e_before + (e1 + e2));
                }
                i += 1;
            }
            proof {
                assert(iv.take(i as int) =~= iv);
                assert(iv == td.inputs);
                assert(good_ty(td.output.ty));
                lemma_check_reg(st, td.output.ty, tn, true);
            }
            check_type_exec(reg, &t.1.output.field_type, &t.0, true, &mut ws, &mut es);
            proof {
                let (w0, e0) = check_templates(st, tv.take(j as int));
                let (w2, e2) = check_inputs(st, td.inputs, tn);
                let (w3, e3) = check_type(st, td.output.ty, tn, true);
                assert(warns_view(ws@) =~= main_warning(st) + (w0 + w2 + w3));
                assert(undefs_view(es@) =~= e0 + e2 + e3);
            }
            j += 1;
        }
        proof {
            assert(tv.take(j as int) =~= tv);
        }
        (ws, es)
    }
}

} // verus!
