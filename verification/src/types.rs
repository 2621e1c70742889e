//! The WAIL type model: the types a schema declares, how they render as a
//! prompt schema, and how a parsed JSON value is checked against them.
use crate::json_parser::{err_view, ErrV};
use crate::json_types::{
    clone_value, insert_entry, key_pos, obj_insert, lemma_view_entries_len, lemma_view_values_push, lemma_view_values_len, obj_get, view_entries, view_values, JVal,
    JsonError, JsonValue, Number,
};
use crate::text::{int_text, nat_text, push_i64, push_str, push_u64, string_push};
use vstd::prelude::*;
use vstd::string::StringExecFns;

verus! {

/// A note attached to a field, a type or a template.
#[derive(Debug, PartialEq)]
pub enum WAILAnnotation {
    /// detailed explanation of purpose or meaning
    Description(String),
    /// concrete examples of valid values
    Example(String),
    /// rules about what makes a valid value
    Validation(String),
    /// expected text format or structure
    Format(String),
    /// something the model should pay special attention to
    Important(String),
    /// where or how this is used
    Context(String),
    /// fallback value when none is given
    Default(String),
    /// annotations of one field of an object
    Field { name: String, annotations: Vec<WAILAnnotation> },
}

/// A named, typed member of an object, union or template signature.
#[derive(Debug, PartialEq)]
pub struct WAILField {
    pub name: String,
    pub field_type: WAILType,
    pub annotations: Vec<WAILAnnotation>,
}

/// Why a JSON value does not fit a WAIL type.
#[derive(Debug)]
pub enum JsonValidationError {
    ObjectMissingAllFields,
    ObjectMissingMetaType,
    ObjectMissingRequiredField(String),
    ObjectNestedTypeValidation((String, Box<JsonValidationError>)),
    ArrayElementTypeError((usize, Box<JsonValidationError>)),
    NotMemberOfUnion((String, Vec<(String, Box<JsonValidationError>)>)),
    ExpectedTypeError((Option<String>, String)),
    TemplateNotFound(String),
    MissingTemplateResponse(String),
    ExpectedObject(),
    JsonParserError(JsonError),
}

/// Where in a value a validation error was found.
#[derive(Debug)]
pub enum PathSegment {
    Root((String, Option<String>)),
    Field(String),
    ArrayIndex(usize),
    UnionType(String, Vec<(String, Box<JsonValidationError>)>),
    MissingMetaType,
    ExpectedType(Option<String>, String),
}

/// A literal written in a schema; a float keeps its decimal text.
#[derive(Debug, Clone, PartialEq)]
pub enum WAILValue {
    String(String),
    Number(i64),
    Float(String),
    /// a reference to a type such as `String` or `Number`
    TypeRef(String),
}

#[derive(Debug, PartialEq)]
pub enum WAILSimpleType {
    String(WAILString),
    Boolean(WAILBoolean),
    Number(WAILNumber),
}

#[derive(Debug, PartialEq)]
pub enum WAILCompositeType {
    Object(WAILObject),
    Array(WAILArray),
    Union(WAILUnion),
}

#[derive(Debug, PartialEq)]
pub struct WAILUnion {
    pub members: Vec<WAILField>,
    pub type_data: WAILTypeData,
}

#[derive(Debug, PartialEq)]
pub struct WAILArray {
    pub values: Vec<WAILType>,
    pub type_data: WAILTypeData,
}

#[derive(Debug, PartialEq)]
pub enum WAILType {
    Simple(WAILSimpleType),
    Composite(WAILCompositeType),
    /// a literal value
    Value(WAILValue),
}

#[derive(Debug, PartialEq)]
pub struct WAILTypeData {
    pub json_type: JsonValue,
    pub type_label: String,
    pub field_definitions: Option<Vec<WAILField>>,
    pub element_type: Option<Box<WAILType>>,
}

#[derive(Debug, PartialEq)]
pub struct WAILInteger {
    pub value: u64,
    pub type_data: WAILTypeData,
}

/// A float type; `value` is the decimal text of the number.
#[derive(Debug, PartialEq)]
pub struct WAILFloat {
    pub value: String,
    pub type_data: WAILTypeData,
}

#[derive(Debug, PartialEq)]
pub enum WAILNumber {
    Integer(WAILInteger),
    Float(WAILFloat),
}

/// An object type; `value` maps member names to member types, without repeats.
#[derive(Debug, PartialEq)]
pub struct WAILObject {
    pub value: Vec<(WAILString, WAILType)>,
    pub type_data: WAILTypeData,
}

#[derive(Debug, PartialEq)]
pub struct WAILString {
    pub value: String,
    pub type_data: WAILTypeData,
}

#[derive(Debug, PartialEq)]
pub struct WAILBoolean {
    pub value: String,
    pub type_data: WAILTypeData,
}

pub fn string_type() -> (r: String)
    ensures
        r@ == "String"@,
{
    String::from_str("String")
}

pub fn number_type() -> (r: String)
    ensures
        r@ == "Number"@,
{
    String::from_str("Number")
}

pub fn object_type() -> (r: String)
    ensures
        r@ == "Object"@,
{
    String::from_str("Object")
}

pub fn array_type() -> (r: String)
    ensures
        r@ == "Array"@,
{
    String::from_str("Array")
}

pub fn tool_type() -> (r: String)
    ensures
        r@ == "Tool"@,
{
    String::from_str("Tool")
}

// ───────────────────────── text of annotations ─────────────────────────

/// The uppercase mapping of a character (`char::to_uppercase`), one or more characters.
pub uninterp spec fn upper_of(c: char) -> Seq<char>;

/// `char::to_uppercase`, collected into a `String`.
/// Trusted: std documents the Unicode uppercase mapping, which for the ASCII
/// letters `a`..=`z` is the single letter 32 code points lower.
#[verifier::external_body]
fn char_to_upper(c: char) -> (r: String)
    ensures
        r@ == upper_of(c),
        'a' <= c <= 'z' ==> r@ == seq![((c as u32) - 32) as char],
        (c as u32) < 128 && !('a' <= c <= 'z') ==> r@ == seq![c],
{
    c.to_uppercase().collect::<String>()
}

/// The uppercase mapping of a character: for an ASCII character its ASCII
/// uppercase letter (or itself), else [`upper_of`].
pub open spec fn upper_text(c: char) -> Seq<char> {
    if 'a' <= c <= 'z' {
        seq![((c as u32) - 32) as char]
    } else if (c as u32) < 128 {
        seq![c]
    } else {
        upper_of(c)
    }
}

/// `s` with its first character in uppercase.
pub open spec fn capitalize_spec(s: Seq<char>) -> Seq<char> {
    if s.len() == 0 {
        Seq::empty()
    } else {
        upper_text(s[0]) + s.drop_first()
    }
}

pub fn capitalize(s: &str) -> (r: String)
    ensures
        r@ == capitalize_spec(s@),
{
    let cs = crate::text::chars_of(s);
    if cs.len() == 0 {
        return String::new();
    }
    let mut out = char_to_upper(cs[0]);
    let mut i: usize = 1;
    while i < cs.len()
        invariant
            1 <= i <= cs@.len(),
            cs@ == s@,
            out@ == upper_text(cs@[0]) + cs@.subrange(1, i as int),
        decreases cs@.len() - i,
    {
        string_push(&mut out, cs[i]);
        i += 1;
        assert(out@ =~= upper_text(cs@[0]) + cs@.subrange(1, i as int));
    }
    assert(cs@.subrange(1, i as int) =~= s@.drop_first());
    out
}

/// How an annotation reads in a schema.
pub open spec fn annotation_text(a: WAILAnnotation) -> Seq<char>
    decreases a,
{
    match a {
        WAILAnnotation::Description(d) => "Description: "@ + d@,
        WAILAnnotation::Example(d) => "Example: "@ + d@,
        WAILAnnotation::Validation(d) => "Validation: "@ + d@,
        WAILAnnotation::Format(d) => "Format: "@ + d@,
        WAILAnnotation::Important(d) => "Important: "@ + d@,
        WAILAnnotation::Context(d) => "Context: "@ + d@,
        WAILAnnotation::Default(d) => "Default: "@ + d@,
        WAILAnnotation::Field { name, annotations } => "Field: "@ + name@ + "\n"@ + nested_lines(annotations@),
    }
}

/// Each annotation on a line of its own, indented by two spaces.
pub open spec fn nested_lines(s: Seq<WAILAnnotation>) -> Seq<char>
    decreases s,
{
    if s.len() == 0 {
        Seq::empty()
    } else {
        nested_lines(s.drop_last()) + "  "@ + annotation_text(s.last()) + "\n"@
    }
}

/// The texts of `s` joined by `sep`.
pub open spec fn join_annotations(s: Seq<WAILAnnotation>, sep: Seq<char>) -> Seq<char>
    decreases s.len(),
{
    if s.len() == 0 {
        Seq::empty()
    } else if s.len() == 1 {
        annotation_text(s[0])
    } else {
        join_annotations(s.drop_last(), sep) + sep + annotation_text(s.last())
    }
}

/// `format_annoations`: nothing for no annotations, else ` # ` and the texts joined by `\n# `.
pub open spec fn format_annotations_spec(s: Seq<WAILAnnotation>) -> Seq<char> {
    if s.len() == 0 {
        Seq::empty()
    } else {
        " # "@ + join_annotations(s, "\n# "@)
    }
}

impl WAILAnnotation {
    /// The annotation as text (its `Display` form).
    pub fn to_string(&self) -> (r: String)
        ensures
            r@ == annotation_text(*self),
        decreases self,
    {
        let mut out = String::new();
        match self {
            WAILAnnotation::Description(d) => {
                push_str(&mut out, "Description: ");
                push_str(&mut out, d.as_str());
            },
            WAILAnnotation::Example(d) => {
                push_str(&mut out, "Example: ");
                push_str(&mut out, d.as_str());
            },
            WAILAnnotation::Validation(d) => {
                push_str(&mut out, "Validation: ");
                push_str(&mut out, d.as_str());
            },
            WAILAnnotation::Format(d) => {
                push_str(&mut out, "Format: ");
                push_str(&mut out, d.as_str());
            },
            WAILAnnotation::Important(d) => {
                push_str(&mut out, "Important: ");
                push_str(&mut out, d.as_str());
            },
            WAILAnnotation::Context(d) => {
                push_str(&mut out, "Context: ");
                push_str(&mut out, d.as_str());
            },
            WAILAnnotation::Default(d) => {
                push_str(&mut out, "Default: ");
                push_str(&mut out, d.as_str());
            },
            WAILAnnotation::Field { name, annotations } => {
                push_str(&mut out, "Field: ");
                push_str(&mut out, name.as_str());
                push_str(&mut out, "\n");
                let ghost head = out@;
                proof {
                    assert forall|j: int| 0 <= j < annotations@.len() implies decreases_to!(*self => annotations@[j]) by {
                        assert(decreases_to!(*self => *annotations));
                        assert(decreases_to!(*annotations => annotations@));
                        assert(decreases_to!(annotations@ => annotations@[j]));
                    }
                }
                let mut i: usize = 0;
                while i < annotations.len()
                    invariant
                        i <= annotations@.len(),
                        forall|j: int| 0 <= j < annotations@.len() ==> decreases_to!(*self => annotations@[j]),
                        out@ == head + nested_lines(annotations@.take(i as int)),
                    decreases annotations@.len() - i,
                {
                    push_str(&mut out, "  ");
                    assert(decreases_to!(*self => annotations@[i as int]));
                    let t = annotations[i].to_string();
                    push_str(&mut out, t.as_str());
                    push_str(&mut out, "\n");
                    proof {
                        let p = annotations@.take(i + 1);
                        assert(p.drop_last() =~= annotations@.take(i as int));
                        assert(p.last() == annotations@[i as int]);
                    }
                    i += 1;
                    assert(out@ =~= head + nested_lines(annotations@.take(i as int)));
                }
                assert(annotations@.take(i as int) =~= annotations@);
            },
        }
        out
    }
}

pub fn format_annoations(annotations: Vec<WAILAnnotation>) -> (r: String)
    ensures
        r@ == format_annotations_spec(annotations@),
{
    format_annotations_ref(annotations.as_slice())
}

fn format_annotations_ref(annotations: &[WAILAnnotation]) -> (r: String)
    ensures
        r@ == format_annotations_spec(annotations@),
{
    if annotations.len() == 0 {
        return String::new();
    }
    let mut out = String::new();
    push_str(&mut out, " # ");
    let t0 = annotations[0].to_string();
    push_str(&mut out, t0.as_str());
    let mut i: usize = 1;
    while i < annotations.len()
        invariant
            1 <= i <= annotations@.len(),
            out@ == " # "@ + join_annotations(annotations@.take(i as int), "\n# "@),
        decreases annotations@.len() - i,
    {
        push_str(&mut out, "\n# ");
        let t = annotations[i].to_string();
        push_str(&mut out, t.as_str());
        proof {
            let p = annotations@.take(i + 1);
            assert(p.drop_last() =~= annotations@.take(i as int));
        }
        i += 1;
        assert(out@ =~= " # "@ + join_annotations(annotations@.take(i as int), "\n# "@));
    }
    assert(annotations@.take(i as int) =~= annotations@);
    out
}


// ───────────────────────── schema text ─────────────────────────

/// The type data of a type; literal values have none.
pub open spec fn type_data_of(t: WAILType) -> Option<WAILTypeData> {
    match t {
        WAILType::Simple(WAILSimpleType::String(x)) => Some(x.type_data),
        WAILType::Simple(WAILSimpleType::Number(WAILNumber::Integer(x))) => Some(x.type_data),
        WAILType::Simple(WAILSimpleType::Number(WAILNumber::Float(x))) => Some(x.type_data),
        WAILType::Simple(WAILSimpleType::Boolean(x)) => Some(x.type_data),
        WAILType::Composite(WAILCompositeType::Object(x)) => Some(x.type_data),
        WAILType::Composite(WAILCompositeType::Array(x)) => Some(x.type_data),
        WAILType::Composite(WAILCompositeType::Union(x)) => Some(x.type_data),
        WAILType::Value(_) => None,
    }
}

/// The schema text of a type, or `None` where rendering it panics (the type
/// data of a literal value is asked for, or an array has no element type).
pub open spec fn schema_spec(t: WAILType) -> Option<Seq<char>>
    decreases t,
{
    match t {
        WAILType::Simple(WAILSimpleType::String(x)) => Some(
            match x.type_data.json_type {
                JsonValue::String(v) => if v@ == "_type"@ {
                    x.value@
                } else {
                    "string"@
                },
                _ => "string"@,
            },
        ),
        WAILType::Simple(WAILSimpleType::Number(_)) => Some("number"@),
        WAILType::Simple(WAILSimpleType::Boolean(_)) => Some("boolean"@),
        WAILType::Composite(WAILCompositeType::Object(o)) => match o.type_data.field_definitions {
            Some(fs) => match fields_schema(fs@) {
                Some(body) => Some("\n{\n"@ + body + "}"@),
                None => None,
            },
            None => Some("\n{\n"@ + "}"@),
        },
        WAILType::Composite(WAILCompositeType::Array(a)) => match a.type_data.element_type {
            Some(et) => match schema_spec(*et) {
                Some(e) => Some("An array of: "@ + e),
                None => None,
            },
            None => None,
        },
        WAILType::Composite(WAILCompositeType::Union(u)) => match union_schema(u.members@) {
            Some(body) => Some("\nAny of these JSON-like formats:\n\n"@ + body),
            None => None,
        },
        WAILType::Value(WAILValue::String(v)) => Some("\""@ + v@ + "\""@),
        WAILType::Value(WAILValue::Number(n)) => Some(int_text(n as int)),
        WAILType::Value(WAILValue::Float(v)) => Some(v@),
        WAILType::Value(WAILValue::TypeRef(v)) => Some(v@),
    }
}

/// One line per field: `  name: Elem[]` for a field whose type has an element
/// type, else `  name: Capitalized`, then the field's annotations.
pub open spec fn fields_schema(fs: Seq<WAILField>) -> Option<Seq<char>>
    decreases fs,
{
    if fs.len() == 0 {
        Some(Seq::empty())
    } else {
        let line = field_line_of(fs.last());
        match (fields_schema(fs.drop_last()), line) {
            (Some(a), Some(b)) => Some(a + b),
            _ => None,
        }
    }
}

/// The schema line of one field (see [`fields_schema`]).
pub open spec fn field_line_of(f: WAILField) -> Option<Seq<char>>
    decreases f,
{
    match f.field_type {
        WAILType::Value(_) => None,
        WAILType::Simple(WAILSimpleType::String(x)) => match x.type_data.element_type {
            Some(et) => field_line(f, true, schema_spec(*et)),
            None => field_line(f, false, schema_spec(f.field_type)),
        },
        WAILType::Simple(WAILSimpleType::Number(WAILNumber::Integer(x))) => match x.type_data.element_type {
            Some(et) => field_line(f, true, schema_spec(*et)),
            None => field_line(f, false, schema_spec(f.field_type)),
        },
        WAILType::Simple(WAILSimpleType::Number(WAILNumber::Float(x))) => match x.type_data.element_type {
            Some(et) => field_line(f, true, schema_spec(*et)),
            None => field_line(f, false, schema_spec(f.field_type)),
        },
        WAILType::Simple(WAILSimpleType::Boolean(x)) => match x.type_data.element_type {
            Some(et) => field_line(f, true, schema_spec(*et)),
            None => field_line(f, false, schema_spec(f.field_type)),
        },
        WAILType::Composite(WAILCompositeType::Object(x)) => match x.type_data.element_type {
            Some(et) => field_line(f, true, schema_spec(*et)),
            None => field_line(f, false, schema_spec(f.field_type)),
        },
        WAILType::Composite(WAILCompositeType::Array(x)) => match x.type_data.element_type {
            Some(et) => field_line(f, true, schema_spec(*et)),
            None => field_line(f, false, schema_spec(f.field_type)),
        },
        WAILType::Composite(WAILCompositeType::Union(x)) => match x.type_data.element_type {
            Some(et) => field_line(f, true, schema_spec(*et)),
            None => field_line(f, false, schema_spec(f.field_type)),
        },
    }
}

/// The line of field `f`; `shown` is the schema of its element type when it
/// has one, else of its own type.
pub open spec fn field_line(f: WAILField, has_elem: bool, shown: Option<Seq<char>>) -> Option<Seq<char>> {
    match shown {
        None => None,
        Some(text) => Some(
            "  "@ + f.name@ + ": "@ + (if has_elem {
                text + "[]"@
            } else {
                capitalize_spec(text)
            }) + format_annotations_spec(f.annotations@) + "\n"@,
        ),
    }
}

/// How one union member is shown after `Format k: `.
pub open spec fn member_shown(m: WAILField) -> Option<Seq<char>>
    decreases m,
{
    match m.field_type {
        WAILType::Simple(_) => schema_spec(m.field_type),
        WAILType::Value(_) => None,
        _ => match (type_data_of(m.field_type), schema_spec(m.field_type)) {
            (Some(td), Some(text)) => Some(td.type_label@ + ": "@ + text),
            _ => None,
        },
    }
}

/// The alternatives of a union: `Format k: ` and the member's schema, a
/// composite member preceded by its type name; `-- OR --` between them.
pub open spec fn union_schema(ms: Seq<WAILField>) -> Option<Seq<char>>
    decreases ms,
{
    if ms.len() == 0 {
        Some(Seq::empty())
    } else {
        let m = ms.last();
        let sep: Seq<char> = if ms.len() > 1 {
            "\n\n-- OR --\n\n"@
        } else {
            Seq::empty()
        };
        let shown = member_shown(m);
        match (union_schema(ms.drop_last()), shown) {
            (Some(a), Some(b)) => Some(a + sep + "Format "@ + int_text(ms.len() as int) + ": "@ + b),
            _ => None,
        }
    }
}


proof fn lemma_elem_decreases(t: WAILType)
    ensures
        type_data_of(t) matches Some(td) ==> (td.element_type matches Some(et) ==> decreases_to!(t => *et)),
{
}

proof fn lemma_fields_prefix(fs: Seq<WAILField>, i: int)
    requires
        0 <= i <= fs.len(),
        fields_schema(fs) is Some,
    ensures
        fields_schema(fs.take(i)) is Some,
    decreases fs.len() - i,
{
    if i == fs.len() {
        assert(fs.take(i) =~= fs);
    } else {
        lemma_fields_prefix(fs, i + 1);
        assert(fs.take(i + 1).drop_last() =~= fs.take(i));
    }
}

proof fn lemma_union_prefix(ms: Seq<WAILField>, i: int)
    requires
        0 <= i <= ms.len(),
        union_schema(ms) is Some,
    ensures
        union_schema(ms.take(i)) is Some,
    decreases ms.len() - i,
{
    if i == ms.len() {
        assert(ms.take(i) =~= ms);
    } else {
        lemma_union_prefix(ms, i + 1);
        assert(ms.take(i + 1).drop_last() =~= ms.take(i));
    }
}

fn str_is(s: &String, lit: &str) -> (r: bool)
    ensures
        r == (s@ == lit@),
{
    let t = String::from_str(lit);
    *s == t
}

impl WAILType {
    /// The type data of a type (literal values have none).
    pub fn type_data(&self) -> (r: &WAILTypeData)
        requires
            !(*self is Value),
        ensures
            type_data_of(*self) == Some(*r),
    {
        match self {
            WAILType::Simple(WAILSimpleType::String(x)) => &x.type_data,
            WAILType::Simple(WAILSimpleType::Number(WAILNumber::Integer(x))) => &x.type_data,
            WAILType::Simple(WAILSimpleType::Number(WAILNumber::Float(x))) => &x.type_data,
            WAILType::Simple(WAILSimpleType::Boolean(x)) => &x.type_data,
            WAILType::Composite(WAILCompositeType::Object(x)) => &x.type_data,
            WAILType::Composite(WAILCompositeType::Array(x)) => &x.type_data,
            WAILType::Composite(WAILCompositeType::Union(x)) => &x.type_data,
            WAILType::Value(_) => vstd::pervasive::unreached(),
        }
    }

    pub fn is_object_ref(&self) -> (r: bool)
        ensures
            r == (*self matches WAILType::Composite(WAILCompositeType::Object(_))),
    {
        match self {
            WAILType::Composite(WAILCompositeType::Object(_)) => true,
            _ => false,
        }
    }

    /// The name recorded in the type data.
    pub fn type_label(&self) -> (r: String)
        requires
            !(*self is Value),
        ensures
            r@ == type_data_of(*self)->Some_0.type_label@,
    {
        self.type_data().type_label.clone()
    }

    /// A copy of the field definitions recorded in the type data.
    pub fn field_definitions(&self) -> (r: Option<Vec<WAILField>>)
        requires
            !(*self is Value),
        ensures
            match type_data_of(*self)->Some_0.field_definitions {
                Some(fs) => r matches Some(v) && crate::wail_grammar::fields_view(v@) == crate::wail_grammar::fields_view(fs@),
                None => r is None,
            },
    {
        match &self.type_data().field_definitions {
            Some(fs) => Some(crate::wail_grammar::clone_fields(fs)),
            None => None,
        }
    }

    /// A copy of the element type recorded in the type data.
    pub fn element_type(&self) -> (r: Option<Box<WAILType>>)
        requires
            !(*self is Value),
        ensures
            match type_data_of(*self)->Some_0.element_type {
                Some(e) => r matches Some(b) && crate::wail_grammar::ty_view(*b) == crate::wail_grammar::ty_view(*e),
                None => r is None,
            },
    {
        match &self.type_data().element_type {
            Some(e) => Some(Box::new(crate::wail_grammar::clone_type(e))),
            None => None,
        }
    }

    /// The schema of this type as shown to a model.
    pub fn to_schema(&self) -> (r: String)
        requires
            schema_spec(*self) is Some,
        ensures
            r@ == schema_spec(*self)->Some_0,
        decreases self, 0int,
    {
        let mut out = String::new();
        match self {
            WAILType::Simple(WAILSimpleType::String(x)) => {
                let special = match &x.type_data.json_type {
                    JsonValue::String(v) => str_is(v, "_type"),
                    _ => false,
                };
                if special {
                    push_str(&mut out, x.value.as_str());
                } else {
                    push_str(&mut out, "string");
                }
            },
            WAILType::Simple(WAILSimpleType::Number(_)) => {
                push_str(&mut out, "number");
            },
            WAILType::Simple(WAILSimpleType::Boolean(_)) => {
                push_str(&mut out, "boolean");
            },
            WAILType::Composite(WAILCompositeType::Object(o)) => {
                push_str(&mut out, "\n{\n");
                match &o.type_data.field_definitions {
                    Some(fs) => {
                        let ghost head = out@;
                        proof {
                            lemma_fields_prefix(fs@, 0);
                            assert(fs@.take(0) =~= Seq::<WAILField>::empty());
                            assert forall|j: int| 0 <= j < fs@.len() implies decreases_to!(*self => fs@[j].field_type) by {
                                assert(decreases_to!(*self => *fs));
                                assert(decreases_to!(*fs => fs@));
                                assert(decreases_to!(fs@ => fs@[j]));
                            }
                        }
                        let mut i: usize = 0;
                        while i < fs.len()
                            invariant
                                i <= fs@.len(),
                                fields_schema(fs@) is Some,
                                out@ == head + fields_schema(fs@.take(i as int))->Some_0,
                                forall|j: int| 0 <= j < fs@.len() ==> decreases_to!(*self => fs@[j].field_type),
                            decreases fs@.len() - i,
                        {
                            proof {
                                lemma_fields_prefix(fs@, i + 1);
                                assert(fs@.take(i + 1).drop_last() =~= fs@.take(i as int));
                                assert(fs@.take(i + 1).last() == fs@[i as int]);
                            }
                            let line = fs[i].schema_line();
                            push_str(&mut out, line.as_str());
                            i += 1;
                            assert(out@ =~= head + fields_schema(fs@.take(i as int))->Some_0);
                        }
                        assert(fs@.take(i as int) =~= fs@);
                    },
                    None => {},
                }
                push_str(&mut out, "}");
            },
            WAILType::Composite(WAILCompositeType::Array(a)) => {
                push_str(&mut out, "An array of: ");
                match &a.type_data.element_type {
                    Some(et) => {
                        let t = et.to_schema();
                        push_str(&mut out, t.as_str());
                    },
                    None => {},
                }
            },
            WAILType::Composite(WAILCompositeType::Union(u)) => {
                push_str(&mut out, "\nAny of these JSON-like formats:\n\n");
                let ms = &u.members;
                let ghost head = out@;
                proof {
                    lemma_union_prefix(ms@, 0);
                    assert(ms@.take(0) =~= Seq::<WAILField>::empty());
                    assert forall|j: int| 0 <= j < ms@.len() implies decreases_to!(*self => ms@[j].field_type) by {
                        assert(decreases_to!(*self => *ms));
                        assert(decreases_to!(*ms => ms@));
                        assert(decreases_to!(ms@ => ms@[j]));
                    }
                }
                let mut i: usize = 0;
                while i < ms.len()
                    invariant
                        i <= ms@.len(),
                        union_schema(ms@) is Some,
                        out@ == head + union_schema(ms@.take(i as int))->Some_0,
                        forall|j: int| 0 <= j < ms@.len() ==> decreases_to!(*self => ms@[j].field_type),
                    decreases ms@.len() - i,
                {
                    proof {
                        lemma_union_prefix(ms@, i + 1);
                        assert(ms@.take(i + 1).drop_last() =~= ms@.take(i as int));
                        assert(ms@.take(i + 1).last() == ms@[i as int]);
                    }
                    if i > 0 {
                        push_str(&mut out, "\n\n-- OR --\n\n");
                    }
                    push_str(&mut out, "Format ");
                    push_u64(&mut out, (i + 1) as u64);
                    push_str(&mut out, ": ");
                    let t = ms[i].member_text();
                    push_str(&mut out, t.as_str());
                    i += 1;
                    assert(out@ =~= head + union_schema(ms@.take(i as int))->Some_0);
                }
                assert(ms@.take(i as int) =~= ms@);
            },
            WAILType::Value(WAILValue::String(v)) => {
                push_str(&mut out, "\"");
                push_str(&mut out, v.as_str());
                push_str(&mut out, "\"");
            },
            WAILType::Value(WAILValue::Number(n)) => {
                push_i64(&mut out, *n);
            },
            WAILType::Value(WAILValue::Float(v)) => {
                push_str(&mut out, v.as_str());
            },
            WAILType::Value(WAILValue::TypeRef(v)) => {
                push_str(&mut out, v.as_str());
            },
        }
        out
    }
}


impl WAILField {
    /// How this member of a union is shown (see [`member_shown`]).
    fn member_text(&self) -> (r: String)
        requires
            member_shown(*self) is Some,
        ensures
            r@ == member_shown(*self)->Some_0,
        decreases self.field_type, 1int,
    {
        let ft = &self.field_type;
        let mut out = String::new();
        match ft {
            WAILType::Simple(_) => {
                let t = ft.to_schema();
                push_str(&mut out, t.as_str());
            },
            _ => {
                let td = ft.type_data();
                push_str(&mut out, td.type_label.as_str());
                push_str(&mut out, ": ");
                let t = ft.to_schema();
                push_str(&mut out, t.as_str());
            },
        }
        out
    }

    /// This field's line in its object's schema.
    fn schema_line(&self) -> (r: String)
        requires
            field_line_of(*self) is Some,
        ensures
            r@ == field_line_of(*self)->Some_0,
        decreases self.field_type, 1int,
    {
        let ft = &self.field_type;
        let mut out = String::new();
        push_str(&mut out, "  ");
        push_str(&mut out, self.name.as_str());
        push_str(&mut out, ": ");
        let td = ft.type_data();
        proof {
            lemma_elem_decreases(*ft);
        }
        match &td.element_type {
            Some(et) => {
                let t = et.to_schema();
                push_str(&mut out, t.as_str());
                push_str(&mut out, "[]");
            },
            None => {
                let t = ft.to_schema();
                let c = capitalize(t.as_str());
                push_str(&mut out, c.as_str());
            },
        }
        let annots = format_annotations_ref(self.annotations.as_slice());
        push_str(&mut out, annots.as_str());
        push_str(&mut out, "\n");
        out
    }
}


// ───────────────────────── validation ─────────────────────────

/// Mathematical value of a [`JsonValidationError`].
pub enum VErr {
    ObjectMissingAllFields,
    ObjectMissingMetaType,
    ObjectMissingRequiredField(Seq<char>),
    ObjectNestedTypeValidation(Seq<char>, Box<VErr>),
    ArrayElementTypeError(int, Box<VErr>),
    NotMemberOfUnion(Seq<char>, Seq<(Seq<char>, VErr)>),
    ExpectedTypeError(Option<Seq<char>>, Seq<char>),
    TemplateNotFound(Seq<char>),
    MissingTemplateResponse(Seq<char>),
    ExpectedObject,
    JsonParserError(ErrV),
}

pub open spec fn verr_view(e: JsonValidationError) -> VErr
    decreases e,
{
    match e {
        JsonValidationError::ObjectMissingAllFields => VErr::ObjectMissingAllFields,
        JsonValidationError::ObjectMissingMetaType => VErr::ObjectMissingMetaType,
        JsonValidationError::ObjectMissingRequiredField(n) => VErr::ObjectMissingRequiredField(n@),
        JsonValidationError::ObjectNestedTypeValidation((n, b)) => VErr::ObjectNestedTypeValidation(
            n@,
            Box::new(verr_view(*b)),
        ),
        JsonValidationError::ArrayElementTypeError((i, b)) => VErr::ArrayElementTypeError(i as int, Box::new(verr_view(*b))),
        JsonValidationError::NotMemberOfUnion((n, es)) => VErr::NotMemberOfUnion(n@, verr_list_view(es@)),
        JsonValidationError::ExpectedTypeError((o, n)) => VErr::ExpectedTypeError(
            match o {
                Some(x) => Some(x@),
                None => None,
            },
            n@,
        ),
        JsonValidationError::TemplateNotFound(n) => VErr::TemplateNotFound(n@),
        JsonValidationError::MissingTemplateResponse(n) => VErr::MissingTemplateResponse(n@),
        JsonValidationError::ExpectedObject() => VErr::ExpectedObject,
        JsonValidationError::JsonParserError(j) => VErr::JsonParserError(err_view(j)),
    }
}

pub open spec fn verr_list_view(s: Seq<(String, Box<JsonValidationError>)>) -> Seq<(Seq<char>, VErr)>
    decreases s,
{
    if s.len() == 0 {
        Seq::empty()
    } else {
        verr_list_view(s.drop_last()).push((s.last().0@, verr_view(*s.last().1)))
    }
}

/// The error for a value of the wrong kind.
pub open spec fn mismatch(t: WAILType) -> VErr {
    VErr::ExpectedTypeError(
        None,
        match t {
            WAILType::Simple(WAILSimpleType::String(_)) => "String"@,
            WAILType::Simple(WAILSimpleType::Number(_)) => "Number"@,
            WAILType::Composite(WAILCompositeType::Object(_)) => "Object"@,
            WAILType::Composite(WAILCompositeType::Array(_)) => "Array"@,
            WAILType::Simple(WAILSimpleType::Boolean(_)) => "Boolean"@,
            _ => "String"@,
        },
    )
}

/// Checking `j` against `t`: `Some(Ok)` when it fits, `Some(Err(e))` with the
/// first problem found, `None` where the check panics (the type name of a
/// literal-valued union member is asked for).
pub open spec fn validate_spec(t: WAILType, j: JVal) -> Option<Result<(), VErr>>
    decreases t, 0int,
{
    match t {
        WAILType::Composite(WAILCompositeType::Object(obj)) => match j {
            JVal::Object(m) => match obj.type_data.field_definitions {
                None => Some(Err(VErr::ObjectMissingAllFields)),
                Some(fs) => validate_fields(fs@, m),
            },
            _ => Some(Err(mismatch(t))),
        },
        WAILType::Composite(WAILCompositeType::Array(arr)) => match j {
            JVal::Array(vs) => match arr.type_data.element_type {
                None => Some(Ok(())),
                Some(et) => validate_elems(*et, vs),
            },
            _ => Some(Err(mismatch(t))),
        },
        WAILType::Composite(WAILCompositeType::Union(u)) => match union_scan(u.members@, j) {
            None => None,
            Some((true, _)) => Some(Ok(())),
            Some((false, errs)) => if u.members@.len() == 0 {
                Some(Ok(()))
            } else {
                Some(Err(VErr::NotMemberOfUnion(join_labels(u.members@), errs)))
            },
        },
        WAILType::Simple(WAILSimpleType::String(_)) => if j is Str {
            Some(Ok(()))
        } else {
            Some(Err(mismatch(t)))
        },
        WAILType::Simple(WAILSimpleType::Number(n)) => match j {
            JVal::Int(_) => if n is Float {
                Some(Err(VErr::ExpectedTypeError(None, "Float"@)))
            } else {
                Some(Ok(()))
            },
            JVal::Float(_) => Some(Ok(())),
            _ => Some(Err(mismatch(t))),
        },
        _ => Some(Err(mismatch(t))),
    }
}

/// The declared fields in order: each must be present and fit.
pub open spec fn validate_fields(fs: Seq<WAILField>, m: Seq<(Seq<char>, JVal)>) -> Option<Result<(), VErr>>
    decreases fs, 0int,
{
    if fs.len() == 0 {
        Some(Ok(()))
    } else {
        match validate_fields(fs.drop_last(), m) {
            Some(Ok(())) => {
                let f = fs.last();
                match obj_get(m, f.name@) {
                    Some(v) => match validate_spec(f.field_type, v) {
                        None => None,
                        Some(Ok(())) => Some(Ok(())),
                        Some(Err(e)) => Some(Err(VErr::ObjectNestedTypeValidation(f.name@, Box::new(e)))),
                    },
                    None => if f.name@ == "_type"@ {
                        Some(Err(VErr::ObjectMissingMetaType))
                    } else {
                        Some(Err(VErr::ObjectMissingRequiredField(f.name@)))
                    },
                }
            },
            other => other,
        }
    }
}

/// Each element in order must fit the element type.
pub open spec fn validate_elems(et: WAILType, vs: Seq<JVal>) -> Option<Result<(), VErr>>
    decreases et, vs.len() + 1,
{
    if vs.len() == 0 {
        Some(Ok(()))
    } else {
        match validate_elems(et, vs.drop_last()) {
            Some(Ok(())) => match validate_spec(et, vs.last()) {
                None => None,
                Some(Ok(())) => Some(Ok(())),
                Some(Err(e)) => Some(Err(VErr::ArrayElementTypeError(vs.len() - 1, Box::new(e)))),
            },
            other => other,
        }
    }
}

/// Trying the members of a union in order: whether one fits, and the
/// (type name, error) of each member tried before.
pub open spec fn union_scan(ms: Seq<WAILField>, j: JVal) -> Option<(bool, Seq<(Seq<char>, VErr)>)>
    decreases ms, 0int,
{
    if ms.len() == 0 {
        Some((false, Seq::empty()))
    } else {
        match union_scan(ms.drop_last(), j) {
            Some((false, errs)) => match validate_spec(ms.last().field_type, j) {
                None => None,
                Some(Ok(())) => Some((true, errs)),
                Some(Err(e)) => match type_data_of(ms.last().field_type) {
                    None => None,
                    Some(td) => Some((false, errs.push((td.type_label@, e)))),
                },
            },
            other => other,
        }
    }
}

/// The type names of the members, joined by ` | `.
pub open spec fn join_labels(ms: Seq<WAILField>) -> Seq<char>
    decreases ms.len(),
{
    if ms.len() == 0 {
        Seq::empty()
    } else {
        let l = match type_data_of(ms.last().field_type) {
            Some(td) => td.type_label@,
            None => Seq::empty(),
        };
        if ms.len() == 1 {
            l
        } else {
            join_labels(ms.drop_last()) + " | "@ + l
        }
    }
}


proof fn lemma_fields_stick(fs: Seq<WAILField>, m: Seq<(Seq<char>, JVal)>, k: int)
    requires
        0 <= k <= fs.len(),
        validate_fields(fs.take(k), m) != Some(Ok::<(), VErr>(())),
    ensures
        validate_fields(fs, m) == validate_fields(fs.take(k), m),
    decreases fs.len() - k,
{
    if k == fs.len() {
        assert(fs.take(k) =~= fs);
    } else {
        assert(fs.take(k + 1).drop_last() =~= fs.take(k));
        lemma_fields_stick(fs, m, k + 1);
    }
}

proof fn lemma_elems_stick(et: WAILType, vs: Seq<JVal>, k: int)
    requires
        0 <= k <= vs.len(),
        validate_elems(et, vs.take(k)) != Some(Ok::<(), VErr>(())),
    ensures
        validate_elems(et, vs) == validate_elems(et, vs.take(k)),
    decreases vs.len() - k,
{
    if k == vs.len() {
        assert(vs.take(k) =~= vs);
    } else {
        assert(vs.take(k + 1).drop_last() =~= vs.take(k));
        lemma_elems_stick(et, vs, k + 1);
    }
}

proof fn lemma_union_stick(ms: Seq<WAILField>, j: JVal, k: int)
    requires
        0 <= k <= ms.len(),
        !(union_scan(ms.take(k), j) matches Some((false, _))),
    ensures
        union_scan(ms, j) == union_scan(ms.take(k), j),
    decreases ms.len() - k,
{
    if k == ms.len() {
        assert(ms.take(k) =~= ms);
    } else {
        assert(ms.take(k + 1).drop_last() =~= ms.take(k));
        lemma_union_stick(ms, j, k + 1);
    }
}

/// When no member fits, every member has type data.
proof fn lemma_union_labels(ms: Seq<WAILField>, j: JVal)
    requires
        union_scan(ms, j) matches Some((false, _)),
    ensures
        forall|k: int| 0 <= k < ms.len() ==> #[trigger] type_data_of(ms[k].field_type) is Some,
    decreases ms.len(),
{
    if ms.len() > 0 {
        lemma_union_labels(ms.drop_last(), j);
        assert forall|k: int| 0 <= k < ms.len() implies #[trigger] type_data_of(ms[k].field_type) is Some by {
            if k < ms.len() - 1 {
                assert(ms.drop_last()[k] == ms[k]);
            }
        }
    }
}

fn mismatch_error(t: &WAILType) -> (r: JsonValidationError)
    ensures
        verr_view(r) == mismatch(*t),
{
    let name = match t {
        WAILType::Simple(WAILSimpleType::String(_)) => String::from_str("String"),
        WAILType::Simple(WAILSimpleType::Number(_)) => String::from_str("Number"),
        WAILType::Composite(WAILCompositeType::Object(_)) => String::from_str("Object"),
        WAILType::Composite(WAILCompositeType::Array(_)) => String::from_str("Array"),
        WAILType::Simple(WAILSimpleType::Boolean(_)) => String::from_str("Boolean"),
        _ => String::from_str("String"),
    };
    JsonValidationError::ExpectedTypeError((None, name))
}

impl WAILType {
    /// Checks a JSON value against this type.
    pub fn validate_json(&self, json: &JsonValue) -> (r: Result<(), JsonValidationError>)
        requires
            validate_spec(*self, json@) is Some,
        ensures
            match r {
                Ok(()) => validate_spec(*self, json@) == Some(Ok::<(), VErr>(())),
                Err(e) => validate_spec(*self, json@) == Some(Err::<(), VErr>(verr_view(e))),
            },
        decreases self, 0int,
    {
        match self {
            WAILType::Composite(WAILCompositeType::Object(obj)) => {
                match json {
                    JsonValue::Object(_) => {},
                    _ => {
                        return Err(mismatch_error(self));
                    },
                }
                let fs = match &obj.type_data.field_definitions {
                    Some(fs) => fs,
                    None => {
                        return Err(JsonValidationError::ObjectMissingAllFields);
                    },
                };
                let ghost m = json@->Object_0;
                proof {
                    assert(fs@.take(0) =~= Seq::<WAILField>::empty());
                    assert forall|k: int| 0 <= k < fs@.len() implies decreases_to!(*self => fs@[k].field_type) by {
                        assert(decreases_to!(*self => *fs));
                        assert(decreases_to!(*fs => fs@));
                        assert(decreases_to!(fs@ => fs@[k]));
                    }
                }
                let mut i: usize = 0;
                while i < fs.len()
                    invariant
                        i <= fs@.len(),
                        json@ == JVal::Object(m),
                        validate_fields(fs@, m) is Some,
                        validate_fields(fs@, m) == validate_spec(*self, json@),
                        validate_fields(fs@.take(i as int), m) == Some(Ok::<(), VErr>(())),
                        forall|k: int| 0 <= k < fs@.len() ==> decreases_to!(*self => fs@[k].field_type),
                    decreases fs@.len() - i,
                {
                    let f = &fs[i];
                    proof {
                        assert(fs@.take(i + 1).drop_last() =~= fs@.take(i as int));
                        assert(fs@.take(i + 1).last() == fs@[i as int]);
                        if validate_fields(fs@.take(i + 1), m) != Some(Ok::<(), VErr>(())) {
                            lemma_fields_stick(fs@, m, i + 1);
                        }
                    }
                    match json.get_key(f.name.as_str()) {
                        Some(v) => {
                            match f.field_type.validate_json(v) {
                                Ok(()) => {},
                                Err(e) => {
                                    return Err(JsonValidationError::ObjectNestedTypeValidation((f.name.clone(), Box::new(e))));
                                },
                            }
                        },
                        None => {
                            if str_is(&f.name, "_type") {
                                return Err(JsonValidationError::ObjectMissingMetaType);
                            } else {
                                return Err(JsonValidationError::ObjectMissingRequiredField(f.name.clone()));
                            }
                        },
                    }
                    i += 1;
                }
                assert(fs@.take(i as int) =~= fs@);
                Ok(())
            },
            WAILType::Composite(WAILCompositeType::Array(arr)) => {
                let vals = match json {
                    JsonValue::Array(vals) => vals,
                    _ => {
                        return Err(mismatch_error(self));
                    },
                };
                let et = match &arr.type_data.element_type {
                    Some(et) => et,
                    None => {
                        return Ok(());
                    },
                };
                let ghost vs = view_values(vals@);
                proof {
                    lemma_view_values_len(vals@);
                    assert(vs.take(0) =~= Seq::<JVal>::empty());
                }
                let mut i: usize = 0;
                while i < vals.len()
                    invariant
                        i <= vals@.len(),
                        vs == view_values(vals@),
                        vs.len() == vals@.len(),
                        forall|k: int| 0 <= k < vals@.len() ==> #[trigger] vs[k] == vals@[k]@,
                        validate_elems(**et, vs) is Some,
                        validate_elems(**et, vs) == validate_spec(*self, json@),
                        validate_elems(**et, vs.take(i as int)) == Some(Ok::<(), VErr>(())),
                        decreases_to!(*self => **et),
                    decreases vals@.len() - i,
                {
                    proof {
                        assert(vs.take(i + 1).drop_last() =~= vs.take(i as int));
                        assert(vs.take(i + 1).last() == vs[i as int]);
                        if validate_elems(**et, vs.take(i + 1)) != Some(Ok::<(), VErr>(())) {
                            lemma_elems_stick(**et, vs, i + 1);
                        }
                    }
                    match et.validate_json(&vals[i]) {
                        Ok(()) => {},
                        Err(e) => {
                            return Err(JsonValidationError::ArrayElementTypeError((i, Box::new(e))));
                        },
                    }
                    i += 1;
                }
                assert(vs.take(i as int) =~= vs);
                Ok(())
            },
            WAILType::Composite(WAILCompositeType::Union(u)) => {
                let ms = &u.members;
                let ghost j = json@;
                let mut errors: Vec<(String, Box<JsonValidationError>)> = Vec::new();
                proof {
                    assert(ms@.take(0) =~= Seq::<WAILField>::empty());
                    assert(verr_list_view(errors@) =~= Seq::<(Seq<char>, VErr)>::empty());
                    assert forall|k: int| 0 <= k < ms@.len() implies decreases_to!(*self => ms@[k].field_type) by {
                        assert(decreases_to!(*self => *ms));
                        assert(decreases_to!(*ms => ms@));
                        assert(decreases_to!(ms@ => ms@[k]));
                    }
                }
                let mut i: usize = 0;
                while i < ms.len()
                    invariant
                        i <= ms@.len(),
                        j == json@,
                        union_scan(ms@, j) is Some,
                        union_scan(ms@, j) matches Some((true, _)) ==> validate_spec(*self, j) == Some(Ok::<(), VErr>(())),
                        union_scan(ms@, j) matches Some((false, errs)) ==> validate_spec(*self, j) == (if ms@.len() == 0 {
                            Some(Ok::<(), VErr>(()))
                        } else {
                            Some(Err::<(), VErr>(VErr::NotMemberOfUnion(join_labels(ms@), errs)))
                        }),
                        union_scan(ms@.take(i as int), j) == Some((false, verr_list_view(errors@))),
                        forall|k: int| 0 <= k < ms@.len() ==> decreases_to!(*self => ms@[k].field_type),
                    decreases ms@.len() - i,
                {
                    let ft = &ms[i].field_type;
                    proof {
                        assert(ms@.take(i + 1).drop_last() =~= ms@.take(i as int));
                        assert(ms@.take(i + 1).last() == ms@[i as int]);
                        if !(union_scan(ms@.take(i + 1), j) matches Some((false, _))) {
                            lemma_union_stick(ms@, j, i + 1);
                        }
                    }
                    match ft.validate_json(json) {
                        Ok(()) => {
                            return Ok(());
                        },
                        Err(e) => {
                            let label = ft.type_label();
                            let ghost before = errors@;
                            errors.push((label, Box::new(e)));
                            proof {
                                assert(errors@.drop_last() =~= before);
                            }
                        },
                    }
                    i += 1;
                }
                proof {
                    assert(ms@.take(i as int) =~= ms@);
                }
                if ms.len() == 0 {
                    return Ok(());
                }
                proof {
                    lemma_union_labels(ms@, j);
                }
                assert(type_data_of(ms@[0].field_type) is Some);
                let mut names = ms[0].field_type.type_label();
                proof {
                    assert(ms@.take(1).last() == ms@[0]);
                }
                let mut k: usize = 1;
                while k < ms.len()
                    invariant
                        1 <= k <= ms@.len(),
                        forall|q: int| 0 <= q < ms@.len() ==> #[trigger] type_data_of(ms@[q].field_type) is Some,
                        names@ == join_labels(ms@.take(k as int)),
                    decreases ms@.len() - k,
                {
                    push_str(&mut names, " | ");
                    assert(type_data_of(ms@[k as int].field_type) is Some);
                    let l = ms[k].field_type.type_label();
                    push_str(&mut names, l.as_str());
                    proof {
                        assert(ms@.take(k + 1).drop_last() =~= ms@.take(k as int));
                        assert(ms@.take(k + 1).last() == ms@[k as int]);
                    }
                    k += 1;
                }
                proof {
                    assert(ms@.take(k as int) =~= ms@);
                }
                Err(JsonValidationError::NotMemberOfUnion((names, errors)))
            },
            WAILType::Simple(WAILSimpleType::String(_)) => {
                match json {
                    JsonValue::String(_) => Ok(()),
                    _ => Err(mismatch_error(self)),
                }
            },
            WAILType::Simple(WAILSimpleType::Number(n)) => {
                match json {
                    JsonValue::Number(Number::Integer(_)) => match n {
                        WAILNumber::Float(_) => Err(JsonValidationError::ExpectedTypeError((None, String::from_str("Float")))),
                        _ => Ok(()),
                    },
                    JsonValue::Number(Number::Float(_)) => Ok(()),
                    _ => Err(mismatch_error(self)),
                }
            },
            _ => Err(mismatch_error(self)),
        }
    }
}


// ───────────────────────── conversions from and to JSON ─────────────────────────

/// Whether a JSON value converts to a WAIL type: strings, numbers, and
/// objects whose member values all convert.
pub open spec fn json_convertible(j: JVal) -> bool
    decreases j,
{
    match j {
        JVal::Str(_) | JVal::Int(_) | JVal::Float(_) => true,
        JVal::Object(es) => entries_convertible(es),
        _ => false,
    }
}

pub open spec fn entries_convertible(es: Seq<(Seq<char>, JVal)>) -> bool
    decreases es,
{
    es.len() == 0 || (entries_convertible(es.drop_last()) && json_convertible(es.last().1))
}

/// Type data recording the JSON value it was made from.
pub open spec fn data_from(td: WAILTypeData, j: JVal, label: Seq<char>) -> bool {
    &&& td.json_type@ == j
    &&& td.type_label@ == label
    &&& td.element_type is None
}

/// `t` is the WAIL type converted from `j`.
pub open spec fn converted(t: WAILType, j: JVal) -> bool
    decreases t,
{
    match t {
        WAILType::Simple(WAILSimpleType::String(w)) => converted_string(w, j),
        WAILType::Simple(WAILSimpleType::Number(WAILNumber::Integer(n))) => j matches JVal::Int(i)
            && n.value == i as u64 && data_from(n.type_data, j, "Number"@) && n.type_data.field_definitions is None,
        WAILType::Simple(WAILSimpleType::Number(WAILNumber::Float(f))) => j matches JVal::Float(x)
            && f.value@ == x && data_from(f.type_data, j, "Number"@) && f.type_data.field_definitions is None,
        WAILType::Composite(WAILCompositeType::Object(o)) => j matches JVal::Object(es) && data_from(
            o.type_data,
            j,
            "Object"@,
        ) && (o.type_data.field_definitions matches Some(fs) && converted_fields(fs@, es))
            && converted_members(o.value@, es),
        _ => false,
    }
}

pub open spec fn converted_string(w: WAILString, j: JVal) -> bool {
    j matches JVal::Str(s) && w.value@ == s && data_from(w.type_data, j, "String"@)
        && w.type_data.field_definitions is None
}

/// The fields made from the entries of an object, in order, without annotations.
pub open spec fn converted_fields(fs: Seq<WAILField>, es: Seq<(Seq<char>, JVal)>) -> bool
    decreases fs,
{
    fs.len() == es.len() && (fs.len() == 0 || (converted_fields(fs.drop_last(), es.drop_last())
        && fs.last().name@ == es.last().0 && fs.last().annotations@.len() == 0 && converted(
        fs.last().field_type,
        es.last().1,
    )))
}

/// The (name, type) members made from the entries of an object, in order.
pub open spec fn converted_members(ms: Seq<(WAILString, WAILType)>, es: Seq<(Seq<char>, JVal)>) -> bool
    decreases ms,
{
    ms.len() == es.len() && (ms.len() == 0 || (converted_members(ms.drop_last(), es.drop_last())
        && converted_string(ms.last().0, JVal::Str(es.last().0)) && converted(ms.last().1, es.last().1)))
}

impl WAILString {
    /// A string type made from a JSON string.
    pub fn try_from(value: JsonValue) -> (r: Result<WAILString, String>)
        ensures
            match r {
                Ok(w) => converted_string(w, value@),
                Err(e) => !(value@ is Str) && e@ == "Expected String JsonValue"@,
            },
    {
        match value {
            JsonValue::String(s) => {
                let json_type = JsonValue::String(s.clone());
                Ok(WAILString {
                    value: s,
                    type_data: WAILTypeData {
                        json_type,
                        type_label: string_type(),
                        field_definitions: None,
                        element_type: None,
                    },
                })
            },
            _ => Err(String::from_str("Expected String JsonValue")),
        }
    }
}

impl WAILNumber {
    /// A number type made from a JSON number; an integer is taken as `u64`
    /// (a negative one wraps around).
    pub fn try_from(value: JsonValue) -> (r: Result<WAILNumber, String>)
        ensures
            match r {
                Ok(n) => converted(WAILType::Simple(WAILSimpleType::Number(n)), value@),
                Err(e) => !(value@ is Int || value@ is Float) && e@ == "Expected Number JsonValue"@,
            },
    {
        match value {
            JsonValue::Number(Number::Integer(i)) => Ok(
                WAILNumber::Integer(
                    WAILInteger {
                        value: i as u64,
                        type_data: WAILTypeData {
                            json_type: JsonValue::Number(Number::Integer(i)),
                            type_label: number_type(),
                            field_definitions: None,
                            element_type: None,
                        },
                    },
                ),
            ),
            JsonValue::Number(Number::Float(x)) => {
                let json_type = JsonValue::Number(Number::Float(x.clone()));
                Ok(
                    WAILNumber::Float(
                        WAILFloat {
                            value: x,
                            type_data: WAILTypeData {
                                json_type,
                                type_label: number_type(),
                                field_definitions: None,
                                element_type: None,
                            },
                        },
                    ),
                )
            },
            _ => Err(String::from_str("Expected Number JsonValue")),
        }
    }
}

impl WAILSimpleType {
    /// A simple type made from a JSON string or number.
    pub fn try_from(value: JsonValue) -> (r: Result<WAILSimpleType, String>)
        ensures
            match r {
                Ok(t) => converted(WAILType::Simple(t), value@),
                Err(e) => !(value@ is Str || value@ is Int || value@ is Float) && e@
                    == "Expected Simple Type JsonValue"@,
            },
    {
        match value {
            JsonValue::String(_) => match WAILString::try_from(value) {
                Ok(w) => Ok(WAILSimpleType::String(w)),
                Err(e) => Err(e),
            },
            JsonValue::Number(_) => match WAILNumber::try_from(value) {
                Ok(n) => Ok(WAILSimpleType::Number(n)),
                Err(e) => Err(e),
            },
            _ => Err(String::from_str("Expected Simple Type JsonValue")),
        }
    }
}

impl WAILObject {
    /// An object type made from a JSON object: one member and one field per entry.
    pub fn try_from(value: JsonValue) -> (r: Result<WAILObject, String>)
        ensures
            match r {
                Ok(o) => converted(WAILType::Composite(WAILCompositeType::Object(o)), value@) && json_convertible(value@),
                Err(e) => !(value@ is Object && json_convertible(value@)) && e@ == (if value@ is Object {
                    "Unsupported JsonValue type"@
                } else {
                    "Expected Object JsonValue"@
                }),
            },
        decreases value@, 1int,
    {
        let json_type = clone_value(&value);
        let es = match value {
            JsonValue::Object(es) => es,
            _ => {
                return Err(String::from_str("Expected Object JsonValue"));
            },
        };
        let ghost ev = view_entries(es@);
        proof {
            lemma_view_entries_len(es@);
            assert(ev.take(0) =~= Seq::<(Seq<char>, JVal)>::empty());
            assert forall|k: int| 0 <= k < es@.len() implies decreases_to!(value@ => es@[k].1@) by {
                let w = value@;
                assert(decreases_to!(w => w->Object_0));
                assert(decreases_to!(w->Object_0 => w->Object_0[k]));
                assert(decreases_to!(w->Object_0[k] => w->Object_0[k].1));
            }
        }
        let mut members: Vec<(WAILString, WAILType)> = Vec::new();
        let mut fields: Vec<WAILField> = Vec::new();
        let mut i: usize = 0;
        while i < es.len()
            invariant
                i <= es@.len(),
                ev == view_entries(es@),
                ev.len() == es@.len(),
                forall|k: int| 0 <= k < es@.len() ==> #[trigger] ev[k] == (es@[k].0@, es@[k].1@),
                value@ == JVal::Object(ev),
                forall|k: int| 0 <= k < es@.len() ==> decreases_to!(value@ => es@[k].1@),
                entries_convertible(ev.take(i as int)),
                converted_fields(fields@, ev.take(i as int)),
                converted_members(members@, ev.take(i as int)),
            decreases es@.len() - i,
        {
            let (k, v) = (&es[i].0, &es[i].1);
            let key = WAILString::try_from(JsonValue::String(k.clone())).unwrap();
            proof {
                assert(ev.take(i + 1).drop_last() =~= ev.take(i as int));
                assert(ev.take(i + 1).last() == ev[i as int]);
            }
            let member = match WAILType::try_from(clone_value(v)) {
                Ok(t) => t,
                Err(e) => {
                    proof {
                        assert(ev.take(i + 1).drop_last() =~= ev.take(i as int));
                        assert(ev.take(i + 1).last() == ev[i as int]);
                        if entries_convertible(ev) {
                            lemma_entries_prefix(ev, i + 1);
                        }
                    }
                    return Err(e);
                },
            };
            let field_type = WAILType::try_from(clone_value(v)).unwrap();
            let ghost fb = fields@;
            let ghost mb = members@;
            fields.push(WAILField { name: k.clone(), field_type, annotations: Vec::new() });
            members.push((key, member));
            proof {
                assert(ev.take(i + 1).drop_last() =~= ev.take(i as int));
                assert(fields@.drop_last() =~= fb);
                assert(members@.drop_last() =~= mb);
            }
            i += 1;
        }
        proof {
            assert(ev.take(i as int) =~= ev);
        }
        Ok(
            WAILObject {
                value: members,
                type_data: WAILTypeData {
                    json_type,
                    type_label: object_type(),
                    field_definitions: Some(fields),
                    element_type: None,
                },
            },
        )
    }
}

proof fn lemma_entries_prefix(es: Seq<(Seq<char>, JVal)>, k: int)
    requires
        0 <= k <= es.len(),
        entries_convertible(es),
    ensures
        entries_convertible(es.take(k)),
    decreases es.len() - k,
{
    if k == es.len() {
        assert(es.take(k) =~= es);
    } else {
        lemma_entries_prefix(es, k + 1);
        assert(es.take(k + 1).drop_last() =~= es.take(k));
    }
}

impl WAILType {
    /// A WAIL type made from a JSON string, number or object.
    pub fn try_from(value: JsonValue) -> (r: Result<WAILType, String>)
        ensures
            match r {
                Ok(t) => converted(t, value@) && json_convertible(value@),
                Err(e) => !json_convertible(value@) && e@ == "Unsupported JsonValue type"@,
            },
        decreases value@, 2int,
    {
        match value {
            JsonValue::String(_) | JsonValue::Number(_) => match WAILSimpleType::try_from(value) {
                Ok(t) => Ok(WAILType::Simple(t)),
                Err(e) => Err(e),
            },
            JsonValue::Object(_) => match WAILObject::try_from(value) {
                Ok(o) => Ok(WAILType::Composite(WAILCompositeType::Object(o))),
                Err(e) => Err(e),
            },
            _ => Err(String::from_str("Unsupported JsonValue type")),
        }
    }
}


/// The lowercase mapping of a string (`str::to_lowercase`).
pub uninterp spec fn lower_of(s: Seq<char>) -> Seq<char>;

/// Whether every character of `s` is ASCII.
pub open spec fn all_ascii(s: Seq<char>) -> bool {
    forall|i: int| 0 <= i < s.len() ==> (#[trigger] s[i] as u32) < 128
}

/// The lowercase mapping of a string: for an ASCII string, each letter in
/// ASCII lowercase; else [`lower_of`].
pub open spec fn lower_text(s: Seq<char>) -> Seq<char> {
    if all_ascii(s) {
        s.map_values(|c: char| crate::python_types::ascii_lower(c))
    } else {
        lower_of(s)
    }
}

/// `str::to_lowercase`.
/// Trusted: std documents it as the Unicode lowercase mapping of the string,
/// which lowers each ASCII letter to its ASCII lowercase letter and leaves the
/// other ASCII characters as they are; nothing more is stated here.
#[verifier::external_body]
pub(crate) fn str_to_lower(s: &str) -> (r: String)
    ensures
        r@ == lower_of(s@),
        all_ascii(s@) ==> r@ == s@.map_values(|c: char| crate::python_types::ascii_lower(c)),
{
    s.to_lowercase()
}

/// The JSON value a WAIL type stands for.
pub open spec fn json_of(t: WAILType) -> JVal
    decreases t,
{
    match t {
        WAILType::Simple(WAILSimpleType::String(s)) => JVal::Str(s.value@),
        WAILType::Simple(WAILSimpleType::Number(WAILNumber::Integer(i))) => JVal::Int(i.value as i64),
        WAILType::Simple(WAILSimpleType::Number(WAILNumber::Float(f))) => JVal::Float(f.value@),
        WAILType::Simple(WAILSimpleType::Boolean(b)) => JVal::Bool(lower_text(b.value@) == "true"@),
        WAILType::Composite(WAILCompositeType::Object(o)) => JVal::Object(members_json(o.value@)),
        WAILType::Composite(WAILCompositeType::Array(a)) => JVal::Array(types_json(a.values@)),
        WAILType::Composite(WAILCompositeType::Union(_)) => JVal::Object(Seq::empty()),
        WAILType::Value(WAILValue::String(s)) => JVal::Str(s@),
        WAILType::Value(WAILValue::Number(n)) => JVal::Int(n),
        WAILType::Value(WAILValue::Float(f)) => JVal::Float(f@),
        WAILType::Value(WAILValue::TypeRef(r)) => JVal::Str(r@),
    }
}

/// Members as JSON entries; a later member replaces an earlier one of the same name.
pub open spec fn members_json(ms: Seq<(WAILString, WAILType)>) -> Seq<(Seq<char>, JVal)>
    decreases ms,
{
    if ms.len() == 0 {
        Seq::empty()
    } else {
        obj_insert(members_json(ms.drop_last()), ms.last().0.value@, json_of(ms.last().1))
    }
}

pub open spec fn types_json(ts: Seq<WAILType>) -> Seq<JVal>
    decreases ts,
{
    if ts.len() == 0 {
        Seq::empty()
    } else {
        types_json(ts.drop_last()).push(json_of(ts.last()))
    }
}

fn json_of_ref(t: &WAILType) -> (r: JsonValue)
    ensures
        r@ == json_of(*t),
    decreases t,
{
    match t {
        WAILType::Simple(WAILSimpleType::String(s)) => JsonValue::String(s.value.clone()),
        WAILType::Simple(WAILSimpleType::Number(WAILNumber::Integer(i))) => JsonValue::Number(
            Number::Integer(i.value as i64),
        ),
        WAILType::Simple(WAILSimpleType::Number(WAILNumber::Float(f))) => JsonValue::Number(
            Number::Float(f.value.clone()),
        ),
        WAILType::Simple(WAILSimpleType::Boolean(b)) => {
            let low = str_to_lower(b.value.as_str());
            JsonValue::Boolean(str_is(&low, "true"))
        },
        WAILType::Composite(WAILCompositeType::Object(o)) => {
            let ms = &o.value;
            let mut es: Vec<(String, JsonValue)> = Vec::new();
            let mut i: usize = 0;
            proof {
                assert(ms@.take(0) =~= Seq::<(WAILString, WAILType)>::empty());
                assert forall|k: int| 0 <= k < ms@.len() implies decreases_to!(*t => ms@[k].1) by {
                    assert(decreases_to!(*t => *ms));
                    assert(decreases_to!(*ms => ms@));
                    assert(decreases_to!(ms@ => ms@[k]));
                    assert(decreases_to!(ms@[k] => ms@[k].1));
                }
            }
            while i < ms.len()
                invariant
                    i <= ms@.len(),
                    view_entries(es@) == members_json(ms@.take(i as int)),
                    forall|k: int| 0 <= k < ms@.len() ==> decreases_to!(*t => ms@[k].1),
                decreases ms@.len() - i,
            {
                let v = json_of_ref(&ms[i].1);
                insert_entry(&mut es, ms[i].0.value.clone(), v);
                proof {
                    assert(ms@.take(i + 1).drop_last() =~= ms@.take(i as int));
                    assert(ms@.take(i + 1).last() == ms@[i as int]);
                }
                i += 1;
            }
            proof {
                assert(ms@.take(i as int) =~= ms@);
            }
            JsonValue::Object(es)
        },
        WAILType::Composite(WAILCompositeType::Array(a)) => {
            let ts = &a.values;
            let mut vs: Vec<JsonValue> = Vec::new();
            let mut i: usize = 0;
            proof {
                assert(ts@.take(0) =~= Seq::<WAILType>::empty());
                assert forall|k: int| 0 <= k < ts@.len() implies decreases_to!(*t => ts@[k]) by {
                    assert(decreases_to!(*t => *ts));
                    assert(decreases_to!(*ts => ts@));
                    assert(decreases_to!(ts@ => ts@[k]));
                }
            }
            while i < ts.len()
                invariant
                    i <= ts@.len(),
                    view_values(vs@) == types_json(ts@.take(i as int)),
                    forall|k: int| 0 <= k < ts@.len() ==> decreases_to!(*t => ts@[k]),
                decreases ts@.len() - i,
            {
                let v = json_of_ref(&ts[i]);
                let ghost before = vs@;
                vs.push(v);
                proof {
                    lemma_view_values_push(before, v);
                    assert(ts@.take(i + 1).drop_last() =~= ts@.take(i as int));
                    assert(ts@.take(i + 1).last() == ts@[i as int]);
                }
                i += 1;
            }
            proof {
                assert(ts@.take(i as int) =~= ts@);
            }
            JsonValue::Array(vs)
        },
        WAILType::Composite(WAILCompositeType::Union(_)) => {
            let es: Vec<(String, JsonValue)> = Vec::new();
            assert(view_entries(es@) =~= Seq::<(Seq<char>, JVal)>::empty());
            JsonValue::Object(es)
        },
        WAILType::Value(WAILValue::String(x)) => JsonValue::String(x.clone()),
        WAILType::Value(WAILValue::Number(n)) => JsonValue::Number(Number::Integer(*n)),
        WAILType::Value(WAILValue::Float(x)) => JsonValue::Number(Number::Float(x.clone())),
        WAILType::Value(WAILValue::TypeRef(x)) => JsonValue::String(x.clone()),
    }
}

impl JsonValue {
    /// The JSON value a WAIL type stands for.
    pub fn from(wail_type: WAILType) -> (r: JsonValue)
        ensures
            r@ == json_of(wail_type),
    {
        json_of_ref(&wail_type)
    }
}


/// JSON numbers against WAIL number types: a float fits every number type,
/// integer or float; a whole number fits an integer type, and where a float
/// is declared it is refused as not a float.
pub proof fn lemma_numbers_fit(n: WAILNumber, text: Seq<char>, k: i64)
    ensures
        validate_spec(WAILType::Simple(WAILSimpleType::Number(n)), JVal::Float(text)) == Some(Ok::<(), VErr>(())),
        n is Integer ==> validate_spec(WAILType::Simple(WAILSimpleType::Number(n)), JVal::Int(k)) == Some(
            Ok::<(), VErr>(()),
        ),
        n is Float ==> validate_spec(WAILType::Simple(WAILSimpleType::Number(n)), JVal::Int(k)) == Some(
            Err::<(), VErr>(VErr::ExpectedTypeError(None, "Float"@)),
        ),
{
}

} // verus!
