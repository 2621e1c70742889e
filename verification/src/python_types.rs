//! A plain description of a Python type annotation: its kind, name, module
//! and type arguments. The Python object it came from, if any, is kept by
//! the embedding program.
use crate::parser_types::find_char_in;
use crate::tag_finder::{find_from, lemma_find_from};
use crate::template_parser::{trim_chars, trim_spec};
use crate::text::{chars_of, eq_lit, string_from_chars};
use crate::type_string_parser::{last_index_of, lemma_last_index};
use vstd::prelude::*;
use vstd::slice::slice_subrange;
use vstd::string::StringExecFns;

verus! {

#[derive(Debug, Clone, Copy, PartialEq, Eq, Structural)]
pub enum PyTypeKind {
    String,
    Integer,
    Float,
    Boolean,
    Dict,
    List,
    Tuple,
    /// `set` (the name `Set` is taken by the verifier's prelude)
    SetType,
    Union,
    Class,
    Any,
    /// `None` (the name `None` is taken by the verifier's prelude)
    NoneType,
    Optional,
}

#[derive(Debug)]
pub struct PyTypeInfo {
    pub kind: PyTypeKind,
    pub name: String,
    pub module: Option<String>,
    pub origin: Option<String>,
    pub args: Vec<PyTypeInfo>,
    /// fields of a class, by name, without repeats
    pub fields: Vec<(String, PyTypeInfo)>,
    pub is_optional: bool,
    /// a number the embedding program gave the Python class this describes
    pub class_id: Option<u64>,
}

/// Mathematical value of a [`PyTypeInfo`].
pub struct PyTy {
    pub kind: PyTypeKind,
    pub name: Seq<char>,
    pub module: Option<Seq<char>>,
    pub origin: Option<Seq<char>>,
    pub args: Seq<PyTy>,
    pub fields: Seq<(Seq<char>, PyTy)>,
    pub is_optional: bool,
    pub class_id: Option<u64>,
}

pub open spec fn opt_str_view(o: Option<String>) -> Option<Seq<char>> {
    match o {
        Some(s) => Some(s@),
        None => None,
    }
}

pub open spec fn pyty_view(t: PyTypeInfo) -> PyTy
    decreases t,
{
    PyTy {
        kind: t.kind,
        name: t.name@,
        module: opt_str_view(t.module),
        origin: opt_str_view(t.origin),
        args: pytys_view(t.args@),
        fields: pyfields_view(t.fields@),
        is_optional: t.is_optional,
        class_id: t.class_id,
    }
}

pub open spec fn pytys_view(s: Seq<PyTypeInfo>) -> Seq<PyTy>
    decreases s,
{
    if s.len() == 0 {
        Seq::empty()
    } else {
        pytys_view(s.drop_last()).push(pyty_view(s.last()))
    }
}

pub open spec fn pyfields_view(s: Seq<(String, PyTypeInfo)>) -> Seq<(Seq<char>, PyTy)>
    decreases s,
{
    if s.len() == 0 {
        Seq::empty()
    } else {
        pyfields_view(s.drop_last()).push((s.last().0@, pyty_view(s.last().1)))
    }
}

impl View for PyTypeInfo {
    type V = PyTy;

    open spec fn view(&self) -> PyTy {
        pyty_view(*self)
    }
}

pub proof fn lemma_pytys_push(s: Seq<PyTypeInfo>, t: PyTypeInfo)
    ensures
        pytys_view(s.push(t)) == pytys_view(s).push(pyty_view(t)),
{
    assert(s.push(t).drop_last() =~= s);
}

pub proof fn lemma_pytys_len(s: Seq<PyTypeInfo>)
    ensures
        pytys_view(s).len() == s.len(),
        forall|i: int| 0 <= i < s.len() ==> #[trigger] pytys_view(s)[i] == pyty_view(s[i]),
    decreases s.len(),
{
    if s.len() > 0 {
        lemma_pytys_len(s.drop_last());
    }
}

impl PyTypeInfo {
    /// `typing.Any`.
    pub fn any() -> (r: Self)
        ensures
            r@ == (PyTy {
                kind: PyTypeKind::Any,
                name: "Any"@,
                module: Some("typing"@),
                origin: Some("Any"@),
                args: Seq::empty(),
                fields: Seq::empty(),
                is_optional: false,
                class_id: None,
            }),
    {
        let r = Self {
            kind: PyTypeKind::Any,
            name: String::from_str("Any"),
            module: Some(String::from_str("typing")),
            origin: Some(String::from_str("Any")),
            args: Vec::new(),
            fields: Vec::new(),
            is_optional: false,
            class_id: None,
        };
        assert(pytys_view(r.args@) =~= Seq::<PyTy>::empty());
        assert(pyfields_view(r.fields@) =~= Seq::<(Seq<char>, PyTy)>::empty());
        r
    }

    /// A type of the given kind and name, with nothing else known.
    pub fn new(kind: PyTypeKind, name: String) -> (r: Self)
        ensures
            r@ == (PyTy {
                kind,
                name: name@,
                module: None,
                origin: None,
                args: Seq::empty(),
                fields: Seq::empty(),
                is_optional: false,
                class_id: None,
            }),
    {
        let r = Self { kind, name, module: None, origin: None, args: Vec::new(), fields: Vec::new(), is_optional: false, class_id: None };
        assert(pytys_view(r.args@) =~= Seq::<PyTy>::empty());
        assert(pyfields_view(r.fields@) =~= Seq::<(Seq<char>, PyTy)>::empty());
        r
    }

    pub fn with_module(self, module: String) -> (r: Self)
        ensures
            r@ == (PyTy { module: Some(module@), ..self@ }),
    {
        let mut s = self;
        s.module = Some(module);
        s
    }

    pub fn with_origin(self, origin: String) -> (r: Self)
        ensures
            r@ == (PyTy { origin: Some(origin@), ..self@ }),
    {
        let mut s = self;
        s.origin = Some(origin);
        s
    }

    pub fn with_args(self, args: Vec<PyTypeInfo>) -> (r: Self)
        ensures
            r@ == (PyTy { args: pytys_view(args@), ..self@ }),
    {
        let mut s = self;
        s.args = args;
        s
    }

    pub fn with_fields(self, fields: Vec<(String, PyTypeInfo)>) -> (r: Self)
        ensures
            r@ == (PyTy { fields: pyfields_view(fields@), ..self@ }),
    {
        let mut s = self;
        s.fields = fields;
        s
    }

    pub fn with_optional(self, is_optional: bool) -> (r: Self)
        ensures
            r@ == (PyTy { is_optional, ..self@ }),
    {
        let mut s = self;
        s.is_optional = is_optional;
        s
    }

    /// The description with the number of the Python class it describes.
    pub fn with_class_id(self, class_id: u64) -> (r: Self)
        ensures
            r@ == with_class(self@, class_id),
    {
        let mut s = self;
        s.class_id = Some(class_id);
        s
    }

    /// Strings, integers, floats, booleans and `None`.
    pub fn is_primitive(&self) -> (r: bool)
        ensures
            r == (self.kind == PyTypeKind::String || self.kind == PyTypeKind::Integer || self.kind == PyTypeKind::Float
                || self.kind == PyTypeKind::Boolean || self.kind == PyTypeKind::NoneType),
    {
        match self.kind {
            PyTypeKind::String | PyTypeKind::Integer | PyTypeKind::Float | PyTypeKind::Boolean | PyTypeKind::NoneType => true,
            _ => false,
        }
    }
}


// What a Python type annotation is, read from the plain facts the embedding
// program gathers from the annotation object (its name, module, `repr`,
// origin, type arguments and class annotations).

pub open spec fn or_default(m: Option<Seq<char>>, d: Seq<char>) -> Seq<char> {
    match m {
        Some(s) => s,
        None => d,
    }
}

pub open spec fn has_prefix(s: Seq<char>, p: Seq<char>) -> bool {
    p.len() <= s.len() && s.take(p.len() as int) == p
}

pub open spec fn has_suffix(s: Seq<char>, p: Seq<char>) -> bool {
    p.len() <= s.len() && s.skip(s.len() - p.len()) == p
}

/// The part of a dotted name after its last `.` (all of it when it has none).
pub open spec fn base_name(s: Seq<char>) -> Seq<char> {
    let k = last_index_of(s, '.');
    if k >= 0 {
        s.skip(k + 1)
    } else {
        s
    }
}

pub open spec fn opt_pyty(o: Option<PyTypeInfo>) -> Option<PyTy> {
    match o {
        Some(t) => Some(t@),
        None => None,
    }
}

pub open spec fn opt_fields_view(o: Option<Vec<(String, PyTypeInfo)>>) -> Option<Seq<(Seq<char>, PyTy)>> {
    match o {
        Some(f) => Some(pyfields_view(f@)),
        None => None,
    }
}

/// A type with no fields.
pub open spec fn plain_ty(
    kind: PyTypeKind,
    name: Seq<char>,
    module: Option<Seq<char>>,
    origin: Option<Seq<char>>,
    args: Seq<PyTy>,
    is_optional: bool,
) -> PyTy {
    PyTy { kind, name, module, origin, args, fields: Seq::empty(), is_optional, class_id: None }
}

/// The name of an annotation without `__name__`: its `repr` up to the first
/// `[`, trimmed (all of the `repr` when there is no `[`).
pub open spec fn name_from_repr_spec(r: Seq<char>) -> Seq<char> {
    let p = find_from(r, '[', 0);
    if p < r.len() {
        trim_spec(r.take(p))
    } else {
        r
    }
}

/// A `repr` that spells a parameterised list or tuple.
pub open spec fn repr_kind_spec(r: Seq<char>) -> Option<PyTypeKind> {
    if has_prefix(r, "typing.List["@) || has_prefix(r, "list["@) {
        Some(PyTypeKind::List)
    } else if has_prefix(r, "typing.Tuple["@) || has_prefix(r, "tuple["@) {
        Some(PyTypeKind::Tuple)
    } else {
        None
    }
}

/// A parameterised type by its origin's name: builtin containers by their
/// base name, `Union[T, None]` as `Optional[T]`, any other `Union` as is, and
/// anything else as `Any` under the origin's name.
pub open spec fn origin_ty(origin: Seq<char>, module: Option<Seq<char>>, args: Seq<PyTy>) -> PyTy {
    let base = base_name(origin);
    let builtins = Some(or_default(module, "builtins"@));
    let typing = Some(or_default(module, "typing"@));
    if base == "list"@ {
        plain_ty(PyTypeKind::List, "list"@, builtins, Some(origin), args, false)
    } else if base == "tuple"@ {
        plain_ty(PyTypeKind::Tuple, "tuple"@, builtins, Some(origin), args, false)
    } else if base == "dict"@ {
        plain_ty(PyTypeKind::Dict, "dict"@, builtins, Some(origin), args, false)
    } else if base == "set"@ {
        plain_ty(PyTypeKind::SetType, "set"@, builtins, Some(origin), args, false)
    } else if base == "Union"@ {
        if args.len() == 2 && (args[0].kind == PyTypeKind::NoneType || args[1].kind == PyTypeKind::NoneType) {
            let inner = if args[0].kind != PyTypeKind::NoneType {
                args[0]
            } else if args[1].kind != PyTypeKind::NoneType {
                args[1]
            } else {
                plain_ty(PyTypeKind::Any, "Any"@, None, None, Seq::empty(), false)
            };
            plain_ty(PyTypeKind::Optional, "Optional"@, typing, Some(origin), seq![inner], true)
        } else {
            plain_ty(PyTypeKind::Union, "Union"@, typing, Some(origin), args, false)
        }
    } else {
        plain_ty(PyTypeKind::Any, origin, typing, Some(origin), args, false)
    }
}

/// A builtin type by its `__name__`, or `None` for any other name.
pub open spec fn builtin_ty(name: Seq<char>, module: Option<Seq<char>>) -> Option<PyTy> {
    let m = Some(or_default(module, "builtins"@));
    let e = Seq::<PyTy>::empty();
    if name == "str"@ {
        Some(plain_ty(PyTypeKind::String, "str"@, m, None, e, false))
    } else if name == "int"@ {
        Some(plain_ty(PyTypeKind::Integer, "int"@, m, None, e, false))
    } else if name == "float"@ {
        Some(plain_ty(PyTypeKind::Float, "float"@, m, None, e, false))
    } else if name == "bool"@ {
        Some(plain_ty(PyTypeKind::Boolean, "bool"@, m, None, e, false))
    } else if name == "list"@ {
        Some(plain_ty(PyTypeKind::List, "list"@, m, None, e, false))
    } else if name == "dict"@ {
        Some(plain_ty(PyTypeKind::Dict, "dict"@, m, None, e, false))
    } else if name == "tuple"@ {
        Some(plain_ty(PyTypeKind::Tuple, "tuple"@, m, None, e, false))
    } else if name == "set"@ {
        Some(plain_ty(PyTypeKind::SetType, "set"@, m, None, e, false))
    } else if name == "NoneType"@ {
        Some(plain_ty(PyTypeKind::NoneType, "None"@, m, None, e, false))
    } else if name == "type"@ {
        Some(plain_ty(PyTypeKind::Class, name, m, None, e, false))
    } else {
        None
    }
}

/// Any other named type: a class with its annotated fields, a class without
/// them when it has bases, else `Any`.
pub open spec fn user_ty(name: Seq<char>, module: Option<Seq<char>>, fields: Option<Seq<(Seq<char>, PyTy)>>, has_bases: bool) -> PyTy {
    let m = Some(or_default(module, "builtins"@));
    match fields {
        Some(f) => PyTy {
            kind: PyTypeKind::Class,
            name,
            module: m,
            origin: None,
            args: Seq::empty(),
            fields: f,
            is_optional: false,
            class_id: None,
        },
        None => if has_bases {
            plain_ty(PyTypeKind::Class, name, m, None, Seq::empty(), false)
        } else {
            plain_ty(PyTypeKind::Any, name, m, None, Seq::empty(), false)
        },
    }
}

fn starts_with_lit(s: &[char], lit: &str) -> (r: bool)
    ensures
        r == has_prefix(s@, lit@),
{
    let l = chars_of(lit);
    if l.len() > s.len() {
        return false;
    }
    let mut i: usize = 0;
    while i < l.len()
        invariant
            i <= l@.len(),
            l@.len() <= s@.len(),
            l@ == lit@,
            forall|k: int| 0 <= k < i ==> s@[k] == l@[k],
        decreases l@.len() - i,
    {
        if s[i] != l[i] {
            assert(s@.take(l@.len() as int)[i as int] != l@[i as int]);
            return false;
        }
        i += 1;
    }
    assert(s@.take(l@.len() as int) =~= l@);
    true
}

fn ends_with_lit(s: &[char], lit: &str) -> (r: bool)
    ensures
        r == has_suffix(s@, lit@),
{
    let l = chars_of(lit);
    if l.len() > s.len() {
        return false;
    }
    let d = s.len() - l.len();
    let mut i: usize = 0;
    while i < l.len()
        invariant
            i <= l@.len(),
            d + l@.len() == s@.len(),
            s@.len() == s.len(),
            l@ == lit@,
            forall|k: int| 0 <= k < i ==> s@[d + k] == l@[k],
        decreases l@.len() - i,
    {
        if s[d + i] != l[i] {
            assert(s@.skip(d as int)[i as int] != l@[i as int]);
            return false;
        }
        i += 1;
    }
    assert(s@.skip(d as int) =~= l@);
    true
}

fn last_index_exec(s: &[char], c: char) -> (r: Option<usize>)
    ensures
        match r {
            Some(k) => k == last_index_of(s@, c) && k < s@.len(),
            None => last_index_of(s@, c) == -1,
        },
{
    let mut i = s.len();
    assert(s@.take(i as int) =~= s@);
    while i > 0
        invariant
            i <= s@.len(),
            last_index_of(s@, c) == last_index_of(s@.take(i as int), c),
        decreases i,
    {
        if s[i - 1] == c {
            return Some(i - 1);
        }
        assert(s@.take(i as int).drop_last() =~= s@.take(i - 1));
        i -= 1;
    }
    None
}

fn or_default_exec(m: Option<String>, d: &str) -> (r: String)
    ensures
        r@ == or_default(opt_str_view(m), d@),
{
    match m {
        Some(s) => s,
        None => String::from_str(d),
    }
}

fn fieldless(kind: PyTypeKind, name: String, module: String, origin: Option<String>, args: Vec<PyTypeInfo>, is_optional: bool) -> (r: PyTypeInfo)
    ensures
        r@ == plain_ty(kind, name@, Some(module@), opt_str_view(origin), pytys_view(args@), is_optional),
{
    let r = PyTypeInfo { kind, name, module: Some(module), origin, args, fields: Vec::new(), is_optional, class_id: None };
    assert(pyfields_view(r.fields@) =~= Seq::<(Seq<char>, PyTy)>::empty());
    r
}

/// `__origin__` spells a `Union` (`typing.Union`, or any name ending in `.Union`).
pub fn is_union_origin(origin: &str) -> (r: bool)
    ensures
        r == (origin@ == "typing.Union"@ || has_suffix(origin@, ".Union"@)),
{
    let cs = chars_of(origin);
    eq_lit(&cs, "typing.Union") || ends_with_lit(&cs, ".Union")
}

/// The name of an annotation taken from its `repr`.
pub fn name_from_repr(repr: &str) -> (r: String)
    ensures
        r@ == name_from_repr_spec(repr@),
{
    let cs = chars_of(repr);
    let p = find_char_in(&cs, '[', 0);
    proof {
        lemma_find_from(cs@, '[', 0);
    }
    if p < cs.len() {
        let head = slice_subrange(cs.as_slice(), 0, p);
        assert(head@ =~= repr@.take(p as int));
        trim_chars(head)
    } else {
        string_from_chars(&cs)
    }
}

/// A `repr` starting `typing.List[` or `list[` names a list; one starting
/// `typing.Tuple[` or `tuple[` a tuple.
pub fn repr_sequence_kind(repr: &str) -> (r: Option<PyTypeKind>)
    ensures
        r == repr_kind_spec(repr@),
{
    let cs = chars_of(repr);
    if starts_with_lit(&cs, "typing.List[") || starts_with_lit(&cs, "list[") {
        Some(PyTypeKind::List)
    } else if starts_with_lit(&cs, "typing.Tuple[") || starts_with_lit(&cs, "tuple[") {
        Some(PyTypeKind::Tuple)
    } else {
        None
    }
}

impl PyTypeInfo {
    /// A type alias whose value is a `Union`: the alias's name (`Union` when
    /// it has none) over the union's arguments.
    fn union_alias_of(alias_name: Option<String>, args: Vec<PyTypeInfo>) -> (r: Self)
        ensures
            r@ == plain_ty(
                PyTypeKind::Union,
                or_default(opt_str_view(alias_name), "Union"@),
                Some("typing"@),
                Some("Union"@),
                pytys_view(args@),
                false,
            ),
    {
        let name = or_default_exec(alias_name, "Union");
        fieldless(PyTypeKind::Union, name, String::from_str("typing"), Some(String::from_str("Union")), args, false)
    }

    /// The list or tuple that `repr_sequence_kind` found, over its arguments.
    fn sequence_type_of(kind: PyTypeKind, args: Vec<PyTypeInfo>) -> (r: Self)
        requires
            kind == PyTypeKind::List || kind == PyTypeKind::Tuple,
        ensures
            r@ == (if kind == PyTypeKind::List {
                plain_ty(PyTypeKind::List, "list"@, Some("typing"@), Some("list"@), pytys_view(args@), false)
            } else {
                plain_ty(PyTypeKind::Tuple, "tuple"@, Some("typing"@), Some("tuple"@), pytys_view(args@), false)
            }),
    {
        if kind == PyTypeKind::List {
            fieldless(PyTypeKind::List, String::from_str("list"), String::from_str("typing"), Some(String::from_str("list")), args, false)
        } else {
            fieldless(PyTypeKind::Tuple, String::from_str("tuple"), String::from_str("typing"), Some(String::from_str("tuple")), args, false)
        }
    }

    /// A parameterised annotation by the name of its `__origin__`, its module
    /// and its (already read) arguments.
    fn from_origin_of(origin: String, module: Option<String>, args: Vec<PyTypeInfo>) -> (r: Self)
        ensures
            r@ == origin_ty(origin@, opt_str_view(module), pytys_view(args@)),
    {
        let cs = chars_of(origin.as_str());
        let base = match last_index_exec(&cs, '.') {
            Some(k) => {
                assert(k < cs@.len());
                assert(k + 1 <= cs.len());
                let tail = slice_subrange(cs.as_slice(), k + 1, cs.len());
                assert(tail@ =~= origin@.skip(k + 1));
                string_from_chars(tail)
            },
            None => string_from_chars(&cs),
        };
        let bc = chars_of(base.as_str());
        assert(bc@ == base_name(origin@));
        proof {
            lemma_pytys_len(args@);
        }
        if eq_lit(&bc, "list") {
            fieldless(PyTypeKind::List, String::from_str("list"), or_default_exec(module, "builtins"), Some(origin), args, false)
        } else if eq_lit(&bc, "tuple") {
            fieldless(PyTypeKind::Tuple, String::from_str("tuple"), or_default_exec(module, "builtins"), Some(origin), args, false)
        } else if eq_lit(&bc, "dict") {
            fieldless(PyTypeKind::Dict, String::from_str("dict"), or_default_exec(module, "builtins"), Some(origin), args, false)
        } else if eq_lit(&bc, "set") {
            fieldless(PyTypeKind::SetType, String::from_str("set"), or_default_exec(module, "builtins"), Some(origin), args, false)
        } else if eq_lit(&bc, "Union") {
            if args.len() == 2 && (args[0].kind == PyTypeKind::NoneType || args[1].kind == PyTypeKind::NoneType) {
                let ghost av = pytys_view(args@);
                let mut rest = args;
                let second = rest.pop().unwrap();
                let first = rest.pop().unwrap();
                assert(pyty_view(first) == av[0]);
                assert(pyty_view(second) == av[1]);
                let inner = if first.kind != PyTypeKind::NoneType {
                    first
                } else if second.kind != PyTypeKind::NoneType {
                    second
                } else {
                    PyTypeInfo::new(PyTypeKind::Any, String::from_str("Any"))
                };
                let mut one: Vec<PyTypeInfo> = Vec::new();
                proof {
                    lemma_pytys_push(one@, inner);
                }
                one.push(inner);
                assert(pytys_view(Seq::<PyTypeInfo>::empty()) =~= Seq::<PyTy>::empty());
                fieldless(PyTypeKind::Optional, String::from_str("Optional"), or_default_exec(module, "typing"), Some(origin), one, true)
            } else {
                fieldless(PyTypeKind::Union, String::from_str("Union"), or_default_exec(module, "typing"), Some(origin), args, false)
            }
        } else {
            let name = origin.clone();
            fieldless(PyTypeKind::Any, name, or_default_exec(module, "typing"), Some(origin), args, false)
        }
    }

    /// A builtin type by its `__name__`; `None` for any other name.
    fn builtin_type_of(name_attr: &str, module: Option<String>) -> (r: Option<Self>)
        ensures
            opt_pyty(r) == builtin_ty(name_attr@, opt_str_view(module)),
    {
        let cs = chars_of(name_attr);
        let none: Option<String> = None;
        let (kind, name) = if eq_lit(&cs, "str") {
            (PyTypeKind::String, String::from_str("str"))
        } else if eq_lit(&cs, "int") {
            (PyTypeKind::Integer, String::from_str("int"))
        } else if eq_lit(&cs, "float") {
            (PyTypeKind::Float, String::from_str("float"))
        } else if eq_lit(&cs, "bool") {
            (PyTypeKind::Boolean, String::from_str("bool"))
        } else if eq_lit(&cs, "list") {
            (PyTypeKind::List, String::from_str("list"))
        } else if eq_lit(&cs, "dict") {
            (PyTypeKind::Dict, String::from_str("dict"))
        } else if eq_lit(&cs, "tuple") {
            (PyTypeKind::Tuple, String::from_str("tuple"))
        } else if eq_lit(&cs, "set") {
            (PyTypeKind::SetType, String::from_str("set"))
        } else if eq_lit(&cs, "NoneType") {
            (PyTypeKind::NoneType, String::from_str("None"))
        } else if eq_lit(&cs, "type") {
            (PyTypeKind::Class, String::from_str(name_attr))
        } else {
            return None;
        };
        let r = fieldless(kind, name, or_default_exec(module, "builtins"), none, Vec::new(), false);
        assert(pytys_view(Seq::<PyTypeInfo>::empty()) =~= Seq::<PyTy>::empty());
        Some(r)
    }

    /// Any other named type, given its annotated fields (when it has
    /// `__annotations__`) and whether it has `__bases__`.
    fn user_type_of(name_attr: String, module: Option<String>, fields: Option<Vec<(String, PyTypeInfo)>>, has_bases: bool) -> (r: Self)
        ensures
            r@ == user_ty(name_attr@, opt_str_view(module), opt_fields_view(fields), has_bases),
    {
        let m = or_default_exec(module, "builtins");
        let kind = if fields.is_some() || has_bases {
            PyTypeKind::Class
        } else {
            PyTypeKind::Any
        };
        let fs = match fields {
            Some(f) => f,
            None => Vec::new(),
        };
        let r = PyTypeInfo {
            kind,
            name: name_attr,
            module: Some(m),
            origin: None,
            args: Vec::new(),
            fields: fs,
            is_optional: false,
            class_id: None,
        };
        assert(pytys_view(r.args@) =~= Seq::<PyTy>::empty());
        assert(pyfields_view(Seq::<(String, PyTypeInfo)>::empty()) =~= Seq::<(Seq<char>, PyTy)>::empty());
        r
    }
}

/// A description with the number of its Python class set.
pub open spec fn with_class(t: PyTy, class_id: u64) -> PyTy {
    PyTy { class_id: Some(class_id), ..t }
}

pub open spec fn opt_with_class(t: Option<PyTy>, class_id: u64) -> Option<PyTy> {
    match t {
        Some(x) => Some(with_class(x, class_id)),
        None => None,
    }
}

impl PyTypeInfo {
    /// A type alias whose value is a `Union`: the alias's name (`Union` when
    /// it has none) over the union's arguments, for the class numbered `class_id`.
    pub fn union_alias(alias_name: Option<String>, args: Vec<PyTypeInfo>, class_id: u64) -> (r: Self)
        ensures
            r@ == with_class(
                plain_ty(
                    PyTypeKind::Union,
                    or_default(opt_str_view(alias_name), "Union"@),
                    Some("typing"@),
                    Some("Union"@),
                    pytys_view(args@),
                    false,
                ),
                class_id,
            ),
    {
        Self::union_alias_of(alias_name, args).with_class_id(class_id)
    }

    /// The list or tuple that `repr_sequence_kind` found, over its arguments.
    pub fn sequence_type(kind: PyTypeKind, args: Vec<PyTypeInfo>, class_id: u64) -> (r: Self)
        requires
            kind == PyTypeKind::List || kind == PyTypeKind::Tuple,
        ensures
            r@ == with_class(
                if kind == PyTypeKind::List {
                    plain_ty(PyTypeKind::List, "list"@, Some("typing"@), Some("list"@), pytys_view(args@), false)
                } else {
                    plain_ty(PyTypeKind::Tuple, "tuple"@, Some("typing"@), Some("tuple"@), pytys_view(args@), false)
                },
                class_id,
            ),
    {
        Self::sequence_type_of(kind, args).with_class_id(class_id)
    }

    /// A parameterised annotation by the name of its `__origin__`, its module
    /// and its (already read) arguments, for the class numbered `class_id`.
    pub fn from_origin(origin: String, module: Option<String>, args: Vec<PyTypeInfo>, class_id: u64) -> (r: Self)
        ensures
            r@ == with_class(origin_ty(origin@, opt_str_view(module), pytys_view(args@)), class_id),
    {
        Self::from_origin_of(origin, module, args).with_class_id(class_id)
    }

    /// A builtin type by its `__name__`; `None` for any other name.
    pub fn builtin_type(name_attr: &str, module: Option<String>, class_id: u64) -> (r: Option<Self>)
        ensures
            opt_pyty(r) == opt_with_class(builtin_ty(name_attr@, opt_str_view(module)), class_id),
    {
        match Self::builtin_type_of(name_attr, module) {
            Some(t) => Some(t.with_class_id(class_id)),
            None => None,
        }
    }

    /// Any other named type, given its annotated fields (when it has
    /// `__annotations__`) and whether it has `__bases__`.
    pub fn user_type(
        name_attr: String,
        module: Option<String>,
        fields: Option<Vec<(String, PyTypeInfo)>>,
        has_bases: bool,
        class_id: u64,
    ) -> (r: Self)
        ensures
            r@ == with_class(user_ty(name_attr@, opt_str_view(module), opt_fields_view(fields), has_bases), class_id),
    {
        Self::user_type_of(name_attr, module, fields, has_bases).with_class_id(class_id)
    }
}


// ───────────────────────── matching parsed XML values ─────────────────────────

/// A parsed XML value: text, or an element with its tag, its attributes and
/// its children.
#[derive(Debug)]
pub enum XmlValue {
    Text(String),
    Element(String, Vec<(String, String)>, Vec<XmlValue>),
}

/// Mathematical value of an [`XmlValue`].
pub enum XmlV {
    Text(Seq<char>),
    Element(Seq<char>, Seq<(Seq<char>, Seq<char>)>, Seq<XmlV>),
}

pub open spec fn xml_view(v: XmlValue) -> XmlV
    decreases v,
{
    match v {
        XmlValue::Text(s) => XmlV::Text(s@),
        XmlValue::Element(n, a, c) => XmlV::Element(
            n@,
            a@.map_values(|e: (String, String)| (e.0@, e.1@)),
            xmls_view(c@),
        ),
    }
}

pub open spec fn xmls_view(s: Seq<XmlValue>) -> Seq<XmlV>
    decreases s,
{
    if s.len() == 0 {
        Seq::empty()
    } else {
        xmls_view(s.drop_last()).push(xml_view(s.last()))
    }
}

impl View for XmlValue {
    type V = XmlV;

    open spec fn view(&self) -> XmlV {
        xml_view(*self)
    }
}

proof fn lemma_xmls_view(s: Seq<XmlValue>)
    ensures
        xmls_view(s).len() == s.len(),
        forall|i: int| 0 <= i < s.len() ==> #[trigger] xmls_view(s)[i] == xml_view(s[i]),
    decreases s.len(),
{
    if s.len() > 0 {
        lemma_xmls_view(s.drop_last());
    }
}

pub open spec fn ascii_digit(c: char) -> bool {
    '0' <= c <= '9'
}

pub open spec fn all_digits(s: Seq<char>) -> bool {
    forall|i: int| 0 <= i < s.len() ==> ascii_digit(#[trigger] s[i])
}

/// `c` in lower case, where it is an ASCII letter.
pub open spec fn ascii_lower(c: char) -> char {
    if 'A' <= c <= 'Z' {
        ((c as u32) + 32) as char
    } else {
        c
    }
}

/// `s` equals `word` (in lower case) when lowercased.
pub open spec fn lower_is(s: Seq<char>, word: Seq<char>) -> bool {
    s.len() == word.len() && forall|i: int| 0 <= i < s.len() ==> #[trigger] ascii_lower(s[i]) == word[i]
}

/// The first position at or after `i` that holds neither a digit nor a `.`.
pub open spec fn mantissa_end(s: Seq<char>, i: int) -> int
    decreases s.len() - i,
{
    if i >= s.len() {
        s.len() as int
    } else if ascii_digit(s[i]) || s[i] == '.' {
        mantissa_end(s, i + 1)
    } else {
        i
    }
}

/// Digits with at most one `.` among them, and at least one digit.
pub open spec fn mantissa_ok(m: Seq<char>) -> bool {
    let p = crate::tag_finder::find_from(m, '.', 0);
    if p >= m.len() {
        m.len() >= 1 && all_digits(m)
    } else {
        all_digits(m.take(p)) && all_digits(m.skip(p + 1)) && m.len() >= 2
    }
}

/// Nothing, or `e` (or `E`), an optional sign and at least one digit.
pub open spec fn exponent_ok(x: Seq<char>) -> bool {
    x.len() == 0 || (x.len() >= 2 && (x[0] == 'e' || x[0] == 'E') && {
        let y = x.drop_first();
        let z = if y[0] == '+' || y[0] == '-' {
            y.drop_first()
        } else {
            y
        };
        z.len() >= 1 && all_digits(z)
    })
}

/// Whether `str::parse::<f64>` accepts `s`: as std documents it, an optional
/// sign, then `inf`, `infinity` or `nan` in any case, or digits with an
/// optional `.` (and at least one digit) followed by an optional exponent.
pub open spec fn float_syntax(s: Seq<char>) -> bool {
    let b = if s.len() > 0 && (s[0] == '+' || s[0] == '-') {
        s.drop_first()
    } else {
        s
    };
    let e = mantissa_end(b, 0);
    lower_is(b, "inf"@) || lower_is(b, "infinity"@) || lower_is(b, "nan"@) || (mantissa_ok(b.take(e)) && exponent_ok(
        b.skip(e),
    ))
}

/// Whether an XML value fits a type: anything fits `Any`; text fits a
/// string, a whole number (as `str::parse::<i64>` reads it), a float (as
/// `str::parse::<f64>` reads it) or a boolean (`true` or `false`); an
/// element fits a class, and a list whose element type (if it has one)
/// every child fits.
pub open spec fn matches_spec(t: PyTy, v: XmlV) -> bool
    decreases v, 1nat,
{
    match v {
        XmlV::Text(s) => match t.kind {
            PyTypeKind::Any => true,
            PyTypeKind::String => true,
            PyTypeKind::Integer => crate::wail_repair::std_i64_spec(s) is Some,
            PyTypeKind::Float => float_syntax(s),
            PyTypeKind::Boolean => s == "true"@ || s == "false"@,
            _ => false,
        },
        XmlV::Element(_, _, cs) => match t.kind {
            PyTypeKind::Any => true,
            PyTypeKind::List => t.args.len() == 0 || all_match(t.args[0], cs),
            PyTypeKind::Class => true,
            _ => false,
        },
    }
}

pub open spec fn all_match(t: PyTy, cs: Seq<XmlV>) -> bool
    decreases cs, 0nat,
{
    if cs.len() == 0 {
        true
    } else {
        all_match(t, cs.drop_last()) && matches_spec(t, cs.last())
    }
}

fn all_digits_in(s: &[char], from: usize, to: usize) -> (r: bool)
    requires
        from <= to <= s@.len(),
    ensures
        r == all_digits(s@.subrange(from as int, to as int)),
{
    let mut i = from;
    while i < to
        invariant
            from <= i <= to,
            to <= s@.len(),
            all_digits(s@.subrange(from as int, i as int)),
        decreases to - i,
    {
        if !('0' <= s[i] && s[i] <= '9') {
            assert(s@.subrange(from as int, to as int)[i - from] == s@[i as int]);
            return false;
        }
        assert forall|j: int| 0 <= j < i + 1 - from implies ascii_digit(#[trigger] s@.subrange(from as int, i + 1)[j]) by {
            if j < i - from {
                assert(s@.subrange(from as int, i + 1)[j] == s@.subrange(from as int, i as int)[j]);
            }
        }
        i += 1;
    }
    true
}

fn lower_is_lit(s: &[char], word: &str) -> (r: bool)
    ensures
        r == lower_is(s@, word@),
{
    let w = chars_of(word);
    if s.len() != w.len() {
        return false;
    }
    let mut i: usize = 0;
    while i < s.len()
        invariant
            i <= s@.len(),
            s@.len() == w@.len(),
            w@ == word@,
            forall|j: int| 0 <= j < i ==> #[trigger] ascii_lower(s@[j]) == w@[j],
        decreases s@.len() - i,
    {
        let c = s[i];
        let lc = if 'A' <= c && c <= 'Z' {
            proof {
                assert(('A' as u32) <= (c as u32) <= ('Z' as u32));
            }
            char_from_ascii((c as u32) + 32)
        } else {
            c
        };
        assert(lc == ascii_lower(s@[i as int]));
        if lc != w[i] {
            return false;
        }
        i += 1;
    }
    true
}

/// The character with an ASCII code.
fn char_from_ascii(v: u32) -> (r: char)
    requires
        v < 128,
    ensures
        r == v as char,
{
    let b = v as u8;
    proof {
        assert(b as u32 == v);
    }
    b as char
}

/// Whether `str::parse::<f64>` accepts `s` (see [`float_syntax`]).
pub fn float_syntax_ok(s: &[char]) -> (r: bool)
    ensures
        r == float_syntax(s@),
{
    let b = if s.len() > 0 && (s[0] == '+' || s[0] == '-') {
        slice_subrange(s, 1, s.len())
    } else {
        s
    };
    assert(b@ == (if s@.len() > 0 && (s@[0] == '+' || s@[0] == '-') {
        s@.drop_first()
    } else {
        s@
    }));
    if lower_is_lit(b, "inf") || lower_is_lit(b, "infinity") || lower_is_lit(b, "nan") {
        return true;
    }
    let mut e: usize = 0;
    while e < b.len() && (('0' <= b[e] && b[e] <= '9') || b[e] == '.')
        invariant
            e <= b@.len(),
            mantissa_end(b@, e as int) == mantissa_end(b@, 0),
        decreases b@.len() - e,
    {
        e += 1;
    }
    let m = slice_subrange(b, 0, e);
    assert(m@ =~= b@.take(e as int));
    let p = find_char_in(m, '.', 0);
    proof {
        lemma_find_from(m@, '.', 0);
    }
    let mok = if p >= m.len() {
        m.len() >= 1 && all_digits_in(m, 0, m.len())
    } else {
        all_digits_in(m, 0, p) && all_digits_in(m, p + 1, m.len()) && m.len() >= 2
    };
    proof {
        assert(m@.subrange(0, m@.len() as int) =~= m@);
        if p < m.len() {
            assert(m@.subrange(0, p as int) =~= m@.take(p as int));
            assert(m@.subrange(p + 1, m@.len() as int) =~= m@.skip(p + 1));
        }
    }
    if !mok {
        return false;
    }
    let x = slice_subrange(b, e, b.len());
    assert(x@ =~= b@.skip(e as int));
    if x.len() == 0 {
        return true;
    }
    if x.len() < 2 || !(x[0] == 'e' || x[0] == 'E') {
        return false;
    }
    let start: usize = if x[1] == '+' || x[1] == '-' {
        2
    } else {
        1
    };
    proof {
        let y = x@.drop_first();
        assert(y[0] == x@[1]);
        let z = if y[0] == '+' || y[0] == '-' {
            y.drop_first()
        } else {
            y
        };
        assert(z =~= x@.subrange(start as int, x@.len() as int));
    }
    x.len() >= start + 1 && all_digits_in(x, start, x.len())
}

impl PyTypeInfo {
    /// Whether an XML value fits this type (see [`matches_spec`]).
    pub fn matches(&self, value: &XmlValue) -> (r: bool)
        ensures
            r == matches_spec(self@, value@),
        decreases value,
    {
        match value {
            XmlValue::Text(s) => {
                let cs = chars_of(s.as_str());
                match self.kind {
                    PyTypeKind::Any => true,
                    PyTypeKind::String => true,
                    PyTypeKind::Integer => crate::wail_repair::std_parse_i64(cs.as_slice()).is_some(),
                    PyTypeKind::Float => float_syntax_ok(cs.as_slice()),
                    PyTypeKind::Boolean => {
                        proof {
                            reveal_strlit("true");
                            reveal_strlit("false");
                        }
                        eq_lit(cs.as_slice(), "true") || eq_lit(cs.as_slice(), "false")
                    },
                    _ => false,
                }
            },
            XmlValue::Element(tag, attrs, children) => match self.kind {
                PyTypeKind::Any => true,
                PyTypeKind::Class => true,
                PyTypeKind::List => {
                    if self.args.len() == 0 {
                        return true;
                    }
                    let t = &self.args[0];
                    proof {
                        assert(*value == XmlValue::Element(*tag, *attrs, *children));
                        assert(value@ == XmlV::Element(tag@, attrs@.map_values(|e: (String, String)| (e.0@, e.1@)), xmls_view(children@)));
                        lemma_pytys_index(self.args@);
                        lemma_xmls_view(children@);
                    }
                    let ghost tv = self@.args[0];
                    assert(tv == t@);
                    let mut i: usize = 0;
                    while i < children.len()
                        invariant
                            i <= children@.len(),
                            tv == t@,
                            *value == XmlValue::Element(*tag, *attrs, *children),
                            value@ == XmlV::Element(tag@, attrs@.map_values(|e: (String, String)| (e.0@, e.1@)), xmls_view(children@)),
                            self@.kind == PyTypeKind::List,
                            self@.args.len() > 0,
                            self@.args[0] == tv,
                            xmls_view(children@).len() == children@.len(),
                            forall|j: int| 0 <= j < children@.len() ==> #[trigger] xmls_view(children@)[j] == xml_view(children@[j]),
                            all_match(tv, xmls_view(children@).take(i as int)),
                        decreases children@.len() - i,
                    {
                        proof {
                            assert(decreases_to!(*value => children@[i as int]));
                        }
                        let ok = t.matches(&children[i]);
                        let ghost cv = xmls_view(children@);
                        assert(cv.take(i + 1).drop_last() =~= cv.take(i as int));
                        assert(cv.take(i + 1).last() == cv[i as int]);
                        if !ok {
                            proof {
                                assert(!matches_spec(tv, cv[i as int]));
                                assert(!all_match(tv, cv.take(i + 1)));
                                lemma_all_match_prefix(tv, cv, i + 1);
                            }
                            return false;
                        }
                        i += 1;
                    }
                    assert(xmls_view(children@).take(i as int) =~= xmls_view(children@));
                    true
                },
                _ => false,
            },
        }
    }
}

/// Every child of a matching list fits, so no prefix fails.
proof fn lemma_all_match_prefix(t: PyTy, cs: Seq<XmlV>, n: int)
    requires
        0 <= n <= cs.len(),
        !all_match(t, cs.take(n)),
    ensures
        !all_match(t, cs),
    decreases cs.len() - n,
{
    if n < cs.len() {
        assert(cs.take(n + 1).drop_last() =~= cs.take(n));
        lemma_all_match_prefix(t, cs, n + 1);
    } else {
        assert(cs.take(n) =~= cs);
    }
}

proof fn lemma_pytys_index(s: Seq<PyTypeInfo>)
    ensures
        pytys_view(s).len() == s.len(),
        forall|i: int| 0 <= i < s.len() ==> #[trigger] pytys_view(s)[i] == pyty_view(s[i]),
    decreases s.len(),
{
    if s.len() > 0 {
        lemma_pytys_index(s.drop_last());
    }
}


// ───────────────────────── XML values as Python values ─────────────────────────

/// A Python value to be built from parsed XML: what the embedding program
/// turns into the Python object. A float is kept as the text
/// `str::parse::<f64>` reads it from.
#[derive(Debug, PartialEq)]
pub enum PyPlan {
    Str(String),
    Int(i64),
    Float(String),
    Bool(bool),
    NoneValue,
    List(Vec<PyPlan>),
    /// a dictionary with string keys, in order
    Dict(Vec<(String, PyPlan)>),
    Tuple(Vec<PyPlan>),
    /// the values added to a new set, in order
    SetOf(Vec<PyPlan>),
    /// a new instance of the class numbered `class_id`, then each field set
    /// on it in order
    Instance { class_id: u64, fields: Vec<(String, PyPlan)> },
}

/// Mathematical value of a [`PyPlan`].
pub enum PlanV {
    Str(Seq<char>),
    Int(i64),
    Float(Seq<char>),
    Bool(bool),
    NoneValue,
    List(Seq<PlanV>),
    Dict(Seq<(Seq<char>, PlanV)>),
    Tuple(Seq<PlanV>),
    SetOf(Seq<PlanV>),
    Instance(u64, Seq<(Seq<char>, PlanV)>),
}

pub open spec fn plan_view(p: PyPlan) -> PlanV
    decreases p,
{
    match p {
        PyPlan::Str(s) => PlanV::Str(s@),
        PyPlan::Int(n) => PlanV::Int(n),
        PyPlan::Float(s) => PlanV::Float(s@),
        PyPlan::Bool(b) => PlanV::Bool(b),
        PyPlan::NoneValue => PlanV::NoneValue,
        PyPlan::List(v) => PlanV::List(plans_view(v@)),
        PyPlan::Dict(es) => PlanV::Dict(plan_entries_view(es@)),
        PyPlan::Tuple(v) => PlanV::Tuple(plans_view(v@)),
        PyPlan::SetOf(v) => PlanV::SetOf(plans_view(v@)),
        PyPlan::Instance { class_id, fields } => PlanV::Instance(class_id, plan_entries_view(fields@)),
    }
}

pub open spec fn plans_view(s: Seq<PyPlan>) -> Seq<PlanV>
    decreases s,
{
    if s.len() == 0 {
        Seq::empty()
    } else {
        plans_view(s.drop_last()).push(plan_view(s.last()))
    }
}

pub open spec fn plan_entries_view(s: Seq<(String, PyPlan)>) -> Seq<(Seq<char>, PlanV)>
    decreases s,
{
    if s.len() == 0 {
        Seq::empty()
    } else {
        plan_entries_view(s.drop_last()).push((s.last().0@, plan_view(s.last().1)))
    }
}

impl View for PyPlan {
    type V = PlanV;

    open spec fn view(&self) -> PlanV {
        plan_view(*self)
    }
}

/// The value of XML text read as a type: a whole number (0 where the text is
/// none), a float (0 where the text is none), a boolean (true for `true`,
/// `1` and `yes` in any case), `None`, or else the text itself.
pub open spec fn text_plan(s: Seq<char>, ty: Option<PyTy>) -> PlanV {
    match ty {
        Some(t) => match t.kind {
            PyTypeKind::Integer => PlanV::Int(
                match crate::wail_repair::std_i64_spec(s) {
                    Some(v) => v,
                    None => 0,
                },
            ),
            PyTypeKind::Float => PlanV::Float(
                if float_syntax(s) {
                    s
                } else {
                    "0"@
                },
            ),
            PyTypeKind::Boolean => {
                let l = crate::types::lower_text(s);
                PlanV::Bool(l == "true"@ || l == "1"@ || l == "yes"@)
            },
            PyTypeKind::NoneType => PlanV::NoneValue,
            _ => PlanV::Str(s),
        },
        None => PlanV::Str(s),
    }
}

/// An XML value read without a type: text as itself, an element as a
/// dictionary of its `name`, its `attrs` (a dictionary of strings) and its
/// `children`, each read in the same way.
pub open spec fn untyped_plan(v: XmlV) -> PlanV
    decreases v, 1nat,
{
    match v {
        XmlV::Text(s) => PlanV::Str(s),
        XmlV::Element(n, attrs, cs) => PlanV::Dict(
            seq![
                ("name"@, PlanV::Str(n)),
                ("attrs"@, PlanV::Dict(attrs.map_values(|a: (Seq<char>, Seq<char>)| (a.0, PlanV::Str(a.1))))),
                ("children"@, PlanV::List(untyped_plans(cs))),
            ],
        ),
    }
}

pub open spec fn untyped_plans(cs: Seq<XmlV>) -> Seq<PlanV>
    decreases cs, 0nat,
{
    if cs.len() == 0 {
        Seq::empty()
    } else {
        untyped_plans(cs.drop_last()).push(untyped_plan(cs.last()))
    }
}

/// XML text read as a type (see [`text_plan`]).
pub fn text_to_plan(s: &String, ty: Option<&PyTypeInfo>) -> (r: PyPlan)
    ensures
        r@ == text_plan(s@, match ty {
            Some(t) => Some(t@),
            None => None,
        }),
{
    match ty {
        None => PyPlan::Str(s.clone()),
        Some(t) => {
            let cs = chars_of(s.as_str());
            match t.kind {
                PyTypeKind::Integer => match crate::wail_repair::std_parse_i64(cs.as_slice()) {
                    Some(v) => PyPlan::Int(v),
                    None => PyPlan::Int(0),
                },
                PyTypeKind::Float => {
                    if float_syntax_ok(cs.as_slice()) {
                        PyPlan::Float(s.clone())
                    } else {
                        PyPlan::Float(String::from_str("0"))
                    }
                },
                PyTypeKind::Boolean => {
                    let l = crate::types::str_to_lower(s.as_str());
                    let lc = chars_of(l.as_str());
                    proof {
                        reveal_strlit("true");
                        reveal_strlit("1");
                        reveal_strlit("yes");
                    }
                    PyPlan::Bool(eq_lit(lc.as_slice(), "true") || eq_lit(lc.as_slice(), "1") || eq_lit(lc.as_slice(), "yes"))
                },
                PyTypeKind::NoneType => PyPlan::NoneValue,
                _ => PyPlan::Str(s.clone()),
            }
        },
    }
}

/// An XML value read without a type (see [`untyped_plan`]).
pub fn untyped_to_plan(v: &XmlValue) -> (r: PyPlan)
    ensures
        r@ == untyped_plan(v@),
    decreases v,
{
    match v {
        XmlValue::Text(s) => PyPlan::Str(s.clone()),
        XmlValue::Element(name, attrs, children) => {
            proof {
                assert(*v == XmlValue::Element(*name, *attrs, *children));
                assert(v@ == XmlV::Element(name@, attrs@.map_values(|e: (String, String)| (e.0@, e.1@)), xmls_view(children@)));
                lemma_xmls_view(children@);
            }
            let ghost av = attrs@.map_values(|e: (String, String)| (e.0@, e.1@));
            let mut ads: Vec<(String, PyPlan)> = Vec::new();
            let mut i: usize = 0;
            while i < attrs.len()
                invariant
                    i <= attrs@.len(),
                    av == attrs@.map_values(|e: (String, String)| (e.0@, e.1@)),
                    plan_entries_view(ads@) == av.take(i as int).map_values(
                        |a: (Seq<char>, Seq<char>)| (a.0, PlanV::Str(a.1)),
                    ),
                decreases attrs@.len() - i,
            {
                let e = (attrs[i].0.clone(), PyPlan::Str(attrs[i].1.clone()));
                let ghost a0 = ads@;
                ads.push(e);
                proof {
                    assert(ads@.drop_last() =~= a0);
                    assert(ads@.last() == e);
                    assert(av[i as int] == (attrs@[i as int].0@, attrs@[i as int].1@));
                    assert(plan_entries_view(ads@) == plan_entries_view(a0).push((e.0@, plan_view(e.1))));
                    assert(av.take(i + 1).map_values(|a: (Seq<char>, Seq<char>)| (a.0, PlanV::Str(a.1))) =~= av.take(
                        i as int,
                    ).map_values(|a: (Seq<char>, Seq<char>)| (a.0, PlanV::Str(a.1))).push((av[i as int].0, PlanV::Str(av[i as int].1))));
                }
                i += 1;
            }
            assert(av.take(i as int) =~= av);
            let ghost cv = xmls_view(children@);
            let mut kids: Vec<PyPlan> = Vec::new();
            let mut j: usize = 0;
            while j < children.len()
                invariant
                    j <= children@.len(),
                    *v == XmlValue::Element(*name, *attrs, *children),
                    v@ == XmlV::Element(name@, attrs@.map_values(|e: (String, String)| (e.0@, e.1@)), xmls_view(children@)),
                    cv == xmls_view(children@),
                    cv.len() == children@.len(),
                    forall|k: int| 0 <= k < children@.len() ==> #[trigger] cv[k] == xml_view(children@[k]),
                    plans_view(kids@) == untyped_plans(cv.take(j as int)),
                decreases children@.len() - j,
            {
                proof {
                    assert(decreases_to!(*v => children@[j as int]));
                }
                let p = untyped_to_plan(&children[j]);
                let ghost k0 = kids@;
                kids.push(p);
                proof {
                    assert(kids@.drop_last() =~= k0);
                    assert(cv.take(j + 1).drop_last() =~= cv.take(j as int));
                }
                j += 1;
            }
            assert(cv.take(j as int) =~= cv);
            let r = PyPlan::Dict(
                vec![
                    (String::from_str("name"), PyPlan::Str(name.clone())),
                    (String::from_str("attrs"), PyPlan::Dict(ads)),
                    (String::from_str("children"), PyPlan::List(kids)),
                ],
            );
            proof {
                let es = r->Dict_0@;
                reveal_with_fuel(plan_entries_view, 4);
                assert(es.drop_last().drop_last().drop_last() =~= Seq::<(String, PyPlan)>::empty());
                assert(es.drop_last().drop_last() =~= seq![es[0]]);
                assert(es.drop_last() =~= seq![es[0], es[1]]);
                assert(plan_entries_view(es) =~= seq![
                    ("name"@, PlanV::Str(name@)),
                    ("attrs"@, PlanV::Dict(av.map_values(|a: (Seq<char>, Seq<char>)| (a.0, PlanV::Str(a.1))))),
                    ("children"@, PlanV::List(untyped_plans(cv))),
                ]);
            }
            r
        },
    }
}


// ───────────────────────── typed conversion of XML values ─────────────────────────

/// The value stored under `k` in a list of named entries (the first such).
pub open spec fn entry_get<V>(s: Seq<(Seq<char>, V)>, k: Seq<char>) -> Option<V> {
    let i = crate::wail_grammar::apos(s, k);
    if i >= 0 {
        Some(s[i].1)
    } else {
        None
    }
}

pub open spec fn attrs_view(a: Seq<(String, String)>) -> Seq<(Seq<char>, Seq<char>)> {
    a.map_values(|e: (String, String)| (e.0@, e.1@))
}

pub open spec fn ty_opt_view(t: Option<&PyTypeInfo>) -> Option<PyTy> {
    match t {
        Some(x) => Some(x@),
        None => None,
    }
}

/// Type argument `i`, if there is one.
pub open spec fn ty_arg(args: Seq<PyTy>, i: int) -> Option<PyTy> {
    if 0 <= i < args.len() {
        Some(args[i])
    } else {
        None
    }
}

/// A type with its `Optional` wrappers taken off (none where an `Optional`
/// has no argument).
pub open spec fn strip_optional(t: PyTy) -> Option<PyTy>
    decreases t,
{
    if t.kind == PyTypeKind::Optional {
        if t.args.len() > 0 {
            strip_optional(t.args[0])
        } else {
            None
        }
    } else {
        Some(t)
    }
}

/// List item text typed by the item's `type` attribute: `int`, `float`,
/// `bool`/`boolean` (true for `true`, `1` and `yes` in any case), else a string.
pub open spec fn typed_by_attr(t: Seq<char>, a: Seq<char>) -> PlanV {
    if a == "int"@ {
        PlanV::Int(
            match crate::wail_repair::std_i64_spec(t) {
                Some(v) => v,
                None => 0,
            },
        )
    } else if a == "float"@ {
        PlanV::Float(
            if float_syntax(t) {
                t
            } else {
                "0"@
            },
        )
    } else if a == "bool"@ || a == "boolean"@ {
        let l = crate::types::lower_text(t);
        PlanV::Bool(l == "true"@ || l == "1"@ || l == "yes"@)
    } else {
        PlanV::Str(t)
    }
}

/// The text of a list or tuple item: typed by the element type where there
/// is one, else by the item's `type` attribute, else a string.
pub open spec fn item_text(t: Seq<char>, et: Option<PyTy>, ia: Seq<(Seq<char>, Seq<char>)>) -> PlanV {
    if et is Some {
        text_plan(t, et)
    } else {
        match entry_get(ia, "type"@) {
            Some(a) => typed_by_attr(t, a),
            None => PlanV::Str(t),
        }
    }
}

/// `<item>text</item>` children read as `et`, in order; other children are
/// skipped.
pub open spec fn text_items(cs: Seq<XmlV>, et: Option<PyTy>) -> Seq<PlanV>
    decreases cs.len(),
{
    if cs.len() == 0 {
        Seq::empty()
    } else {
        let acc = text_items(cs.drop_last(), et);
        match cs.last() {
            XmlV::Element(n, _, ic) => if n == "item"@ && ic.len() == 1 && ic[0] is Text {
                acc.push(text_plan(ic[0]->Text_0, et))
            } else {
                acc
            },
            _ => acc,
        }
    }
}

/// The fields set from child elements holding only text, typed by the
/// class's field types; children naming no field are skipped.
pub open spec fn fields_from(cs: Seq<XmlV>, fs: Seq<(Seq<char>, PyTy)>) -> Seq<(Seq<char>, PlanV)>
    decreases cs.len(),
{
    if cs.len() == 0 {
        Seq::empty()
    } else {
        let acc = fields_from(cs.drop_last(), fs);
        match cs.last() {
            XmlV::Element(n, _, fc) => match entry_get(fs, n) {
                Some(fi) => if fc.len() == 1 && fc[0] is Text {
                    acc.push((n, text_plan(fc[0]->Text_0, Some(fi))))
                } else {
                    acc
                },
                None => acc,
            },
            _ => acc,
        }
    }
}

/// `<item key="k">text</item>` children as dictionary entries (a later key
/// replaces an earlier one in place).
pub open spec fn dict_items(cs: Seq<XmlV>, vt: Option<PyTy>) -> Seq<(Seq<char>, PlanV)>
    decreases cs.len(),
{
    if cs.len() == 0 {
        Seq::empty()
    } else {
        let acc = dict_items(cs.drop_last(), vt);
        match cs.last() {
            XmlV::Element(n, ia, ic) => if n == "item"@ && entry_get(ia, "key"@) is Some && ic.len() == 1
                && ic[0] is Text {
                crate::wail_grammar::ainsert(acc, entry_get(ia, "key"@)->Some_0, text_plan(ic[0]->Text_0, vt))
            } else {
                acc
            },
            _ => acc,
        }
    }
}

/// The first union member named `name` that has a class.
pub open spec fn member_named(args: Seq<PyTy>, name: Seq<char>) -> Option<PyTy>
    decreases args.len(),
{
    if args.len() == 0 {
        None
    } else if args[0].name == name && args[0].class_id is Some {
        Some(args[0])
    } else {
        member_named(args.drop_first(), name)
    }
}

/// An element of a union type: the member its `type` attribute names, else
/// the member its tag names, as an instance with fields from its children;
/// else read without a type.
pub open spec fn union_plan(t: PyTy, v: XmlV) -> PlanV {
    let (n, a, cs) = (v->Element_0, v->Element_1, v->Element_2);
    let by_attr = match entry_get(a, "type"@) {
        Some(ta) => member_named(t.args, ta),
        None => None,
    };
    let m = if by_attr is Some {
        by_attr
    } else {
        member_named(t.args, n)
    };
    match m {
        Some(mt) => PlanV::Instance(mt.class_id->Some_0, fields_from(cs, mt.fields)),
        None => untyped_plan(v),
    }
}

pub open spec fn has_element(cs: Seq<XmlV>) -> bool {
    exists|i: int| 0 <= i < cs.len() && #[trigger] cs[i] is Element
}

pub open spec fn no_class_error() -> Seq<char> {
    "Type has no associated Python class"@
}

/// An XML value read as a type: text as [`text_plan`] says; an element as
/// an instance of a class, a list, a dictionary, a tuple or a set of its
/// `<item>` children, a member of a union, or (for any other type, and
/// without one) as [`untyped_plan`] says. `Optional` types read as their
/// argument. The error is a class type without a class.
pub open spec fn xml_plan(v: XmlV, ty: Option<PyTy>) -> Result<PlanV, Seq<char>>
    decreases v, 2nat,
{
    match v {
        XmlV::Text(s) => Ok(text_plan(s, ty)),
        XmlV::Element(n, a, cs) => {
            let st = match ty {
                Some(t0) => strip_optional(t0),
                None => None,
            };
            match st {
                None => Ok(untyped_plan(v)),
                Some(t) => if t.kind == PyTypeKind::Class {
                    match t.class_id {
                        None => Err(no_class_error()),
                        Some(id) => match instance_spec(t.fields, a, cs) {
                            Ok(fs) => Ok(PlanV::Instance(id, fs)),
                            Err(e) => Err(e),
                        },
                    }
                } else if t.kind == PyTypeKind::List {
                    match list_plan(cs, ty_arg(t.args, 0)) {
                        Ok(items) => Ok(PlanV::List(items)),
                        Err(e) => Err(e),
                    }
                } else if t.kind == PyTypeKind::Dict {
                    Ok(PlanV::Dict(dict_items(cs, ty_arg(t.args, 1))))
                } else if t.kind == PyTypeKind::Tuple {
                    let homog = t.args.len() == 2 && t.args[1].name == "Ellipsis"@;
                    match tuple_plan(cs, t.args, homog) {
                        Ok(items) => Ok(PlanV::Tuple(items)),
                        Err(e) => Err(e),
                    }
                } else if t.kind == PyTypeKind::SetType {
                    Ok(PlanV::SetOf(text_items(cs, ty_arg(t.args, 0))))
                } else if t.kind == PyTypeKind::Union {
                    Ok(union_plan(t, v))
                } else {
                    Ok(untyped_plan(v))
                },
            }
        },
    }
}

/// The items of a list: `<item>` children with one text child read as
/// [`item_text`] says, other elements read as the element type.
pub open spec fn list_plan(cs: Seq<XmlV>, et: Option<PyTy>) -> Result<Seq<PlanV>, Seq<char>>
    decreases cs, 0nat,
{
    if cs.len() == 0 {
        Ok(Seq::empty())
    } else {
        match list_plan(cs.drop_last(), et) {
            Err(e) => Err(e),
            Ok(acc) => match cs.last() {
                XmlV::Element(n, ia, ic) => if n == "item"@ && ic.len() == 1 {
                    match ic[0] {
                        XmlV::Text(t) => Ok(acc.push(item_text(t, et, ia))),
                        _ => Ok(acc),
                    }
                } else {
                    match xml_plan(cs.last(), et) {
                        Ok(p) => Ok(acc.push(p)),
                        Err(e) => Err(e),
                    }
                },
                _ => Ok(acc),
            },
        }
    }
}

/// The type of tuple position `i`.
pub open spec fn tuple_type(args: Seq<PyTy>, homog: bool, i: int) -> Option<PyTy> {
    if homog {
        ty_arg(args, 0)
    } else {
        ty_arg(args, i)
    }
}

/// The items of a tuple: each `<item>` child (at position `i` among all
/// children) read as the position's type: one with element children as an
/// instance of a class type (fields from its text children) or as the type,
/// one with a single text child as [`item_text`] says.
pub open spec fn tuple_plan(cs: Seq<XmlV>, args: Seq<PyTy>, homog: bool) -> Result<Seq<PlanV>, Seq<char>>
    decreases cs, 0nat,
{
    if cs.len() == 0 {
        Ok(Seq::empty())
    } else {
        match tuple_plan(cs.drop_last(), args, homog) {
            Err(e) => Err(e),
            Ok(acc) => {
                let c = cs.last();
                let et = tuple_type(args, homog, cs.len() - 1);
                match c {
                    XmlV::Element(n, ia, ic) => if n != "item"@ {
                        Ok(acc)
                    } else if ic.len() > 0 && has_element(ic) {
                        if et is Some && et->Some_0.kind == PyTypeKind::Class && et->Some_0.class_id is Some {
                            Ok(acc.push(PlanV::Instance(et->Some_0.class_id->Some_0, fields_from(ic, et->Some_0.fields))))
                        } else {
                            match xml_plan(c, et) {
                                Ok(p) => Ok(acc.push(p)),
                                Err(e) => Err(e),
                            }
                        }
                    } else if ic.len() == 1 && ic[0] is Text {
                        Ok(acc.push(item_text(ic[0]->Text_0, et, ia)))
                    } else {
                        Ok(acc)
                    },
                    _ => Ok(acc),
                }
            },
        }
    }
}

/// The fields an instance of a class with field types `fs` gets from an
/// element's attributes and children (see [`inst_children`]): each
/// attribute, typed where it names a field, else as a string.
pub open spec fn instance_spec(fs: Seq<(Seq<char>, PyTy)>, a: Seq<(Seq<char>, Seq<char>)>, cs: Seq<XmlV>) -> Result<
    Seq<(Seq<char>, PlanV)>,
    Seq<char>,
>
    decreases cs, 1nat,
{
    let from_attrs = a.map_values(
        |e: (Seq<char>, Seq<char>)|
            match entry_get(fs, e.0) {
                Some(fi) => (e.0, text_plan(e.1, Some(fi))),
                None => (e.0, PlanV::Str(e.1)),
            },
    );
    match inst_children(fs, cs) {
        Ok(more) => Ok(from_attrs + more),
        Err(e) => Err(e),
    }
}

/// The fields set from child elements naming a field: a list field read as
/// its type; an optional list field from its `<item>` text children; another
/// optional field as its argument; a union field as the member the child's
/// `type` attribute names (an instance with fields from its text children)
/// or else as the union; a field with one child from that child's text (an
/// element child sets nothing); any other as the field's type.
pub open spec fn inst_children(fs: Seq<(Seq<char>, PyTy)>, cs: Seq<XmlV>) -> Result<Seq<(Seq<char>, PlanV)>, Seq<char>>
    decreases cs, 0nat,
{
    if cs.len() == 0 {
        Ok(Seq::empty())
    } else {
        match inst_children(fs, cs.drop_last()) {
            Err(e) => Err(e),
            Ok(acc) => {
                let c = cs.last();
                match c {
                    XmlV::Element(cn, ca, gc) => match entry_get(fs, cn) {
                        None => Ok(acc),
                        Some(fi) => {
                            let one: Option<Result<PlanV, Seq<char>>> = if fi.kind == PyTypeKind::List {
                                Some(xml_plan(c, Some(fi)))
                            } else if fi.kind == PyTypeKind::Optional {
                                if fi.args.len() > 0 {
                                    if fi.args[0].kind == PyTypeKind::List {
                                        Some(Ok(PlanV::List(text_items(gc, ty_arg(fi.args[0].args, 0)))))
                                    } else {
                                        Some(xml_plan(c, Some(fi.args[0])))
                                    }
                                } else {
                                    Some(xml_plan(c, Some(fi)))
                                }
                            } else if fi.kind == PyTypeKind::Union {
                                let m = match entry_get(ca, "type"@) {
                                    Some(ta) => member_named(fi.args, ta),
                                    None => None,
                                };
                                match m {
                                    Some(mt) => Some(Ok(PlanV::Instance(mt.class_id->Some_0, fields_from(gc, mt.fields)))),
                                    None => Some(xml_plan(c, Some(fi))),
                                }
                            } else if gc.len() == 1 {
                                match gc[0] {
                                    XmlV::Text(t) => Some(Ok(text_plan(t, Some(fi)))),
                                    _ => None,
                                }
                            } else {
                                Some(xml_plan(c, Some(fi)))
                            };
                            match one {
                                None => Ok(acc),
                                Some(Ok(p)) => Ok(acc.push((cn, p))),
                                Some(Err(e)) => Err(e),
                            }
                        },
                    },
                    _ => Ok(acc),
                }
            },
        }
    }
}


proof fn lemma_pyfields_index(s: Seq<(String, PyTypeInfo)>)
    ensures
        pyfields_view(s).len() == s.len(),
        forall|i: int| 0 <= i < s.len() ==> #[trigger] pyfields_view(s)[i] == (s[i].0@, pyty_view(s[i].1)),
    decreases s.len(),
{
    if s.len() > 0 {
        lemma_pyfields_index(s.drop_last());
    }
}

proof fn lemma_plans_push(s: Seq<PyPlan>, p: PyPlan)
    ensures
        plans_view(s.push(p)) == plans_view(s).push(plan_view(p)),
{
    assert(s.push(p).drop_last() =~= s);
}

proof fn lemma_entries_push(s: Seq<(String, PyPlan)>, e: (String, PyPlan))
    ensures
        plan_entries_view(s.push(e)) == plan_entries_view(s).push((e.0@, plan_view(e.1))),
{
    assert(s.push(e).drop_last() =~= s);
}

proof fn lemma_entries_index(s: Seq<(String, PyPlan)>)
    ensures
        plan_entries_view(s).len() == s.len(),
        forall|i: int| 0 <= i < s.len() ==> #[trigger] plan_entries_view(s)[i] == (s[i].0@, plan_view(s[i].1)),
    decreases s.len(),
{
    if s.len() > 0 {
        lemma_entries_index(s.drop_last());
    }
}

/// The attribute named `k`, if any (the first such).
fn attr_lookup<'a>(a: &'a Vec<(String, String)>, k: &str) -> (r: Option<&'a String>)
    ensures
        match r {
            Some(v) => entry_get(attrs_view(a@), k@) == Some(v@),
            None => entry_get(attrs_view(a@), k@) is None,
        },
{
    let key = String::from_str(k);
    proof {
        crate::wail_grammar::lemma_apos_keys(attrs_view(a@), a@.map_values(|e: (String, String)| (e.0@, ())), k@);
        crate::wail_grammar::lemma_apos(attrs_view(a@), k@);
    }
    match crate::wail_grammar::find_in(a, &key) {
        Some(i) => Some(&a[i].1),
        None => None,
    }
}

/// The type of the field named `k`, if any (the first such).
fn field_lookup<'a>(fs: &'a Vec<(String, PyTypeInfo)>, k: &String) -> (r: Option<&'a PyTypeInfo>)
    ensures
        ty_opt_view(r) == entry_get(pyfields_view(fs@), k@),
{
    proof {
        lemma_pyfields_index(fs@);
        crate::wail_grammar::lemma_apos_keys(pyfields_view(fs@), fs@.map_values(|e: (String, PyTypeInfo)| (e.0@, ())), k@);
        crate::wail_grammar::lemma_apos(pyfields_view(fs@), k@);
    }
    match crate::wail_grammar::find_in(fs, k) {
        Some(i) => Some(&fs[i].1),
        None => None,
    }
}

/// The first member named `name` that has a class (see [`member_named`]).
fn member_lookup<'a>(args: &'a Vec<PyTypeInfo>, name: &String) -> (r: Option<&'a PyTypeInfo>)
    ensures
        ty_opt_view(r) == member_named(pytys_view(args@), name@),
{
    let ghost pv = pytys_view(args@);
    proof {
        lemma_pytys_index(args@);
        assert(pv.subrange(0, pv.len() as int) =~= pv);
    }
    let mut i: usize = 0;
    while i < args.len()
        invariant
            i <= args@.len(),
            pv == pytys_view(args@),
            pv.len() == args@.len(),
            forall|j: int| 0 <= j < args@.len() ==> #[trigger] pv[j] == pyty_view(args@[j]),
            member_named(pv.subrange(i as int, pv.len() as int), name@) == member_named(pv, name@),
        decreases args@.len() - i,
    {
        let ghost rest = pv.subrange(i as int, pv.len() as int);
        assert(rest[0] == pv[i as int]);
        assert(rest.drop_first() =~= pv.subrange(i + 1, pv.len() as int));
        if args[i].name == *name && args[i].class_id.is_some() {
            return Some(&args[i]);
        }
        i += 1;
    }
    assert(pv.subrange(i as int, pv.len() as int) =~= Seq::<PyTy>::empty());
    None
}

proof fn lemma_member_named(args: Seq<PyTy>, name: Seq<char>)
    ensures
        member_named(args, name) matches Some(m) ==> m.class_id is Some,
    decreases args.len(),
{
    if args.len() > 0 {
        lemma_member_named(args.drop_first(), name);
    }
}

proof fn lemma_entries_append(a: Seq<(String, PyPlan)>, b: Seq<(String, PyPlan)>)
    ensures
        plan_entries_view(a + b) == plan_entries_view(a) + plan_entries_view(b),
    decreases b.len(),
{
    if b.len() == 0 {
        assert(a + b =~= a);
        assert(plan_entries_view(a) + plan_entries_view(b) =~= plan_entries_view(a));
    } else {
        lemma_entries_append(a, b.drop_last());
        assert((a + b).drop_last() =~= a + b.drop_last());
        assert((a + b).last() == b.last());
        assert(plan_entries_view(a) + plan_entries_view(b) =~= (plan_entries_view(a) + plan_entries_view(b.drop_last())).push(
            (b.last().0@, plan_view(b.last().1)),
        ));
    }
}

fn strip_exec(t: &PyTypeInfo) -> (r: Option<&PyTypeInfo>)
    ensures
        ty_opt_view(r) == strip_optional(t@),
    decreases t,
{
    match t.kind {
        PyTypeKind::Optional => {
            if t.args.len() > 0 {
                proof {
                    lemma_pytys_index(t.args@);
                    assert(decreases_to!(*t => t.args@[0]));
                }
                strip_exec(&t.args[0])
            } else {
                None
            }
        },
        _ => Some(t),
    }
}

fn arg_at(args: &Vec<PyTypeInfo>, i: usize) -> (r: Option<&PyTypeInfo>)
    ensures
        ty_opt_view(r) == ty_arg(pytys_view(args@), i as int),
{
    proof {
        lemma_pytys_index(args@);
    }
    if i < args.len() {
        Some(&args[i])
    } else {
        None
    }
}

fn lit(s: &str) -> (r: String)
    ensures
        r@ == s@,
{
    String::from_str(s)
}

fn str_eq(a: &String, b: &str) -> (r: bool)
    ensures
        r == (a@ == b@),
{
    let x = chars_of(a.as_str());
    eq_lit(x.as_slice(), b)
}

/// See [`typed_by_attr`].
fn typed_by_attr_exec(t: &String, a: &String) -> (r: PyPlan)
    ensures
        r@ == typed_by_attr(t@, a@),
{
    let cs = chars_of(t.as_str());
    if str_eq(a, "int") {
        match crate::wail_repair::std_parse_i64(cs.as_slice()) {
            Some(v) => PyPlan::Int(v),
            None => PyPlan::Int(0),
        }
    } else if str_eq(a, "float") {
        if float_syntax_ok(cs.as_slice()) {
            PyPlan::Float(t.clone())
        } else {
            PyPlan::Float(lit("0"))
        }
    } else if str_eq(a, "bool") || str_eq(a, "boolean") {
        let l = crate::types::str_to_lower(t.as_str());
        PyPlan::Bool(str_eq(&l, "true") || str_eq(&l, "1") || str_eq(&l, "yes"))
    } else {
        PyPlan::Str(t.clone())
    }
}

/// See [`item_text`].
fn item_text_exec(t: &String, et: Option<&PyTypeInfo>, ia: &Vec<(String, String)>) -> (r: PyPlan)
    ensures
        r@ == item_text(t@, ty_opt_view(et), attrs_view(ia@)),
{
    if et.is_some() {
        text_to_plan(t, et)
    } else {
        match attr_lookup(ia, "type") {
            Some(a) => typed_by_attr_exec(t, a),
            None => PyPlan::Str(t.clone()),
        }
    }
}

/// See [`text_items`].
fn text_items_exec(cs: &Vec<XmlValue>, et: Option<&PyTypeInfo>) -> (r: Vec<PyPlan>)
    ensures
        plans_view(r@) == text_items(xmls_view(cs@), ty_opt_view(et)),
{
    let ghost cv = xmls_view(cs@);
    proof {
        lemma_xmls_view(cs@);
    }
    let mut out: Vec<PyPlan> = Vec::new();
    let mut i: usize = 0;
    while i < cs.len()
        invariant
            i <= cs@.len(),
            cv == xmls_view(cs@),
            cv.len() == cs@.len(),
            forall|j: int| 0 <= j < cs@.len() ==> #[trigger] cv[j] == xml_view(cs@[j]),
            plans_view(out@) == text_items(cv.take(i as int), ty_opt_view(et)),
        decreases cs@.len() - i,
    {
        assert(cv.take(i + 1).drop_last() =~= cv.take(i as int));
        assert(cv.take(i + 1).last() == cv[i as int]);
        match &cs[i] {
            XmlValue::Element(n, _, ic) => {
                proof {
                    lemma_xmls_view(ic@);
                }
                if str_eq(n, "item") && ic.len() == 1 {
                    match &ic[0] {
                        XmlValue::Text(t) => {
                            let p = text_to_plan(t, et);
                            proof {
                                lemma_plans_push(out@, p);
                            }
                            out.push(p);
                        },
                        _ => {},
                    }
                }
            },
            _ => {},
        }
        i += 1;
    }
    assert(cv.take(i as int) =~= cv);
    out
}

/// See [`fields_from`].
fn fields_from_exec(cs: &Vec<XmlValue>, fs: &Vec<(String, PyTypeInfo)>) -> (r: Vec<(String, PyPlan)>)
    ensures
        plan_entries_view(r@) == fields_from(xmls_view(cs@), pyfields_view(fs@)),
{
    let ghost cv = xmls_view(cs@);
    proof {
        lemma_xmls_view(cs@);
    }
    let mut out: Vec<(String, PyPlan)> = Vec::new();
    let mut i: usize = 0;
    while i < cs.len()
        invariant
            i <= cs@.len(),
            cv == xmls_view(cs@),
            cv.len() == cs@.len(),
            forall|j: int| 0 <= j < cs@.len() ==> #[trigger] cv[j] == xml_view(cs@[j]),
            plan_entries_view(out@) == fields_from(cv.take(i as int), pyfields_view(fs@)),
        decreases cs@.len() - i,
    {
        assert(cv.take(i + 1).drop_last() =~= cv.take(i as int));
        assert(cv.take(i + 1).last() == cv[i as int]);
        match &cs[i] {
            XmlValue::Element(n, _, fc) => {
                proof {
                    lemma_xmls_view(fc@);
                }
                match field_lookup(fs, n) {
                    Some(fi) => {
                        if fc.len() == 1 {
                            match &fc[0] {
                                XmlValue::Text(t) => {
                                    let e = (n.clone(), text_to_plan(t, Some(fi)));
                                    proof {
                                        lemma_entries_push(out@, e);
                                    }
                                    out.push(e);
                                },
                                _ => {},
                            }
                        }
                    },
                    None => {},
                }
            },
            _ => {},
        }
        i += 1;
    }
    assert(cv.take(i as int) =~= cv);
    out
}

/// A dictionary entry set: a present key keeps its place.
fn dict_set(out: &mut Vec<(String, PyPlan)>, k: String, v: PyPlan)
    ensures
        plan_entries_view(final(out)@) == crate::wail_grammar::ainsert(plan_entries_view(old(out)@), k@, v@),
{
    let ghost a0 = plan_entries_view(out@);
    proof {
        lemma_entries_index(out@);
        crate::wail_grammar::lemma_apos_keys(a0, out@.map_values(|e: (String, PyPlan)| (e.0@, ())), k@);
        crate::wail_grammar::lemma_apos(a0, k@);
    }
    match crate::wail_grammar::find_in(out, &k) {
        Some(i) => {
            let ghost vv = v@;
            out.set(i, (k, v));
            proof {
                lemma_entries_index(out@);
                assert(plan_entries_view(out@) =~= a0.update(i as int, (k@, vv)));
            }
        },
        None => {
            let e = (k, v);
            proof {
                lemma_entries_push(out@, e);
            }
            out.push(e);
        },
    }
}

/// See [`dict_items`].
fn dict_items_exec(cs: &Vec<XmlValue>, vt: Option<&PyTypeInfo>) -> (r: Vec<(String, PyPlan)>)
    ensures
        plan_entries_view(r@) == dict_items(xmls_view(cs@), ty_opt_view(vt)),
{
    let ghost cv = xmls_view(cs@);
    proof {
        lemma_xmls_view(cs@);
    }
    let mut out: Vec<(String, PyPlan)> = Vec::new();
    let mut i: usize = 0;
    while i < cs.len()
        invariant
            i <= cs@.len(),
            cv == xmls_view(cs@),
            cv.len() == cs@.len(),
            forall|j: int| 0 <= j < cs@.len() ==> #[trigger] cv[j] == xml_view(cs@[j]),
            plan_entries_view(out@) == dict_items(cv.take(i as int), ty_opt_view(vt)),
        decreases cs@.len() - i,
    {
        assert(cv.take(i + 1).drop_last() =~= cv.take(i as int));
        assert(cv.take(i + 1).last() == cv[i as int]);
        match &cs[i] {
            XmlValue::Element(n, ia, ic) => {
                proof {
                    lemma_xmls_view(ic@);
                }
                if str_eq(n, "item") && ic.len() == 1 {
                    match attr_lookup(ia, "key") {
                        Some(k) => match &ic[0] {
                            XmlValue::Text(t) => {
                                let p = text_to_plan(t, vt);
                                dict_set(&mut out, k.clone(), p);
                            },
                            _ => {},
                        },
                        None => {},
                    }
                }
            },
            _ => {},
        }
        i += 1;
    }
    assert(cv.take(i as int) =~= cv);
    out
}

/// See [`union_plan`].
fn union_plan_exec(t: &PyTypeInfo, v: &XmlValue) -> (r: PyPlan)
    requires
        v@ is Element,
    ensures
        r@ == union_plan(t@, v@),
{
    match v {
        XmlValue::Element(n, a, cs) => {
            proof {
                assert(*v == XmlValue::Element(*n, *a, *cs));
                assert(v@ == XmlV::Element(n@, attrs_view(a@), xmls_view(cs@)));
                lemma_pytys_index(t.args@);
                lemma_member_named(t@.args, n@);
                match entry_get(attrs_view(a@), "type"@) {
                    Some(ta) => lemma_member_named(t@.args, ta),
                    None => {},
                }
            }
            let by_attr = match attr_lookup(a, "type") {
                Some(ta) => member_lookup(&t.args, ta),
                None => None,
            };
            let m = if by_attr.is_some() {
                by_attr
            } else {
                member_lookup(&t.args, n)
            };
            match m {
                Some(mt) => {
                    let id = match mt.class_id {
                        Some(id) => id,
                        None => 0,
                    };
                    PyPlan::Instance { class_id: id, fields: fields_from_exec(cs, &mt.fields) }
                },
                None => untyped_to_plan(v),
            }
        },
        XmlValue::Text(_) => PyPlan::NoneValue,
    }
}

pub open spec fn plan_res_view(r: Result<PyPlan, String>) -> Result<PlanV, Seq<char>> {
    match r {
        Ok(p) => Ok(p@),
        Err(e) => Err(e@),
    }
}

pub open spec fn plans_res_view(r: Result<Vec<PyPlan>, String>) -> Result<Seq<PlanV>, Seq<char>> {
    match r {
        Ok(p) => Ok(plans_view(p@)),
        Err(e) => Err(e@),
    }
}

pub open spec fn entries_res_view(r: Result<Vec<(String, PyPlan)>, String>) -> Result<Seq<(Seq<char>, PlanV)>, Seq<char>> {
    match r {
        Ok(p) => Ok(plan_entries_view(p@)),
        Err(e) => Err(e@),
    }
}

/// An XML value read as a type (see [`xml_plan`]).
pub fn xml_to_plan(v: &XmlValue, ty: Option<&PyTypeInfo>) -> (r: Result<PyPlan, String>)
    ensures
        plan_res_view(r) == xml_plan(v@, ty_opt_view(ty)),
    decreases v, 2nat,
{
    match v {
        XmlValue::Text(s) => Ok(text_to_plan(s, ty)),
        XmlValue::Element(n, a, cs) => {
            proof {
                assert(*v == XmlValue::Element(*n, *a, *cs));
                assert(v@ == XmlV::Element(n@, attrs_view(a@), xmls_view(cs@)));
                assert(decreases_to!(*v => *cs));
            }
            let st = match ty {
                Some(t0) => strip_exec(t0),
                None => None,
            };
            match st {
                None => Ok(untyped_to_plan(v)),
                Some(t) => match t.kind {
                    PyTypeKind::Class => match t.class_id {
                        None => Err(lit("Type has no associated Python class")),
                        Some(id) => match instance_fields(&t.fields, a, cs) {
                            Ok(fs) => Ok(PyPlan::Instance { class_id: id, fields: fs }),
                            Err(e) => Err(e),
                        },
                    },
                    PyTypeKind::List => match list_plan_exec(cs, arg_at(&t.args, 0)) {
                        Ok(items) => Ok(PyPlan::List(items)),
                        Err(e) => Err(e),
                    },
                    PyTypeKind::Dict => Ok(PyPlan::Dict(dict_items_exec(cs, arg_at(&t.args, 1)))),
                    PyTypeKind::Tuple => {
                        proof {
                            lemma_pytys_index(t.args@);
                        }
                        let homog = t.args.len() == 2 && str_eq(&t.args[1].name, "Ellipsis");
                        match tuple_plan_exec(cs, &t.args, homog) {
                            Ok(items) => Ok(PyPlan::Tuple(items)),
                            Err(e) => Err(e),
                        }
                    },
                    PyTypeKind::SetType => Ok(PyPlan::SetOf(text_items_exec(cs, arg_at(&t.args, 0)))),
                    PyTypeKind::Union => Ok(union_plan_exec(t, v)),
                    _ => Ok(untyped_to_plan(v)),
                },
            }
        },
    }
}

/// See [`list_plan`].
fn list_plan_exec(cs: &Vec<XmlValue>, et: Option<&PyTypeInfo>) -> (r: Result<Vec<PyPlan>, String>)
    ensures
        plans_res_view(r) == list_plan(xmls_view(cs@), ty_opt_view(et)),
    decreases cs, 0nat,
{
    let ghost cv = xmls_view(cs@);
    proof {
        lemma_xmls_view(cs@);
    }
    let mut out: Vec<PyPlan> = Vec::new();
    let mut i: usize = 0;
    while i < cs.len()
        invariant
            i <= cs@.len(),
            cv == xmls_view(cs@),
            cv.len() == cs@.len(),
            forall|j: int| 0 <= j < cs@.len() ==> #[trigger] cv[j] == xml_view(cs@[j]),
            list_plan(cv.take(i as int), ty_opt_view(et)) == Ok::<Seq<PlanV>, Seq<char>>(plans_view(out@)),
        decreases cs@.len() - i,
    {
        assert(cv.take(i + 1).drop_last() =~= cv.take(i as int));
        assert(cv.take(i + 1).last() == cv[i as int]);
        proof {
            assert(decreases_to!(*cs => cs@[i as int]));
        }
        match &cs[i] {
            XmlValue::Element(n, ia, ic) => {
                proof {
                    lemma_xmls_view(ic@);
                }
                if str_eq(n, "item") && ic.len() == 1 {
                    match &ic[0] {
                        XmlValue::Text(t) => {
                            let p = item_text_exec(t, et, ia);
                            proof {
                                lemma_plans_push(out@, p);
                            }
                            out.push(p);
                        },
                        _ => {},
                    }
                } else {
                    match xml_to_plan(&cs[i], et) {
                        Ok(p) => {
                            proof {
                                lemma_plans_push(out@, p);
                            }
                            out.push(p);
                        },
                        Err(e) => {
                            proof {
                                lemma_list_plan_err(cv, ty_opt_view(et), i + 1);
                            }
                            return Err(e);
                        },
                    }
                }
            },
            _ => {},
        }
        i += 1;
    }
    assert(cv.take(i as int) =~= cv);
    Ok(out)
}

/// An error in a prefix of the items is the error of the whole.
proof fn lemma_list_plan_err(cs: Seq<XmlV>, et: Option<PyTy>, n: int)
    requires
        0 <= n <= cs.len(),
        list_plan(cs.take(n), et) is Err,
    ensures
        list_plan(cs, et) == list_plan(cs.take(n), et),
    decreases cs.len() - n,
{
    if n < cs.len() {
        assert(cs.take(n + 1).drop_last() =~= cs.take(n));
        lemma_list_plan_err(cs, et, n + 1);
    } else {
        assert(cs.take(n) =~= cs);
    }
}

proof fn lemma_tuple_plan_err(cs: Seq<XmlV>, args: Seq<PyTy>, homog: bool, n: int)
    requires
        0 <= n <= cs.len(),
        tuple_plan(cs.take(n), args, homog) is Err,
    ensures
        tuple_plan(cs, args, homog) == tuple_plan(cs.take(n), args, homog),
    decreases cs.len() - n,
{
    if n < cs.len() {
        assert(cs.take(n + 1).drop_last() =~= cs.take(n));
        lemma_tuple_plan_err(cs, args, homog, n + 1);
    } else {
        assert(cs.take(n) =~= cs);
    }
}

proof fn lemma_inst_children_err(fs: Seq<(Seq<char>, PyTy)>, cs: Seq<XmlV>, n: int)
    requires
        0 <= n <= cs.len(),
        inst_children(fs, cs.take(n)) is Err,
    ensures
        inst_children(fs, cs) == inst_children(fs, cs.take(n)),
    decreases cs.len() - n,
{
    if n < cs.len() {
        assert(cs.take(n + 1).drop_last() =~= cs.take(n));
        lemma_inst_children_err(fs, cs, n + 1);
    } else {
        assert(cs.take(n) =~= cs);
    }
}

fn has_element_exec(cs: &Vec<XmlValue>) -> (r: bool)
    ensures
        r == has_element(xmls_view(cs@)),
{
    proof {
        lemma_xmls_view(cs@);
    }
    let mut i: usize = 0;
    while i < cs.len()
        invariant
            i <= cs@.len(),
            xmls_view(cs@).len() == cs@.len(),
            forall|j: int| 0 <= j < cs@.len() ==> #[trigger] xmls_view(cs@)[j] == xml_view(cs@[j]),
            forall|j: int| 0 <= j < i ==> !(#[trigger] xmls_view(cs@)[j] is Element),
        decreases cs@.len() - i,
    {
        match &cs[i] {
            XmlValue::Element(..) => {
                assert(xmls_view(cs@)[i as int] is Element);
                return true;
            },
            _ => {},
        }
        i += 1;
    }
    false
}

/// See [`tuple_plan`].
fn tuple_plan_exec(cs: &Vec<XmlValue>, args: &Vec<PyTypeInfo>, homog: bool) -> (r: Result<Vec<PyPlan>, String>)
    ensures
        plans_res_view(r) == tuple_plan(xmls_view(cs@), pytys_view(args@), homog),
    decreases cs, 0nat,
{
    let ghost cv = xmls_view(cs@);
    let ghost av = pytys_view(args@);
    proof {
        lemma_xmls_view(cs@);
        lemma_pytys_index(args@);
    }
    let mut out: Vec<PyPlan> = Vec::new();
    let mut i: usize = 0;
    while i < cs.len()
        invariant
            i <= cs@.len(),
            cv == xmls_view(cs@),
            av == pytys_view(args@),
            cv.len() == cs@.len(),
            forall|j: int| 0 <= j < cs@.len() ==> #[trigger] cv[j] == xml_view(cs@[j]),
            tuple_plan(cv.take(i as int), av, homog) == Ok::<Seq<PlanV>, Seq<char>>(plans_view(out@)),
        decreases cs@.len() - i,
    {
        assert(cv.take(i + 1).drop_last() =~= cv.take(i as int));
        assert(cv.take(i + 1).last() == cv[i as int]);
        assert(cv.take(i + 1).len() - 1 == i);
        proof {
            assert(decreases_to!(*cs => cs@[i as int]));
        }
        let et = if homog {
            arg_at(args, 0)
        } else {
            arg_at(args, i)
        };
        match &cs[i] {
            XmlValue::Element(n, ia, ic) => {
                proof {
                    lemma_xmls_view(ic@);
                }
                if str_eq(n, "item") {
                    if ic.len() > 0 && has_element_exec(ic) {
                        let as_instance = match et {
                            Some(e) => match e.kind {
                                PyTypeKind::Class => match e.class_id {
                                    Some(id) => Some(PyPlan::Instance { class_id: id, fields: fields_from_exec(ic, &e.fields) }),
                                    None => None,
                                },
                                _ => None,
                            },
                            None => None,
                        };
                        match as_instance {
                            Some(p) => {
                                proof {
                                    lemma_plans_push(out@, p);
                                }
                                out.push(p);
                            },
                            None => match xml_to_plan(&cs[i], et) {
                                Ok(p) => {
                                    proof {
                                        lemma_plans_push(out@, p);
                                    }
                                    out.push(p);
                                },
                                Err(e) => {
                                    proof {
                                        lemma_tuple_plan_err(cv, av, homog, i + 1);
                                    }
                                    return Err(e);
                                },
                            },
                        }
                    } else if ic.len() == 1 {
                        match &ic[0] {
                            XmlValue::Text(t) => {
                                let p = item_text_exec(t, et, ia);
                                proof {
                                    lemma_plans_push(out@, p);
                                }
                                out.push(p);
                            },
                            _ => {},
                        }
                    }
                }
            },
            _ => {},
        }
        i += 1;
    }
    assert(cv.take(i as int) =~= cv);
    Ok(out)
}

/// The fields an instance of a class gets from an element's attributes and
/// children, given the class's field types (see [`instance_spec`]).
pub fn instance_fields(fs: &Vec<(String, PyTypeInfo)>, attrs: &Vec<(String, String)>, children: &Vec<XmlValue>) -> (r:
    Result<Vec<(String, PyPlan)>, String>)
    ensures
        entries_res_view(r) == instance_spec(pyfields_view(fs@), attrs_view(attrs@), xmls_view(children@)),
    decreases children, 1nat,
{
    let ghost fv = pyfields_view(fs@);
    let ghost av = attrs_view(attrs@);
    let ghost from_attrs = av.map_values(
        |e: (Seq<char>, Seq<char>)|
            match entry_get(fv, e.0) {
                Some(fi) => (e.0, text_plan(e.1, Some(fi))),
                None => (e.0, PlanV::Str(e.1)),
            },
    );
    let mut out: Vec<(String, PyPlan)> = Vec::new();
    let mut i: usize = 0;
    while i < attrs.len()
        invariant
            i <= attrs@.len(),
            fv == pyfields_view(fs@),
            av == attrs_view(attrs@),
            from_attrs == av.map_values(
                |e: (Seq<char>, Seq<char>)|
                    match entry_get(fv, e.0) {
                        Some(fi) => (e.0, text_plan(e.1, Some(fi))),
                        None => (e.0, PlanV::Str(e.1)),
                    },
            ),
            plan_entries_view(out@) == from_attrs.take(i as int),
        decreases attrs@.len() - i,
    {
        let k = &attrs[i].0;
        let val = &attrs[i].1;
        let p = match field_lookup(fs, k) {
            Some(fi) => text_to_plan(val, Some(fi)),
            None => PyPlan::Str(val.clone()),
        };
        let e = (k.clone(), p);
        proof {
            lemma_entries_push(out@, e);
            assert(av[i as int] == (k@, val@));
            assert(from_attrs.take(i + 1) =~= from_attrs.take(i as int).push(from_attrs[i as int]));
        }
        out.push(e);
        i += 1;
    }
    assert(from_attrs.take(i as int) =~= from_attrs);
    match inst_children_exec(fs, children) {
        Err(e) => Err(e),
        Ok(more) => {
            let ghost o0 = out@;
            let ghost m0 = more@;
            let mut more = more;
            out.append(&mut more);
            proof {
                lemma_entries_append(o0, m0);
                assert(out@ =~= o0 + m0);
            }
            Ok(out)
        },
    }
}

/// See [`inst_children`].
fn inst_children_exec(fs: &Vec<(String, PyTypeInfo)>, cs: &Vec<XmlValue>) -> (r: Result<Vec<(String, PyPlan)>, String>)
    ensures
        entries_res_view(r) == inst_children(pyfields_view(fs@), xmls_view(cs@)),
    decreases cs, 0nat,
{
    let ghost cv = xmls_view(cs@);
    let ghost fv = pyfields_view(fs@);
    proof {
        lemma_xmls_view(cs@);
    }
    let mut out: Vec<(String, PyPlan)> = Vec::new();
    let mut i: usize = 0;
    while i < cs.len()
        invariant
            i <= cs@.len(),
            cv == xmls_view(cs@),
            fv == pyfields_view(fs@),
            cv.len() == cs@.len(),
            forall|j: int| 0 <= j < cs@.len() ==> #[trigger] cv[j] == xml_view(cs@[j]),
            inst_children(fv, cv.take(i as int)) == Ok::<Seq<(Seq<char>, PlanV)>, Seq<char>>(plan_entries_view(out@)),
        decreases cs@.len() - i,
    {
        assert(cv.take(i + 1).drop_last() =~= cv.take(i as int));
        assert(cv.take(i + 1).last() == cv[i as int]);
        proof {
            assert(decreases_to!(*cs => cs@[i as int]));
        }
        let c = &cs[i];
        match c {
            XmlValue::Element(cn, ca, gc) => {
                proof {
                    lemma_xmls_view(gc@);
                    assert(*c == XmlValue::Element(*cn, *ca, *gc));
                    assert(cv[i as int] == XmlV::Element(cn@, attrs_view(ca@), xmls_view(gc@)));
                }
                match field_lookup(fs, cn) {
                    None => {},
                    Some(fi) => {
                        proof {
                            lemma_pytys_index(fi.args@);
                        }
                        let one: Option<Result<PyPlan, String>> = match fi.kind {
                            PyTypeKind::List => Some(xml_to_plan(c, Some(fi))),
                            PyTypeKind::Optional => {
                                if fi.args.len() > 0 {
                                    let inner = &fi.args[0];
                                    match inner.kind {
                                        PyTypeKind::List => Some(
                                            Ok(PyPlan::List(text_items_exec(gc, arg_at(&inner.args, 0)))),
                                        ),
                                        _ => Some(xml_to_plan(c, Some(inner))),
                                    }
                                } else {
                                    Some(xml_to_plan(c, Some(fi)))
                                }
                            },
                            PyTypeKind::Union => {
                                proof {
                                    match entry_get(attrs_view(ca@), "type"@) {
                                        Some(ta) => lemma_member_named(fi@.args, ta),
                                        None => {},
                                    }
                                }
                                let m = match attr_lookup(ca, "type") {
                                    Some(ta) => member_lookup(&fi.args, ta),
                                    None => None,
                                };
                                match m {
                                    Some(mt) => {
                                        let id = match mt.class_id {
                                            Some(id) => id,
                                            None => 0,
                                        };
                                        Some(Ok(PyPlan::Instance { class_id: id, fields: fields_from_exec(gc, &mt.fields) }))
                                    },
                                    None => Some(xml_to_plan(c, Some(fi))),
                                }
                            },
                            _ => {
                                if gc.len() == 1 {
                                    match &gc[0] {
                                        XmlValue::Text(t) => Some(Ok(text_to_plan(t, Some(fi)))),
                                        _ => None,
                                    }
                                } else {
                                    Some(xml_to_plan(c, Some(fi)))
                                }
                            },
                        };
                        match one {
                            None => {},
                            Some(Ok(p)) => {
                                let e = (cn.clone(), p);
                                proof {
                                    lemma_entries_push(out@, e);
                                }
                                out.push(e);
                            },
                            Some(Err(e)) => {
                                proof {
                                    lemma_inst_children_err(fv, cv, i + 1);
                                }
                                return Err(e);
                            },
                        }
                    },
                }
            },
            _ => {},
        }
        i += 1;
    }
    assert(cv.take(i as int) =~= cv);
    Ok(out)
}


/// XML text read for a boolean type: a text whose lower case is `true`, `1`
/// or `yes` is true, every other text is false.
pub proof fn lemma_boolean_text(s: Seq<char>, t: PyTy)
    requires
        t.kind == PyTypeKind::Boolean,
    ensures
        crate::types::lower_text(s) == "true"@ ==> text_plan(s, Some(t)) == PlanV::Bool(true),
        crate::types::lower_text(s) == "1"@ ==> text_plan(s, Some(t)) == PlanV::Bool(true),
        crate::types::lower_text(s) == "yes"@ ==> text_plan(s, Some(t)) == PlanV::Bool(true),
        crate::types::lower_text(s) != "true"@ && crate::types::lower_text(s) != "1"@ && crate::types::lower_text(s)
            != "yes"@ ==> text_plan(s, Some(t)) == PlanV::Bool(false),
{
}

}
