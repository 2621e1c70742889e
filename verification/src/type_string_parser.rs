//! Python type strings such as `list[str]` or `tuple[str, int, Optional[float]]`.
use crate::python_types::{lemma_pytys_len, lemma_pytys_push, pytys_view, PyTy, PyTypeInfo, PyTypeKind};
use crate::tag_finder::{find_from, lemma_find_from};
use crate::template_parser::{trim_chars, trim_spec};
use crate::text::{chars_of, eq_lit, find_ws, is_white_space, lemma_find_ws, push_str, string_from_chars};
use vstd::prelude::*;
use vstd::slice::slice_subrange;
use vstd::string::StringExecFns;

verus! {

/// Index of the last `c` in `s`, or `-1`.
pub open spec fn last_index_of(s: Seq<char>, c: char) -> int
    decreases s.len(),
{
    if s.len() == 0 {
        -1
    } else if s.last() == c {
        s.len() - 1
    } else {
        last_index_of(s.drop_last(), c)
    }
}

/// The kind, name and module of a generic type by its base name; an unknown
/// base is `Any` under its own name.
pub open spec fn generic_base(base: Seq<char>) -> (PyTypeKind, Seq<char>, Option<Seq<char>>) {
    if base == "list"@ || base == "List"@ {
        (PyTypeKind::List, "list"@, Some("builtins"@))
    } else if base == "dict"@ || base == "Dict"@ {
        (PyTypeKind::Dict, "dict"@, Some("builtins"@))
    } else if base == "set"@ || base == "Set"@ {
        (PyTypeKind::SetType, "set"@, Some("builtins"@))
    } else if base == "tuple"@ || base == "Tuple"@ {
        (PyTypeKind::Tuple, "tuple"@, Some("builtins"@))
    } else if base == "Optional"@ {
        (PyTypeKind::Optional, "Optional"@, Some("typing"@))
    } else if base == "Union"@ {
        (PyTypeKind::Union, "Union"@, Some("typing"@))
    } else {
        (PyTypeKind::Any, base, None)
    }
}

/// The kind and name of a type written without brackets; an unknown name is a class.
pub open spec fn simple_type(t: Seq<char>) -> (PyTypeKind, Seq<char>) {
    if t == "int"@ {
        (PyTypeKind::Integer, "int"@)
    } else if t == "str"@ || t == "string"@ {
        (PyTypeKind::String, "str"@)
    } else if t == "float"@ {
        (PyTypeKind::Float, "float"@)
    } else if t == "bool"@ || t == "boolean"@ {
        (PyTypeKind::Boolean, "bool"@)
    } else if t == "list"@ || t == "List"@ {
        (PyTypeKind::List, "list"@)
    } else if t == "dict"@ || t == "Dict"@ {
        (PyTypeKind::Dict, "dict"@)
    } else if t == "set"@ || t == "Set"@ {
        (PyTypeKind::SetType, "set"@)
    } else if t == "tuple"@ || t == "Tuple"@ {
        (PyTypeKind::Tuple, "tuple"@)
    } else if t == "None"@ {
        (PyTypeKind::NoneType, "None"@)
    } else if t == "Ellipsis"@ || t == "..."@ {
        (PyTypeKind::Any, "Ellipsis"@)
    } else {
        (PyTypeKind::Class, t)
    }
}

pub open spec fn mk_ty(kind: PyTypeKind, name: Seq<char>, module: Option<Seq<char>>, args: Seq<PyTy>) -> PyTy {
    PyTy { kind, name, module, origin: None, args, fields: Seq::empty(), is_optional: false, class_id: None }
}

pub proof fn lemma_trim_len(s: Seq<char>)
    ensures
        trim_spec(s).len() <= s.len(),
{
    crate::text::lemma_find_ws(s, false, 0);
    lemma_trim_stop(s, s.len() as int);
}

pub proof fn lemma_trim_stop(s: Seq<char>, i: int)
    requires
        0 <= i <= s.len(),
    ensures
        0 <= crate::template_parser::trim_stop(s, i) <= i,
    decreases i,
{
    if i > 0 && is_white_space(s[i - 1]) {
        lemma_trim_stop(s, i - 1);
    }
}

pub proof fn lemma_last_index(s: Seq<char>, c: char)
    ensures
        -1 <= last_index_of(s, c) < s.len(),
    decreases s.len(),
{
    if s.len() > 0 {
        lemma_last_index(s.drop_last(), c);
    }
}

/// A type string: `Ok` with the type, `Err` with the message for an
/// unclosed bracket, `None` where parsing panics (a `]` only before the
/// first `[`, or bracket nesting beyond `i32`).
pub open spec fn type_spec(s: Seq<char>) -> Option<Result<PyTy, Seq<char>>>
    decreases s.len(), 0int, 0int,
{
    let t = trim_spec(s);
    let p = find_from(t, '[', 0);
    proof {
        lemma_trim_len(s);
        lemma_find_from(t, '[', 0);
        lemma_last_index(t, ']');
    }
    if p < t.len() {
        let q = last_index_of(t, ']');
        if q < 0 {
            Some(Err("Unclosed bracket in type: "@ + s))
        } else if q < p + 1 {
            None
        } else {
            let (k, n, m) = generic_base(trim_spec(t.take(p)));
            match args_spec(t.subrange(p + 1, q), 0, Seq::empty(), 0, false, false, Seq::empty()) {
                None => None,
                Some(Err(e)) => Some(Err(e)),
                Some(Ok(args)) => Some(Ok(mk_ty(k, n, m, args))),
            }
        }
    } else {
        let (k, n) = simple_type(t);
        Some(Ok(mk_ty(k, n, Some("builtins"@), Seq::empty())))
    }
}

/// Splitting `s[i..]` at top-level commas (outside brackets and quotes; a
/// backslash escapes the next character) and parsing each non-blank piece;
/// `cur` is the piece so far, `acc` the types parsed so far.
pub open spec fn args_spec(
    s: Seq<char>,
    i: int,
    cur: Seq<char>,
    depth: int,
    inq: bool,
    esc: bool,
    acc: Seq<PyTy>,
) -> Option<Result<Seq<PyTy>, Seq<char>>>
    decreases s.len(), 1int, s.len() - i,
{
    if i < 0 || i > s.len() || cur.len() > i {
        None
    } else if i >= s.len() {
        let a = trim_spec(cur);
        proof {
            lemma_trim_len(cur);
        }
        if a.len() == 0 {
            Some(Ok(acc))
        } else {
            match type_spec(a) {
                None => None,
                Some(Err(e)) => Some(Err(e)),
                Some(Ok(t)) => Some(Ok(acc.push(t))),
            }
        }
    } else {
        let ch = s[i];
        if esc {
            args_spec(s, i + 1, cur.push(ch), depth, inq, false, acc)
        } else if ch == '\\' {
            args_spec(s, i + 1, cur.push(ch), depth, inq, true, acc)
        } else if ch == '"' || ch == '\'' {
            args_spec(s, i + 1, cur.push(ch), depth, !inq, false, acc)
        } else if ch == '[' && !inq {
            if depth + 1 > i32::MAX {
                None
            } else {
                args_spec(s, i + 1, cur.push(ch), depth + 1, inq, false, acc)
            }
        } else if ch == ']' && !inq {
            if depth - 1 < i32::MIN {
                None
            } else {
                args_spec(s, i + 1, cur.push(ch), depth - 1, inq, false, acc)
            }
        } else if ch == ',' && depth == 0 && !inq {
            let a = trim_spec(cur);
            proof {
                lemma_trim_len(cur);
            }
            if a.len() == 0 {
                args_spec(s, i + 1, Seq::empty(), depth, inq, false, acc)
            } else {
                match type_spec(a) {
                    None => None,
                    Some(Err(e)) => Some(Err(e)),
                    Some(Ok(t)) => args_spec(s, i + 1, Seq::empty(), depth, inq, false, acc.push(t)),
                }
            }
        } else {
            args_spec(s, i + 1, cur.push(ch), depth, inq, false, acc)
        }
    }
}


fn generic_base_of(base: &[char]) -> (r: (PyTypeKind, String, Option<String>))
    ensures
        (r.0, r.1@, crate::python_types::opt_str_view(r.2)) == generic_base(base@),
{
    if eq_lit(base, "list") || eq_lit(base, "List") {
        (PyTypeKind::List, String::from_str("list"), Some(String::from_str("builtins")))
    } else if eq_lit(base, "dict") || eq_lit(base, "Dict") {
        (PyTypeKind::Dict, String::from_str("dict"), Some(String::from_str("builtins")))
    } else if eq_lit(base, "set") || eq_lit(base, "Set") {
        (PyTypeKind::SetType, String::from_str("set"), Some(String::from_str("builtins")))
    } else if eq_lit(base, "tuple") || eq_lit(base, "Tuple") {
        (PyTypeKind::Tuple, String::from_str("tuple"), Some(String::from_str("builtins")))
    } else if eq_lit(base, "Optional") {
        (PyTypeKind::Optional, String::from_str("Optional"), Some(String::from_str("typing")))
    } else if eq_lit(base, "Union") {
        (PyTypeKind::Union, String::from_str("Union"), Some(String::from_str("typing")))
    } else {
        (PyTypeKind::Any, string_from_chars(base), None)
    }
}

fn simple_type_of(t: &[char]) -> (r: (PyTypeKind, String))
    ensures
        (r.0, r.1@) == simple_type(t@),
{
    if eq_lit(t, "int") {
        (PyTypeKind::Integer, String::from_str("int"))
    } else if eq_lit(t, "str") || eq_lit(t, "string") {
        (PyTypeKind::String, String::from_str("str"))
    } else if eq_lit(t, "float") {
        (PyTypeKind::Float, String::from_str("float"))
    } else if eq_lit(t, "bool") || eq_lit(t, "boolean") {
        (PyTypeKind::Boolean, String::from_str("bool"))
    } else if eq_lit(t, "list") || eq_lit(t, "List") {
        (PyTypeKind::List, String::from_str("list"))
    } else if eq_lit(t, "dict") || eq_lit(t, "Dict") {
        (PyTypeKind::Dict, String::from_str("dict"))
    } else if eq_lit(t, "set") || eq_lit(t, "Set") {
        (PyTypeKind::SetType, String::from_str("set"))
    } else if eq_lit(t, "tuple") || eq_lit(t, "Tuple") {
        (PyTypeKind::Tuple, String::from_str("tuple"))
    } else if eq_lit(t, "None") {
        (PyTypeKind::NoneType, String::from_str("None"))
    } else if eq_lit(t, "Ellipsis") || eq_lit(t, "...") {
        (PyTypeKind::Any, String::from_str("Ellipsis"))
    } else {
        (PyTypeKind::Class, string_from_chars(t))
    }
}

fn parse_type_chars(s: &[char]) -> (r: Result<PyTypeInfo, String>)
    requires
        type_spec(s@) is Some,
    ensures
        match r {
            Ok(t) => type_spec(s@) == Some(Ok::<PyTy, Seq<char>>(t@)),
            Err(e) => type_spec(s@) == Some(Err::<PyTy, Seq<char>>(e@)),
        },
    decreases s@.len(), 0int, 0int,
{
    let trimmed = trim_chars(s);
    let tc = chars_of(trimmed.as_str());
    proof {
        lemma_trim_len(s@);
        lemma_find_from(tc@, '[', 0);
        lemma_last_index(tc@, ']');
    }
    let p = crate::parser_types::find_char_in(tc.as_slice(), '[', 0);
    if p < tc.len() {
        let mut q = tc.len();
        assert(tc@.take(q as int) =~= tc@);
        while q > 0 && tc[q - 1] != ']'
            invariant
                q <= tc@.len(),
                last_index_of(tc@, ']') == last_index_of(tc@.take(q as int), ']'),
            decreases q,
        {
            proof {
                assert(tc@.take(q as int).drop_last() =~= tc@.take(q - 1));
            }
            q -= 1;
        }
        proof {
            if q == tc@.len() {
                assert(tc@.take(q as int) =~= tc@);
            }
        }
        if q == 0 {
            assert(tc@.take(0).len() == 0);
            let mut msg = String::from_str("Unclosed bracket in type: ");
            let orig = string_from_chars(s);
            push_str(&mut msg, orig.as_str());
            return Err(msg);
        }
        let close = q - 1;
        assert(tc@.take(q as int).last() == ']');
        assert(last_index_of(tc@, ']') == close);
        let base = trim_chars(slice_subrange(tc.as_slice(), 0, p));
        let bc = chars_of(base.as_str());
        assert(tc@.subrange(0, p as int) =~= tc@.take(p as int));
        let (kind, name, module) = generic_base_of(bc.as_slice());
        let inner = slice_subrange(tc.as_slice(), p + 1, close);
        let args = match parse_args_chars(inner) {
            Ok(a) => a,
            Err(e) => {
                return Err(e);
            },
        };
        let mut info = PyTypeInfo::new(kind, name).with_args(args);
        match module {
            Some(m) => {
                info = info.with_module(m);
            },
            None => {},
        }
        Ok(info)
    } else {
        let (kind, name) = simple_type_of(tc.as_slice());
        Ok(PyTypeInfo::new(kind, name).with_module(String::from_str("builtins")))
    }
}

fn parse_args_chars(s: &[char]) -> (r: Result<Vec<PyTypeInfo>, String>)
    requires
        args_spec(s@, 0, Seq::empty(), 0, false, false, Seq::empty()) is Some,
    ensures
        match r {
            Ok(v) => args_spec(s@, 0, Seq::empty(), 0, false, false, Seq::empty()) == Some(
                Ok::<Seq<PyTy>, Seq<char>>(pytys_view(v@)),
            ),
            Err(e) => args_spec(s@, 0, Seq::empty(), 0, false, false, Seq::empty()) == Some(
                Err::<Seq<PyTy>, Seq<char>>(e@),
            ),
        },
    decreases s@.len(), 1int, s@.len(),
{
    let ghost goal = args_spec(s@, 0, Seq::empty(), 0, false, false, Seq::empty());
    let mut acc: Vec<PyTypeInfo> = Vec::new();
    let mut cur: Vec<char> = Vec::new();
    let mut depth: i32 = 0;
    let mut inq = false;
    let mut esc = false;
    let mut i: usize = 0;
    proof {
        assert(pytys_view(acc@) =~= Seq::<PyTy>::empty());
    }
    while i < s.len()
        invariant
            i <= s@.len(),
            cur@.len() <= i,
            goal == args_spec(s@, 0, Seq::empty(), 0, false, false, Seq::empty()),
            goal is Some,
            args_spec(s@, i as int, cur@, depth as int, inq, esc, pytys_view(acc@)) == goal,
        decreases s@.len() - i,
    {
        let ch = s[i];
        let ghost a0 = acc@;
        if esc {
            cur.push(ch);
            esc = false;
        } else if ch == '\\' {
            cur.push(ch);
            esc = true;
        } else if ch == '"' || ch == '\'' {
            inq = !inq;
            cur.push(ch);
        } else if ch == '[' && !inq {
            depth = depth + 1;
            cur.push(ch);
        } else if ch == ']' && !inq {
            depth = depth - 1;
            cur.push(ch);
        } else if ch == ',' && depth == 0 && !inq {
            let a = trim_chars(cur.as_slice());
            let ac = chars_of(a.as_str());
            proof {
                lemma_trim_len(cur@);
            }
            if ac.len() > 0 {
                match parse_type_chars(ac.as_slice()) {
                    Ok(t) => {
                        acc.push(t);
                        proof {
                            lemma_pytys_push(a0, t);
                        }
                    },
                    Err(e) => {
                        assert(ac@ == trim_spec(cur@));
                        assert(args_spec(s@, i as int, cur@, depth as int, inq, esc, pytys_view(acc@)) == Some(
                            Err::<Seq<PyTy>, Seq<char>>(e@),
                        ));
                        return Err(e);
                    },
                }
            }
            cur = Vec::new();
        } else {
            cur.push(ch);
        }
        i += 1;
    }
    let a = trim_chars(cur.as_slice());
    let ac = chars_of(a.as_str());
    proof {
        lemma_trim_len(cur@);
    }
    if ac.len() > 0 {
        let ghost a0 = acc@;
        match parse_type_chars(ac.as_slice()) {
            Ok(t) => {
                acc.push(t);
                proof {
                    lemma_pytys_push(a0, t);
                }
            },
            Err(e) => {
                return Err(e);
            },
        }
    }
    Ok(acc)
}

/// Parses a type string like `list[str]` or `tuple[str, int, Optional[float]]`.
/// The error is the message for a bracket that is never closed.
pub fn parse_type_string(type_str: &str) -> (r: Result<PyTypeInfo, String>)
    requires
        type_spec(type_str@) is Some,
    ensures
        match r {
            Ok(t) => type_spec(type_str@) == Some(Ok::<PyTy, Seq<char>>(t@)),
            Err(e) => type_spec(type_str@) == Some(Err::<PyTy, Seq<char>>(e@)),
        },
{
    let cs = chars_of(type_str);
    parse_type_chars(cs.as_slice())
}

/// Parses comma-separated type arguments, keeping nested brackets together.
pub fn parse_type_args(args_str: &str) -> (r: Result<Vec<PyTypeInfo>, String>)
    requires
        args_spec(args_str@, 0, Seq::empty(), 0, false, false, Seq::empty()) is Some,
    ensures
        match r {
            Ok(v) => args_spec(args_str@, 0, Seq::empty(), 0, false, false, Seq::empty()) == Some(
                Ok::<Seq<PyTy>, Seq<char>>(pytys_view(v@)),
            ),
            Err(e) => args_spec(args_str@, 0, Seq::empty(), 0, false, false, Seq::empty()) == Some(
                Err::<Seq<PyTy>, Seq<char>>(e@),
            ),
        },
{
    let cs = chars_of(args_str);
    parse_args_chars(cs.as_slice())
}


/// A builtin scalar type name, with or without surrounding white space, is
/// read as the type it names, under the module `builtins`: `int` is an
/// integer, `str` and `string` a string, `float` a float, `bool` and
/// `boolean` a boolean.
pub proof fn lemma_builtin_scalar_names(s: Seq<char>)
    ensures
        trim_spec(s) == "int"@ ==> type_spec(s) == Some(Ok::<PyTy, Seq<char>>(PyTy {
            kind: PyTypeKind::Integer,
            name: "int"@,
            module: Some("builtins"@),
            origin: None,
            args: Seq::empty(),
            fields: Seq::empty(),
            is_optional: false,
            class_id: None,
        })),
        trim_spec(s) == "str"@ || trim_spec(s) == "string"@ ==> type_spec(s) == Some(Ok::<PyTy, Seq<char>>(PyTy {
            kind: PyTypeKind::String,
            name: "str"@,
            module: Some("builtins"@),
            origin: None,
            args: Seq::empty(),
            fields: Seq::empty(),
            is_optional: false,
            class_id: None,
        })),
        trim_spec(s) == "float"@ ==> type_spec(s) == Some(Ok::<PyTy, Seq<char>>(PyTy {
            kind: PyTypeKind::Float,
            name: "float"@,
            module: Some("builtins"@),
            origin: None,
            args: Seq::empty(),
            fields: Seq::empty(),
            is_optional: false,
            class_id: None,
        })),
        trim_spec(s) == "bool"@ || trim_spec(s) == "boolean"@ ==> type_spec(s) == Some(Ok::<PyTy, Seq<char>>(PyTy {
            kind: PyTypeKind::Boolean,
            name: "bool"@,
            module: Some("builtins"@),
            origin: None,
            args: Seq::empty(),
            fields: Seq::empty(),
            is_optional: false,
            class_id: None,
        })),
{
    let t = trim_spec(s);
    reveal_strlit("int");
    reveal_strlit("str");
    reveal_strlit("string");
    reveal_strlit("float");
    reveal_strlit("bool");
    reveal_strlit("boolean");
    lemma_find_from(t, '[', 0);
    let p = find_from(t, '[', 0);
    if p < t.len() {
        assert(t[p] == '[');
    }
}

} // verus!
