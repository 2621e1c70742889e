use gasp::python_types::{
    float_syntax_ok, is_union_origin, name_from_repr, repr_sequence_kind, text_to_plan, untyped_to_plan, xml_to_plan, instance_fields, PyPlan, PyTypeInfo,
    PyTypeKind, XmlValue,
};

fn int_type() -> PyTypeInfo {
    PyTypeInfo::builtin_type("int", None, 1).unwrap()
}

fn none_type() -> PyTypeInfo {
    PyTypeInfo::builtin_type("NoneType", None, 2).unwrap()
}

#[test]
fn builders_set_each_part() {
    let t = PyTypeInfo::new(PyTypeKind::List, "list".to_string())
        .with_module("builtins".to_string())
        .with_origin("list".to_string())
        .with_args(vec![int_type()])
        .with_optional(true);
    assert_eq!(t.kind, PyTypeKind::List);
    assert_eq!(t.name, "list");
    assert_eq!(t.module.as_deref(), Some("builtins"));
    assert_eq!(t.origin.as_deref(), Some("list"));
    assert_eq!(t.args.len(), 1);
    assert_eq!(t.args[0].kind, PyTypeKind::Integer);
    assert!(t.is_optional);
    let any = PyTypeInfo::any();
    assert_eq!(any.kind, PyTypeKind::Any);
    assert_eq!(any.module.as_deref(), Some("typing"));
}

#[test]
fn primitive_kinds() {
    assert!(int_type().is_primitive());
    assert!(none_type().is_primitive());
    assert!(!PyTypeInfo::new(PyTypeKind::Dict, "dict".to_string()).is_primitive());
}

#[test]
fn union_origins() {
    assert!(is_union_origin("typing.Union"));
    assert!(is_union_origin("types.Union"));
    assert!(!is_union_origin("Union"));
    assert!(!is_union_origin("typing.Optional"));
}

#[test]
fn names_from_repr() {
    assert_eq!(name_from_repr("typing.List[int]"), "typing.List");
    assert_eq!(name_from_repr("  Foo [x]"), "Foo");
    assert_eq!(name_from_repr("typing.Any"), "typing.Any");
}

#[test]
fn sequence_reprs() {
    assert_eq!(repr_sequence_kind("list[int]"), Some(PyTypeKind::List));
    assert_eq!(repr_sequence_kind("typing.List[str]"), Some(PyTypeKind::List));
    assert_eq!(repr_sequence_kind("typing.Tuple[int, str]"), Some(PyTypeKind::Tuple));
    assert_eq!(repr_sequence_kind("tuple[int]"), Some(PyTypeKind::Tuple));
    assert_eq!(repr_sequence_kind("dict[str, int]"), None);
    assert_eq!(repr_sequence_kind("list"), None);
    let t = PyTypeInfo::sequence_type(PyTypeKind::Tuple, vec![int_type()], 7);
    assert_eq!(t.kind, PyTypeKind::Tuple);
    assert_eq!(t.name, "tuple");
    assert_eq!(t.module.as_deref(), Some("typing"));
    assert_eq!(t.origin.as_deref(), Some("tuple"));
    assert_eq!(t.args.len(), 1);
}

#[test]
fn union_with_none_is_optional() {
    let t = PyTypeInfo::from_origin("Union".to_string(), Some("typing".to_string()), vec![int_type(), none_type()], 9);
    assert_eq!(t.kind, PyTypeKind::Optional);
    assert_eq!(t.name, "Optional");
    assert_eq!(t.class_id, Some(9));
    assert_eq!(t.args[0].class_id, Some(1));
    assert!(t.is_optional);
    assert_eq!(t.origin.as_deref(), Some("Union"));
    assert_eq!(t.args.len(), 1);
    assert_eq!(t.args[0].kind, PyTypeKind::Integer);
    let t = PyTypeInfo::from_origin("typing.Union".to_string(), None, vec![none_type(), int_type()], 9);
    assert_eq!(t.kind, PyTypeKind::Optional);
    assert_eq!(t.module.as_deref(), Some("typing"));
    assert_eq!(t.args[0].name, "int");
}

#[test]
fn union_of_three_stays_union() {
    let t = PyTypeInfo::from_origin(
        "Union".to_string(),
        None,
        vec![int_type(), none_type(), PyTypeInfo::builtin_type("str", None, 3).unwrap()],
        11,
    );
    assert_eq!(t.kind, PyTypeKind::Union);
    assert_eq!(t.class_id, Some(11));
    let ids: Vec<Option<u64>> = t.args.iter().map(|a| a.class_id).collect();
    assert_eq!(ids, vec![Some(1), Some(2), Some(3)]);
    assert_eq!(t.name, "Union");
    assert!(!t.is_optional);
    assert_eq!(t.args.len(), 3);
}

#[test]
fn containers_by_origin() {
    let t = PyTypeInfo::from_origin("list".to_string(), Some("typing".to_string()), vec![int_type()], 9);
    assert_eq!(t.kind, PyTypeKind::List);
    assert_eq!(t.module.as_deref(), Some("typing"));
    let t = PyTypeInfo::from_origin("builtins.dict".to_string(), None, vec![], 9);
    assert_eq!(t.kind, PyTypeKind::Dict);
    assert_eq!(t.name, "dict");
    assert_eq!(t.module.as_deref(), Some("builtins"));
    assert_eq!(t.origin.as_deref(), Some("builtins.dict"));
    let t = PyTypeInfo::from_origin("set".to_string(), None, vec![], 9);
    assert_eq!(t.kind, PyTypeKind::SetType);
    let t = PyTypeInfo::from_origin("collections.abc.Callable".to_string(), None, vec![], 9);
    assert_eq!(t.kind, PyTypeKind::Any);
    assert_eq!(t.name, "collections.abc.Callable");
    assert_eq!(t.module.as_deref(), Some("typing"));
}

#[test]
fn builtin_names() {
    let t = none_type();
    assert_eq!(t.kind, PyTypeKind::NoneType);
    assert_eq!(t.name, "None");
    assert_eq!(t.module.as_deref(), Some("builtins"));
    let t = PyTypeInfo::builtin_type("bool", Some("mymod".to_string()), 4).unwrap();
    assert_eq!(t.kind, PyTypeKind::Boolean);
    assert_eq!(t.module.as_deref(), Some("mymod"));
    let t = PyTypeInfo::builtin_type("type", None, 5).unwrap();
    assert_eq!(t.kind, PyTypeKind::Class);
    assert_eq!(t.name, "type");
    assert!(PyTypeInfo::builtin_type("Person", None, 6).is_none());
}

#[test]
fn user_types() {
    let t = PyTypeInfo::user_type(
        "Person".to_string(),
        Some("__main__".to_string()),
        Some(vec![("age".to_string(), int_type())]),
        true,
        12,
    );
    assert_eq!(t.kind, PyTypeKind::Class);
    assert_eq!(t.class_id, Some(12));
    assert_eq!(t.fields[0].1.class_id, Some(1));
    assert_eq!(t.fields.len(), 1);
    assert_eq!(t.fields[0].0, "age");
    assert_eq!(t.module.as_deref(), Some("__main__"));
    let t = PyTypeInfo::user_type("Base".to_string(), None, None, true, 10);
    assert_eq!(t.kind, PyTypeKind::Class);
    assert_eq!(t.module.as_deref(), Some("builtins"));
    let t = PyTypeInfo::user_type("thing".to_string(), None, None, false, 10);
    assert_eq!(t.kind, PyTypeKind::Any);
    assert_eq!(t.name, "thing");
}

#[test]
fn union_aliases() {
    let t = PyTypeInfo::union_alias(Some("Shape".to_string()), vec![int_type()], 8);
    assert_eq!(t.kind, PyTypeKind::Union);
    assert_eq!(t.name, "Shape");
    assert_eq!(t.origin.as_deref(), Some("Union"));
    let t = PyTypeInfo::union_alias(None, vec![], 8);
    assert_eq!(t.name, "Union");
    assert_eq!(t.module.as_deref(), Some("typing"));
}

fn text(s: &str) -> XmlValue {
    XmlValue::Text(s.to_string())
}

fn element(children: Vec<XmlValue>) -> XmlValue {
    XmlValue::Element("xs".to_string(), vec![], children)
}

fn kind(k: PyTypeKind) -> PyTypeInfo {
    PyTypeInfo::new(k, "t".to_string())
}

fn float_ok(s: &str) -> bool {
    let cs: Vec<char> = s.chars().collect();
    float_syntax_ok(&cs)
}

#[test]
fn float_text_is_read_as_std_reads_it() {
    for s in ["3.14", "1e10", "-.5", "5.", "+2E-3", "inf", "-Infinity", "NaN", "0"] {
        assert!(float_ok(s), "{}", s);
        assert!(s.parse::<f64>().is_ok(), "{}", s);
    }
    for s in ["", ".", "1e", "abc", "1.2.3", "e5", "--1", "1e+", "infx"] {
        assert!(!float_ok(s), "{}", s);
        assert!(s.parse::<f64>().is_err(), "{}", s);
    }
}

#[test]
fn text_matches_scalar_types() {
    assert!(kind(PyTypeKind::Any).matches(&text("anything")));
    assert!(kind(PyTypeKind::String).matches(&text("x")));
    assert!(kind(PyTypeKind::Integer).matches(&text("42")));
    assert!(kind(PyTypeKind::Integer).matches(&text("-7")));
    assert!(kind(PyTypeKind::Integer).matches(&text("+3")));
    assert!(!kind(PyTypeKind::Integer).matches(&text("4.2")));
    assert!(!kind(PyTypeKind::Integer).matches(&text("99999999999999999999")));
    assert!(kind(PyTypeKind::Float).matches(&text("4.2")));
    assert!(!kind(PyTypeKind::Float).matches(&text("four")));
    assert!(kind(PyTypeKind::Boolean).matches(&text("true")));
    assert!(kind(PyTypeKind::Boolean).matches(&text("false")));
    assert!(!kind(PyTypeKind::Boolean).matches(&text("True")));
    assert!(!kind(PyTypeKind::Class).matches(&text("x")));
    assert!(!kind(PyTypeKind::String).matches(&element(vec![])));
}

#[test]
fn elements_match_lists_by_their_items() {
    let ints = kind(PyTypeKind::List).with_args(vec![kind(PyTypeKind::Integer)]);
    assert!(ints.matches(&element(vec![text("1"), text("2")])));
    assert!(!ints.matches(&element(vec![text("1"), text("x")])));
    assert!(ints.matches(&element(vec![])));
    assert!(kind(PyTypeKind::List).matches(&element(vec![text("x")])));
    assert!(kind(PyTypeKind::Class).matches(&element(vec![text("x")])));
    assert!(kind(PyTypeKind::Any).matches(&element(vec![])));
}

#[test]
fn text_is_read_as_its_type() {
    let t = |k: PyTypeKind, s: &str| text_to_plan(&s.to_string(), Some(&kind(k)));
    assert_eq!(t(PyTypeKind::Integer, "42"), PyPlan::Int(42));
    assert_eq!(t(PyTypeKind::Integer, "x"), PyPlan::Int(0));
    assert_eq!(t(PyTypeKind::Float, "2.5"), PyPlan::Float("2.5".to_string()));
    assert_eq!(t(PyTypeKind::Float, "two"), PyPlan::Float("0".to_string()));
    assert_eq!(t(PyTypeKind::Boolean, "YES"), PyPlan::Bool(true));
    assert_eq!(t(PyTypeKind::Boolean, "1"), PyPlan::Bool(true));
    assert_eq!(t(PyTypeKind::Boolean, "no"), PyPlan::Bool(false));
    assert_eq!(t(PyTypeKind::NoneType, "anything"), PyPlan::NoneValue);
    assert_eq!(t(PyTypeKind::String, "hi"), PyPlan::Str("hi".to_string()));
    assert_eq!(text_to_plan(&"7".to_string(), None), PyPlan::Str("7".to_string()));
}

#[test]
fn untyped_elements_become_dictionaries() {
    let v = XmlValue::Element(
        "person".to_string(),
        vec![("id".to_string(), "3".to_string())],
        vec![text("Ann"), XmlValue::Element("age".to_string(), vec![], vec![text("30")])],
    );
    let inner = PyPlan::Dict(vec![
        ("name".to_string(), PyPlan::Str("age".to_string())),
        ("attrs".to_string(), PyPlan::Dict(vec![])),
        ("children".to_string(), PyPlan::List(vec![PyPlan::Str("30".to_string())])),
    ]);
    assert_eq!(
        untyped_to_plan(&v),
        PyPlan::Dict(vec![
            ("name".to_string(), PyPlan::Str("person".to_string())),
            ("attrs".to_string(), PyPlan::Dict(vec![("id".to_string(), PyPlan::Str("3".to_string()))])),
            ("children".to_string(), PyPlan::List(vec![PyPlan::Str("Ann".to_string()), inner])),
        ])
    );
    assert_eq!(untyped_to_plan(&text("t")), PyPlan::Str("t".to_string()));
}

fn el(tag: &str, attrs: &[(&str, &str)], children: Vec<XmlValue>) -> XmlValue {
    XmlValue::Element(
        tag.to_string(),
        attrs.iter().map(|(k, v)| (k.to_string(), v.to_string())).collect(),
        children,
    )
}

fn item(t: &str) -> XmlValue {
    el("item", &[], vec![text(t)])
}

fn person_class(id: u64) -> PyTypeInfo {
    PyTypeInfo::new(PyTypeKind::Class, "Person".to_string())
        .with_fields(vec![("name".to_string(), kind(PyTypeKind::String)), ("age".to_string(), kind(PyTypeKind::Integer))])
        .with_class_id(id)
}

#[test]
fn typed_lists_sets_and_dicts() {
    let ints = kind(PyTypeKind::List).with_args(vec![kind(PyTypeKind::Integer)]);
    let v = el("xs", &[], vec![item("1"), text("skipped"), item("x")]);
    assert_eq!(xml_to_plan(&v, Some(&ints)), Ok(PyPlan::List(vec![PyPlan::Int(1), PyPlan::Int(0)])));
    let untyped = kind(PyTypeKind::List);
    let v = el("xs", &[], vec![el("item", &[("type", "bool")], vec![text("Yes")]), item("a")]);
    assert_eq!(xml_to_plan(&v, Some(&untyped)), Ok(PyPlan::List(vec![PyPlan::Bool(true), PyPlan::Str("a".to_string())])));
    let set = kind(PyTypeKind::SetType).with_args(vec![kind(PyTypeKind::Integer)]);
    assert_eq!(
        xml_to_plan(&el("s", &[], vec![item("2"), item("2")]), Some(&set)),
        Ok(PyPlan::SetOf(vec![PyPlan::Int(2), PyPlan::Int(2)]))
    );
    let dict = kind(PyTypeKind::Dict).with_args(vec![kind(PyTypeKind::String), kind(PyTypeKind::Integer)]);
    let v = el(
        "d",
        &[],
        vec![el("item", &[("key", "a")], vec![text("1")]), el("item", &[("key", "b")], vec![text("2")]), el("item", &[("key", "a")], vec![text("3")])],
    );
    assert_eq!(
        xml_to_plan(&v, Some(&dict)),
        Ok(PyPlan::Dict(vec![("a".to_string(), PyPlan::Int(3)), ("b".to_string(), PyPlan::Int(2))]))
    );
}

#[test]
fn classes_and_tuples_become_instances() {
    let p = person_class(7);
    let v = el("Person", &[("age", "41"), ("extra", "e")], vec![el("name", &[], vec![text("Ann")]), el("other", &[], vec![text("z")])]);
    assert_eq!(
        xml_to_plan(&v, Some(&p)),
        Ok(PyPlan::Instance {
            class_id: 7,
            fields: vec![
                ("age".to_string(), PyPlan::Int(41)),
                ("extra".to_string(), PyPlan::Str("e".to_string())),
                ("name".to_string(), PyPlan::Str("Ann".to_string())),
            ],
        })
    );
    let no_class = PyTypeInfo::new(PyTypeKind::Class, "X".to_string());
    assert_eq!(xml_to_plan(&v, Some(&no_class)), Err("Type has no associated Python class".to_string()));
    let tup = kind(PyTypeKind::Tuple).with_args(vec![kind(PyTypeKind::Integer), person_class(3)]);
    let v = el("t", &[], vec![item("5"), el("item", &[], vec![el("name", &[], vec![text("Bo")])])]);
    assert_eq!(
        xml_to_plan(&v, Some(&tup)),
        Ok(PyPlan::Tuple(vec![
            PyPlan::Int(5),
            PyPlan::Instance { class_id: 3, fields: vec![("name".to_string(), PyPlan::Str("Bo".to_string()))] },
        ]))
    );
    let optional = kind(PyTypeKind::Optional).with_args(vec![person_class(9)]);
    match xml_to_plan(&el("Person", &[], vec![]), Some(&optional)) {
        Ok(PyPlan::Instance { class_id, fields }) => {
            assert_eq!(class_id, 9);
            assert!(fields.is_empty());
        }
        other => panic!("expected an instance, got {:?}", other),
    }
}

#[test]
fn unions_pick_a_member_by_type_attribute_or_tag() {
    let dog = PyTypeInfo::new(PyTypeKind::Class, "Dog".to_string())
        .with_fields(vec![("name".to_string(), kind(PyTypeKind::String))])
        .with_class_id(1);
    let cat = PyTypeInfo::new(PyTypeKind::Class, "Cat".to_string())
        .with_fields(vec![("lives".to_string(), kind(PyTypeKind::Integer))])
        .with_class_id(2);
    let u = kind(PyTypeKind::Union).with_args(vec![dog, cat]);
    let by_attr = el("pet", &[("type", "Cat")], vec![el("lives", &[], vec![text("9")])]);
    assert_eq!(
        xml_to_plan(&by_attr, Some(&u)),
        Ok(PyPlan::Instance { class_id: 2, fields: vec![("lives".to_string(), PyPlan::Int(9))] })
    );
    let by_tag = el("Dog", &[], vec![el("name", &[], vec![text("Rex")])]);
    assert_eq!(
        xml_to_plan(&by_tag, Some(&u)),
        Ok(PyPlan::Instance { class_id: 1, fields: vec![("name".to_string(), PyPlan::Str("Rex".to_string()))] })
    );
    let neither = el("Fish", &[], vec![]);
    assert_eq!(xml_to_plan(&neither, Some(&u)), Ok(untyped_to_plan(&neither)));
}

#[test]
fn instance_fields_follow_field_types() {
    let pet = PyTypeInfo::new(PyTypeKind::Class, "Dog".to_string())
        .with_fields(vec![("name".to_string(), kind(PyTypeKind::String))])
        .with_class_id(4);
    let fields = vec![
        ("tags".to_string(), kind(PyTypeKind::List).with_args(vec![kind(PyTypeKind::String)])),
        (
            "scores".to_string(),
            kind(PyTypeKind::Optional).with_args(vec![kind(PyTypeKind::List).with_args(vec![kind(PyTypeKind::Integer)])]),
        ),
        ("pet".to_string(), kind(PyTypeKind::Union).with_args(vec![pet])),
    ];
    let children = vec![
        el("tags", &[], vec![item("a"), item("b")]),
        el("scores", &[], vec![item("1"), item("2")]),
        el("pet", &[("type", "Dog")], vec![el("name", &[], vec![text("Rex")])]),
    ];
    assert_eq!(
        instance_fields(&fields, &vec![], &children),
        Ok(vec![
            ("tags".to_string(), PyPlan::List(vec![PyPlan::Str("a".to_string()), PyPlan::Str("b".to_string())])),
            ("scores".to_string(), PyPlan::List(vec![PyPlan::Int(1), PyPlan::Int(2)])),
            (
                "pet".to_string(),
                PyPlan::Instance { class_id: 4, fields: vec![("name".to_string(), PyPlan::Str("Rex".to_string()))] },
            ),
        ])
    );
}
