use gasp::python_types::PyTypeKind;
use gasp::type_string_parser::parse_type_string;

#[test]
fn test_parse_simple_types() {
    let int_type = parse_type_string("int").unwrap();
    assert_eq!(int_type.name, "int");
    assert_eq!(int_type.kind, PyTypeKind::Integer);
    let str_type = parse_type_string("str").unwrap();
    assert_eq!(str_type.name, "str");
    assert_eq!(str_type.kind, PyTypeKind::String);
}

#[test]
fn test_parse_list_type() {
    let list_type = parse_type_string("list[str]").unwrap();
    assert_eq!(list_type.name, "list");
    assert_eq!(list_type.kind, PyTypeKind::List);
    assert_eq!(list_type.args.len(), 1);
    assert_eq!(list_type.args[0].name, "str");
}

#[test]
fn test_parse_dict_type() {
    let dict_type = parse_type_string("dict[str, int]").unwrap();
    assert_eq!(dict_type.name, "dict");
    assert_eq!(dict_type.kind, PyTypeKind::Dict);
    assert_eq!(dict_type.args.len(), 2);
    assert_eq!(dict_type.args[0].name, "str");
    assert_eq!(dict_type.args[1].name, "int");
}

#[test]
fn test_parse_tuple_type() {
    let tuple_type = parse_type_string("tuple[str, int, float]").unwrap();
    assert_eq!(tuple_type.name, "tuple");
    assert_eq!(tuple_type.kind, PyTypeKind::Tuple);
    assert_eq!(tuple_type.args.len(), 3);
    assert_eq!(tuple_type.args[0].name, "str");
    assert_eq!(tuple_type.args[1].name, "int");
    assert_eq!(tuple_type.args[2].name, "float");
}

#[test]
fn test_parse_nested_type() {
    let nested_type = parse_type_string("list[dict[str, int]]").unwrap();
    assert_eq!(nested_type.name, "list");
    assert_eq!(nested_type.kind, PyTypeKind::List);
    assert_eq!(nested_type.args.len(), 1);
    let inner_dict = &nested_type.args[0];
    assert_eq!(inner_dict.name, "dict");
    assert_eq!(inner_dict.kind, PyTypeKind::Dict);
    assert_eq!(inner_dict.args.len(), 2);
}

#[test]
fn test_parse_optional_type() {
    let opt_type = parse_type_string("Optional[str]").unwrap();
    assert_eq!(opt_type.name, "Optional");
    assert_eq!(opt_type.kind, PyTypeKind::Optional);
    assert_eq!(opt_type.args.len(), 1);
    assert_eq!(opt_type.args[0].name, "str");
}

#[test]
fn test_parse_complex_tuple() {
    let tuple_type = parse_type_string("tuple[str, int, Optional[float]]").unwrap();
    assert_eq!(tuple_type.name, "tuple");
    assert_eq!(tuple_type.kind, PyTypeKind::Tuple);
    assert_eq!(tuple_type.args.len(), 3);
    assert_eq!(tuple_type.args[0].name, "str");
    assert_eq!(tuple_type.args[1].name, "int");
    assert_eq!(tuple_type.args[2].name, "Optional");
    assert_eq!(tuple_type.args[2].kind, PyTypeKind::Optional);
}

#[test]
fn unclosed_bracket_is_reported() {
    let e = parse_type_string("list[str").unwrap_err();
    assert_eq!(e, "Unclosed bracket in type: list[str");
}

#[test]
fn modules_and_unknown_names() {
    let t = parse_type_string("  Person ").unwrap();
    assert_eq!(t.kind, PyTypeKind::Class);
    assert_eq!(t.name, "Person");
    assert_eq!(t.module.as_deref(), Some("builtins"));
    let u = parse_type_string("Union[int, str]").unwrap();
    assert_eq!(u.module.as_deref(), Some("typing"));
    let g = parse_type_string("Foo[int]").unwrap();
    assert_eq!(g.kind, PyTypeKind::Any);
    assert_eq!(g.name, "Foo");
    assert_eq!(g.module, None);
    let q = parse_type_string("dict[str, \"a,b\"]").unwrap();
    assert_eq!(q.args.len(), 2);
}
