use gasp::python_types::{PyTypeInfo, PyTypeKind};
use gasp::tag_set::wanted_tags;

fn ty(kind: PyTypeKind, name: &str, args: Vec<PyTypeInfo>) -> PyTypeInfo {
    PyTypeInfo::new(kind, name.to_string()).with_args(args)
}

fn strings(v: &[&str]) -> Vec<String> {
    v.iter().map(|s| s.to_string()).collect()
}

#[test]
fn tags_cover_union_members_and_list_items() {
    let person = ty(PyTypeKind::Class, "Person", vec![]);
    let address = ty(PyTypeKind::Class, "Address", vec![]);
    let list = ty(PyTypeKind::List, "List", vec![ty(PyTypeKind::Class, "Person", vec![])]);
    let union = ty(PyTypeKind::Union, "Union", vec![list, person, address]);
    assert_eq!(
        wanted_tags(&union),
        strings(&["Address", "List", "Person", "Union", "address", "list", "person", "union"])
    );
}

#[test]
fn a_repeated_name_is_looked_into_once() {
    let a = ty(PyTypeKind::Class, "A", vec![]);
    let b = ty(PyTypeKind::Class, "B", vec![]);
    let first = ty(PyTypeKind::List, "List", vec![a]);
    let second = ty(PyTypeKind::List, "List", vec![b]);
    let union = ty(PyTypeKind::Union, "Union", vec![first, second]);
    assert_eq!(wanted_tags(&union), strings(&["A", "List", "Union", "a", "list", "union"]));
}

#[test]
fn classes_and_dicts_give_their_own_name() {
    let person = ty(PyTypeKind::Class, "Person", vec![]);
    assert_eq!(wanted_tags(&person), strings(&["Person", "person"]));
    let s = ty(PyTypeKind::String, "str", vec![]);
    let dict = ty(PyTypeKind::Dict, "Dict", vec![ty(PyTypeKind::String, "str", vec![]), ty(PyTypeKind::Class, "Item", vec![])]);
    assert_eq!(wanted_tags(&dict), strings(&["Dict", "dict"]));
    assert_eq!(wanted_tags(&s), strings(&["str"]));
}
