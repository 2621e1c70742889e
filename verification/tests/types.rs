use gasp::json_types::{JsonValue, Number};
use gasp::types::{
    array_type, capitalize, format_annoations, number_type, string_type, JsonValidationError, WAILAnnotation,
    WAILArray, WAILCompositeType, WAILField, WAILInteger, WAILNumber, WAILObject, WAILSimpleType, WAILString,
    WAILType, WAILTypeData, WAILUnion, WAILValue,
};

fn data(json_type: JsonValue, label: String) -> WAILTypeData {
    WAILTypeData { json_type, type_label: label, field_definitions: None, element_type: None }
}

fn string_t() -> WAILType {
    WAILType::Simple(WAILSimpleType::String(WAILString {
        value: String::new(),
        type_data: data(JsonValue::String(String::new()), string_type()),
    }))
}

fn int_t() -> WAILType {
    WAILType::Simple(WAILSimpleType::Number(WAILNumber::Integer(WAILInteger {
        value: 0,
        type_data: data(JsonValue::Number(Number::Integer(0)), number_type()),
    })))
}

fn field(name: &str, t: WAILType) -> WAILField {
    WAILField { name: name.to_string(), field_type: t, annotations: vec![] }
}

fn object_t(name: &str, fields: Vec<WAILField>) -> WAILType {
    WAILType::Composite(WAILCompositeType::Object(WAILObject {
        value: vec![],
        type_data: WAILTypeData {
            json_type: JsonValue::Object(vec![]),
            type_label: name.to_string(),
            field_definitions: Some(fields),
            element_type: None,
        },
    }))
}

#[test]
fn test_wail_string() {
    let json = JsonValue::String("hello".to_string());
    let wail: WAILString = WAILString::try_from(json.clone()).unwrap();
    assert_eq!(wail.value, "hello");
    let back: JsonValue = JsonValue::from(WAILType::Simple(WAILSimpleType::String(wail)));
    assert!(matches!(back, JsonValue::String(s) if s == "hello"));
}

#[test]
fn test_wail_number_integer() {
    let json = JsonValue::Number(Number::Integer(42));
    let wail: WAILNumber = WAILNumber::try_from(json.clone()).unwrap();
    assert!(matches!(wail, WAILNumber::Integer(ref n) if n.value == 42));
    let back: JsonValue = JsonValue::from(WAILType::Simple(WAILSimpleType::Number(wail)));
    assert!(matches!(back, JsonValue::Number(Number::Integer(42))));
}

#[test]
fn test_wail_number_float() {
    let json = JsonValue::Number(Number::Float(3.14f64.to_string()));
    let wail: WAILNumber = WAILNumber::try_from(json.clone()).unwrap();
    assert!(matches!(wail, WAILNumber::Float(ref f) if f.value.parse::<f64>().unwrap() == 3.14));
    let back: JsonValue = JsonValue::from(WAILType::Simple(WAILSimpleType::Number(wail)));
    assert!(matches!(back, JsonValue::Number(Number::Float(f)) if f.parse::<f64>().unwrap() == 3.14));
}

#[test]
fn test_wail_object() {
    let json = JsonValue::Object(vec![("key".to_string(), JsonValue::String("value".to_string()))]);
    let wail: WAILObject = WAILObject::try_from(json.clone()).unwrap();
    assert_eq!(wail.value.len(), 1);
    let back: JsonValue = JsonValue::from(WAILType::Composite(WAILCompositeType::Object(wail)));
    assert!(matches!(back, JsonValue::Object(m) if m.len() == 1));
}

#[test]
fn test_invalid_conversions() {
    let result = WAILString::try_from(JsonValue::Number(Number::Integer(42)));
    assert!(result.is_err());
    let result = WAILNumber::try_from(JsonValue::String("not a number".to_string()));
    assert!(result.is_err());
}

#[test]
fn test_array_type_json_conversion() {
    let hello = || {
        WAILType::Simple(WAILSimpleType::String(WAILString {
            value: "hello".to_string(),
            type_data: data(JsonValue::String("hello".to_string()), string_type()),
        }))
    };
    let string_array = WAILType::Composite(WAILCompositeType::Array(WAILArray {
        type_data: WAILTypeData {
            json_type: JsonValue::Array(vec![]),
            type_label: array_type(),
            field_definitions: None,
            element_type: Some(Box::new(hello())),
        },
        values: vec![
            hello(),
            WAILType::Simple(WAILSimpleType::String(WAILString {
                value: "world".to_string(),
                type_data: data(JsonValue::String("world".to_string()), string_type()),
            })),
        ],
    }));
    let json = JsonValue::from(string_array);
    assert!(matches!(json, JsonValue::Array(ref values) if values.len() == 2));
    if let JsonValue::Array(values) = json {
        assert!(matches!(&values[0], JsonValue::String(s) if s == "hello"));
        assert!(matches!(&values[1], JsonValue::String(s) if s == "world"));
    }
}

#[test]
fn test_json_validation() {
    let person_type = object_t("Person", vec![field("name", string_t()), field("age", int_t())]);

    let valid = JsonValue::Object(vec![
        ("name".to_string(), JsonValue::String("John".to_string())),
        ("age".to_string(), JsonValue::Number(Number::Integer(30))),
    ]);
    assert!(person_type.validate_json(&valid).is_ok());

    let missing_age = JsonValue::Object(vec![("name".to_string(), JsonValue::String("John".to_string()))]);
    assert!(person_type.validate_json(&missing_age).is_err());

    let wrong_age = JsonValue::Object(vec![
        ("name".to_string(), JsonValue::String("John".to_string())),
        ("age".to_string(), JsonValue::String("30".to_string())),
    ]);
    assert!(person_type.validate_json(&wrong_age).is_err());
}

#[test]
fn validation_errors_name_the_problem() {
    let person_type = object_t("Person", vec![field("name", string_t()), field("age", int_t())]);
    let missing_age = JsonValue::Object(vec![("name".to_string(), JsonValue::String("John".to_string()))]);
    match person_type.validate_json(&missing_age) {
        Err(JsonValidationError::ObjectMissingRequiredField(f)) => assert_eq!(f, "age"),
        other => panic!("unexpected {:?}", other),
    }
    let wrong_age = JsonValue::Object(vec![
        ("name".to_string(), JsonValue::String("John".to_string())),
        ("age".to_string(), JsonValue::String("30".to_string())),
    ]);
    match person_type.validate_json(&wrong_age) {
        Err(JsonValidationError::ObjectNestedTypeValidation((f, inner))) => {
            assert_eq!(f, "age");
            assert!(matches!(*inner, JsonValidationError::ExpectedTypeError((None, ref t)) if t == "Number"));
        }
        other => panic!("unexpected {:?}", other),
    }
    let meta = object_t("Person", vec![field("_type", string_t())]);
    assert!(matches!(meta.validate_json(&JsonValue::Object(vec![])), Err(JsonValidationError::ObjectMissingMetaType)));
    let no_fields = WAILType::Composite(WAILCompositeType::Object(WAILObject {
        value: vec![],
        type_data: data(JsonValue::Object(vec![]), "X".to_string()),
    }));
    assert!(matches!(no_fields.validate_json(&JsonValue::Object(vec![])), Err(JsonValidationError::ObjectMissingAllFields)));
    let arr = WAILType::Composite(WAILCompositeType::Array(WAILArray {
        values: vec![],
        type_data: WAILTypeData {
            json_type: JsonValue::Array(vec![]),
            type_label: array_type(),
            field_definitions: None,
            element_type: Some(Box::new(int_t())),
        },
    }));
    let bad = JsonValue::Array(vec![JsonValue::Number(Number::Integer(1)), JsonValue::Null]);
    assert!(matches!(arr.validate_json(&bad), Err(JsonValidationError::ArrayElementTypeError((1, _)))));
}

#[test]
fn union_validation_collects_member_errors() {
    let u = WAILType::Composite(WAILCompositeType::Union(WAILUnion {
        members: vec![field("A", string_t()), field("B", int_t())],
        type_data: data(JsonValue::Null, "AB".to_string()),
    }));
    assert!(u.validate_json(&JsonValue::String("x".to_string())).is_ok());
    assert!(u.validate_json(&JsonValue::Number(Number::Integer(2))).is_ok());
    match u.validate_json(&JsonValue::Boolean(true)) {
        Err(JsonValidationError::NotMemberOfUnion((names, errs))) => {
            assert_eq!(names, "String | Number");
            assert_eq!(errs.len(), 2);
        }
        other => panic!("unexpected {:?}", other),
    }
}

#[test]
fn schema_text() {
    let person_type = object_t("Person", vec![field("name", string_t()), field("age", int_t())]);
    assert_eq!(person_type.to_schema(), "\n{\n  name: String\n  age: Number\n}");
    let lit = WAILType::Value(WAILValue::Number(-12));
    assert_eq!(lit.to_schema(), "-12");
    let u = WAILType::Composite(WAILCompositeType::Union(WAILUnion {
        members: vec![field("A", string_t()), field("P", person_type)],
        type_data: data(JsonValue::Null, "AP".to_string()),
    }));
    assert_eq!(
        u.to_schema(),
        "\nAny of these JSON-like formats:\n\nFormat 1: string\n\n-- OR --\n\nFormat 2: Person: \n{\n  name: String\n  age: Number\n}"
    );
}

#[test]
fn capitalize_and_annotations() {
    assert_eq!(capitalize("string"), "String");
    assert_eq!(capitalize(""), "");
    assert_eq!(format_annoations(vec![]), "");
    let a = vec![
        WAILAnnotation::Description("d".to_string()),
        WAILAnnotation::Field { name: "f".to_string(), annotations: vec![WAILAnnotation::Example("e".to_string())] },
    ];
    assert_eq!(format_annoations(a), " # Description: d\n# Field: f\n  Example: e\n");
}
