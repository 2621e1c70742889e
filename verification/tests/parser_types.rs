use gasp::json_types::{JsonValue, Number};
use gasp::parser_types::{
    count_leading_whitespace, get_nested_value, render_segments, replace_str, TemplateArgument,
    WAILObjectInstantiation, WAILTemplateDef,
};
use gasp::template_parser::parse_template;
use gasp::types::{
    number_type, string_type, WAILAnnotation, WAILCompositeType, WAILField, WAILInteger, WAILNumber, WAILObject,
    WAILSimpleType, WAILString, WAILType, WAILTypeData,
};

fn jstr(s: &str) -> JsonValue {
    JsonValue::String(s.to_string())
}

fn create_test_json() -> Vec<(String, JsonValue)> {
    let address = vec![("street".to_string(), jstr("123 Main St")), ("city".to_string(), jstr("Springfield"))];
    let user = vec![
        ("name".to_string(), jstr("John")),
        ("age".to_string(), JsonValue::Number(Number::Integer(30))),
        ("address".to_string(), JsonValue::Object(address)),
        ("hobbies".to_string(), JsonValue::Array(vec![jstr("reading"), jstr("gaming")])),
    ];
    vec![("user".to_string(), JsonValue::Object(user))]
}

#[test]
fn test_get_nested_value_basic() {
    let json = create_test_json();
    let name = get_nested_value(&json, "user.name");
    assert_eq!(name.and_then(|v| v.as_string()), Some("John".to_string()).as_ref());
    let city = get_nested_value(&json, "user.address.city");
    assert_eq!(city.and_then(|v| v.as_string()), Some("Springfield".to_string()).as_ref());
    let hobby = get_nested_value(&json, "user.hobbies.0");
    assert_eq!(hobby.and_then(|v| v.as_string()), Some("reading".to_string()).as_ref());
}

#[test]
fn test_get_nested_value_error_cases() {
    let json = create_test_json();
    assert_eq!(get_nested_value(&json, "invalid.path").and_then(|v| v.as_string()), None);
    assert_eq!(get_nested_value(&json, "").and_then(|v| v.as_string()), None);
    assert_eq!(get_nested_value(&json, "user.hobbies.99").and_then(|v| v.as_string()), None);
    assert_eq!(get_nested_value(&json, "user.name.invalid").and_then(|v| v.as_string()), None);
}

#[test]
fn nested_paths_trim_and_accept_plus_indices() {
    let json = create_test_json();
    assert_eq!(get_nested_value(&json, " user . hobbies . +1 ").and_then(|v| v.as_string()).unwrap(), "gaming");
    assert!(get_nested_value(&json, "user..name").is_some());
}

#[test]
fn rendering_variables_and_loops() {
    let ctx = create_test_json();
    let (_, segs) = parse_template("{{user.name}} ({{user.age}}) in {{user.address.city}}: {{#each user.hobbies}}*{{/each}}").unwrap();
    let mut out = String::new();
    render_segments(&segs, &mut out, &ctx).unwrap();
    assert_eq!(out, "John (30) in Springfield: *\n*");

    // inside a loop, `.` is the item
    let (_, segs) = parse_template("{{#each user.hobbies}}* {{.}}{{/each}}").unwrap();
    let mut out = String::new();
    render_segments(&segs, &mut out, &ctx).unwrap();
    assert_eq!(out, "* reading\n* gaming");

    // outside a loop it names nothing
    let (_, segs) = parse_template("x {{.}}").unwrap();
    let mut out = String::new();
    assert_eq!(render_segments(&segs, &mut out, &ctx).unwrap_err(), "variable not found: .");

    let (_, segs) = parse_template("a {{missing}} b").unwrap();
    let mut out = String::new();
    let e = render_segments(&segs, &mut out, &ctx).unwrap_err();
    assert_eq!(e, "variable not found: missing");
    assert_eq!(out, "a ");
}

#[test]
fn each_loop_sees_object_fields() {
    let pets = JsonValue::Array(vec![
        JsonValue::Object(vec![("name".into(), jstr("Fluffy")), ("type".into(), jstr("cat"))]),
        JsonValue::Object(vec![("name".into(), jstr("Rover")), ("type".into(), jstr("dog"))]),
    ]);
    let ctx = vec![("pets".to_string(), pets)];
    let (_, segs) = parse_template("{{#each pets}}Pet: {{name}} is a {{type}}{{/each}}").unwrap();
    let mut out = String::new();
    render_segments(&segs, &mut out, &ctx).unwrap();
    assert_eq!(out, "Pet: Fluffy is a cat\nPet: Rover is a dog");
}

#[test]
fn argument_text() {
    let a = TemplateArgument::Array(vec![
        TemplateArgument::String("one".into()),
        TemplateArgument::Number(-2),
        TemplateArgument::TemplateArgRef("x".into()),
        TemplateArgument::Object(vec![("k".into(), TemplateArgument::TypeRef("String".into()))]),
    ]);
    assert_eq!(a.to_string(), "[one, -2, $x, {k: String}]");
}

#[test]
fn replace_and_whitespace() {
    assert_eq!(replace_str("a{{x}}b{{x}}", "{{x}}", "Y"), "aYbY");
    assert_eq!(replace_str("abc", "zz", "Y"), "abc");
    assert_eq!(replace_str("ab", "", "-"), "-a-b-");
    assert_eq!(count_leading_whitespace("  \tx "), 3);
}

fn string_t() -> WAILType {
    WAILType::Simple(WAILSimpleType::String(WAILString {
        value: String::new(),
        type_data: WAILTypeData {
            json_type: JsonValue::String(String::new()),
            type_label: string_type(),
            field_definitions: None,
            element_type: None,
        },
    }))
}

fn person_t() -> WAILType {
    let age = WAILType::Simple(WAILSimpleType::Number(WAILNumber::Integer(WAILInteger {
        value: 0,
        type_data: WAILTypeData {
            json_type: JsonValue::Number(Number::Integer(0)),
            type_label: number_type(),
            field_definitions: None,
            element_type: None,
        },
    })));
    WAILType::Composite(WAILCompositeType::Object(WAILObject {
        value: vec![],
        type_data: WAILTypeData {
            json_type: JsonValue::Object(vec![]),
            type_label: "Person".to_string(),
            field_definitions: Some(vec![
                WAILField { name: "name".into(), field_type: string_t(), annotations: vec![] },
                WAILField { name: "age".into(), field_type: age, annotations: vec![] },
            ]),
            element_type: None,
        },
    }))
}

#[test]
fn interpolation_with_arguments() {
    let tpl = WAILTemplateDef {
        name: "ParseDate".into(),
        inputs: vec![WAILField { name: "date_string".into(), field_type: string_t(), annotations: vec![] }],
        output: WAILField { name: "out".into(), field_type: person_t(), annotations: vec![] },
        prompt_template: "Parse this date: {{date_string}}\n  Return: {{return_type}}".into(),
        annotations: vec![],
    };
    let args = vec![("date_string".to_string(), TemplateArgument::String("January 1st, 2024".into()))];
    let objs: Vec<(String, WAILObjectInstantiation)> = vec![];
    let out = tpl.interpolate_prompt(Some(&args), &objs).unwrap();
    assert_eq!(
        out,
        "Parse this date: January 1st, 2024\n  Return: \nAnswer using this schema:\n\n  {\n    name: String\n    age: Number\n  }\nWrap the value in <Person> … </Person>."
    );
}

#[test]
fn interpolation_reports_missing_placeholder() {
    let tpl = WAILTemplateDef {
        name: "T".into(),
        inputs: vec![WAILField { name: "x".into(), field_type: string_t(), annotations: vec![] }],
        output: WAILField { name: "out".into(), field_type: string_t(), annotations: vec![] },
        prompt_template: "no placeholder here".into(),
        annotations: vec![],
    };
    let objs: Vec<(String, WAILObjectInstantiation)> = vec![];
    let e = tpl.interpolate_prompt(None, &objs).unwrap_err();
    assert_eq!(e, "Missing placeholder for input: x");
}

#[test]
fn interpolation_without_arguments_shows_schema_and_annotations() {
    let tpl = WAILTemplateDef {
        name: "T".into(),
        inputs: vec![WAILField {
            name: "p".into(),
            field_type: person_t(),
            annotations: vec![
                WAILAnnotation::Description("a person".into()),
                WAILAnnotation::Field { name: "age".into(), annotations: vec![WAILAnnotation::Example("42".into())] },
            ],
        }],
        output: WAILField { name: "out".into(), field_type: string_t(), annotations: vec![] },
        prompt_template: "In: {{p}}".into(),
        annotations: vec![],
    };
    let objs: Vec<(String, WAILObjectInstantiation)> = vec![];
    let out = tpl.interpolate_prompt(None, &objs).unwrap();
    assert_eq!(
        out,
        "In: \n{\n  name: String\n  age: Number\n}\n# General:\n# a person\n\n# Field Requirements:\n# For age:\n#   Example: 42\n"
    );
}

#[test]
fn interpolation_with_object_reference() {
    let tpl = WAILTemplateDef {
        name: "T".into(),
        inputs: vec![WAILField { name: "art".into(), field_type: string_t(), annotations: vec![] }],
        output: WAILField { name: "out".into(), field_type: string_t(), annotations: vec![] },
        prompt_template: "{{art}}: {{a.content}} at {{a.url}}".into(),
        annotations: vec![],
    };
    let inst = WAILObjectInstantiation {
        binding_name: "a".into(),
        object_type: "Article".into(),
        fields: vec![
            ("content".into(), TemplateArgument::String("I am an article".into())),
            ("url".into(), TemplateArgument::String("www.example.com".into())),
        ],
    };
    let objs = vec![("a".to_string(), inst)];
    let args = vec![("art".to_string(), TemplateArgument::ObjectRef("a".into()))];
    let out = tpl.interpolate_prompt(Some(&args), &objs).unwrap();
    assert_eq!(
        out,
        "{\"content\": \"I am an article\", \"url\": \"www.example.com\"}: I am an article at www.example.com"
    );
}

fn user_instances() -> Vec<(String, WAILObjectInstantiation)> {
    let address = WAILObjectInstantiation {
        binding_name: "a".into(),
        object_type: "Address".into(),
        fields: vec![
            ("city".into(), TemplateArgument::String("Springfield".into())),
            ("street".into(), TemplateArgument::String("123 Main St".into())),
        ],
    };
    let user = WAILObjectInstantiation {
        binding_name: "u".into(),
        object_type: "User".into(),
        fields: vec![
            ("name".into(), TemplateArgument::String("John".into())),
            ("age".into(), TemplateArgument::Number(30)),
            ("address".into(), TemplateArgument::ObjectRef("a".into())),
            (
                "hobbies".into(),
                TemplateArgument::Array(vec![
                    TemplateArgument::String("reading".into()),
                    TemplateArgument::String("gaming".into()),
                ]),
            ),
        ],
    };
    vec![("u".to_string(), user), ("a".to_string(), address)]
}

fn void_template(body: &str) -> WAILTemplateDef {
    WAILTemplateDef {
        name: "UserTpl".into(),
        inputs: vec![],
        output: WAILField { name: "Void".into(), field_type: string_t(), annotations: vec![] },
        prompt_template: body.into(),
        annotations: vec![],
    }
}

#[test]
fn test_complex_template() {
    let tpl = void_template(
        "User {{user.name}} ({{user.age}}) lives in {{user.address.city}}.\nHobbies:\n{{#each user.hobbies}}* {{.}}\n{{/each}}",
    );
    let args = vec![("user".to_string(), TemplateArgument::ObjectRef("u".into()))];
    let rendered = tpl.interpolate_prompt(Some(&args), &user_instances()).unwrap();
    assert_eq!(rendered, "User John (30) lives in Springfield.\nHobbies:\n* reading\n* gaming\n");
}

#[test]
fn test_each_loop_nested_properties() {
    let tpl = void_template("{{#each pets}}Pet: {{name}} is a {{type}}{{/each}}");
    let pets = TemplateArgument::Array(vec![
        TemplateArgument::Object(vec![
            ("name".into(), TemplateArgument::String("Fluffy".into())),
            ("type".into(), TemplateArgument::String("cat".into())),
        ]),
        TemplateArgument::Object(vec![
            ("name".into(), TemplateArgument::String("Rover".into())),
            ("type".into(), TemplateArgument::String("dog".into())),
        ]),
    ]);
    let args = vec![("pets".to_string(), pets)];
    let rendered = tpl.interpolate_prompt(Some(&args), &vec![]).unwrap();
    assert_eq!(rendered, "Pet: Fluffy is a cat\nPet: Rover is a dog");
}
