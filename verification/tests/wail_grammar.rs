use gasp::json_types::{JsonValue, Number};
use gasp::types::{
    JsonValidationError, PathSegment, WAILAnnotation, WAILCompositeType, WAILSimpleType, WAILType,
};
use gasp::parser_types::TemplateArgument;
use gasp::wail_grammar::{MainStatement, ParseStep, WAILDefinition, WAILParser};
use gasp::wail_parser::{ValidationError, ValidationWarning, WAILFileType, WAILParseError};

fn parser() -> WAILParser {
    WAILParser::new("/tmp".to_string())
}

fn object_fields(d: &WAILDefinition) -> Vec<(String, String)> {
    match d {
        WAILDefinition::Object(f) => match &f.field_type {
            WAILType::Composite(WAILCompositeType::Object(o)) => o
                .type_data
                .field_definitions
                .as_ref()
                .unwrap()
                .iter()
                .map(|f| (f.name.clone(), f.field_type.type_label().to_string()))
                .collect(),
            _ => panic!("Expected object type"),
        },
        _ => panic!("Expected object definition"),
    }
}

#[test]
fn test_parse_basic_object() {
    let input = r#"object Person {
            name: String
            age: Number
      }"#;
    let mut p = parser();
    let defs = p.parse_wail_file(input.to_string(), WAILFileType::Library, true).unwrap();
    assert_eq!(defs.len(), 1);
    let fields = object_fields(&defs[0]);
    // the two fields above and then the implicit _type field
    assert_eq!(fields.len(), 3);
    assert_eq!(fields[0], ("name".to_string(), "String".to_string()));
    assert_eq!(fields[1], ("age".to_string(), "Number".to_string()));
    assert_eq!(fields[2].0, "_type");
}

#[test]
fn test_array_with_annotations() {
    let input = r#"
        object Test {
            items: String[] @description("An array of strings")
            mix: Number[] @description("Array with numbers") #Comment
        }
        "#;
    let mut p = parser();
    let defs = p.parse_wail_file(input.to_string(), WAILFileType::Library, true).unwrap();
    match &defs[0] {
        WAILDefinition::Object(field) => match &field.field_type {
            WAILType::Composite(WAILCompositeType::Object(obj)) => {
                let fields = obj.type_data.field_definitions.as_ref().unwrap();
                assert_eq!(fields[0].name, "items");
                assert!(matches!(fields[0].field_type, WAILType::Composite(WAILCompositeType::Array(_))));
                assert_eq!(fields[0].annotations.len(), 1, "items field should have 1 annotation");
                assert_eq!(fields[1].name, "mix");
                assert!(matches!(fields[1].field_type, WAILType::Composite(WAILCompositeType::Array(_))));
                assert_eq!(fields[1].annotations.len(), 1, "mix field should have 1 annotation");
                assert_eq!(fields[1].annotations[0], WAILAnnotation::Description("Array with numbers".into()));
            }
            _ => panic!("Expected object type"),
        },
        _ => panic!("Expected object definition"),
    }
}

#[test]
fn wail_parser_test_parse_template() {
    let input = r#"object DateInfo {
        day: Number
        month: String
    }
    template ParseDate(date_string: String) -> DateInfo {
            prompt: """
            Extract structured date information from the following date string.
            Date:
            ---
            {{date_string}}
            ---
            Return a structured result matching: {{return_type}}
            """
      }"#;
    let mut p = parser();
    let defs = p.parse_wail_file(input.to_string(), WAILFileType::Library, true).unwrap();
    match &defs[1] {
        WAILDefinition::Template(template) => {
            assert_eq!(template.name, "ParseDate");
            assert_eq!(template.inputs.len(), 1);
            assert_eq!(template.inputs[0].name, "date_string");
            assert!(template.prompt_template.contains("{{date_string}}"));
            assert!(template.prompt_template.contains("{{return_type}}"));
            assert!(template.output.name == "DateInfo");
            assert!(template.prompt_template.trim_start_matches('\n').starts_with("Extract structured date"));
        }
        _ => panic!("Expected template definition"),
    }
}

#[test]
fn test_parse_complex_template() {
    let input = r#"template AnalyzeBookClub(
      discussion_log: String,
      participant_names: String[],
      book_details: BookInfo
   ) -> BookClubAnalysis @description("Analyzes book club discussion patterns") {
      prompt: """
      Analyze the following book club discussion.

      Book Details:
      {{book_details}}

      Participants:
      {{participant_names}}

      Discussion:
      {{discussion_log}}

      Return: {{return_type}}
      """
   }"#;
    let mut p = parser();
    let defs = p.parse_wail_file(input.to_string(), WAILFileType::Library, true).unwrap();
    match &defs[0] {
        WAILDefinition::Template(template) => {
            assert_eq!(template.name, "AnalyzeBookClub");
            assert_eq!(template.inputs.len(), 3);
            let inputs = &template.inputs;
            assert_eq!(inputs[0].name, "discussion_log");
            assert!(matches!(inputs[0].field_type, WAILType::Simple(_)));
            assert_eq!(inputs[1].name, "participant_names");
            assert!(matches!(inputs[1].field_type, WAILType::Composite(WAILCompositeType::Array(_))));
            assert_eq!(inputs[2].name, "book_details");
            assert!(matches!(inputs[2].field_type, WAILType::Composite(WAILCompositeType::Object(_))));
            assert_eq!(template.output.name, "BookClubAnalysis");
            assert_eq!(template.annotations.len(), 1);
            assert!(matches!(
                template.annotations[0],
                WAILAnnotation::Description(ref s) if s == "Analyzes book club discussion patterns"
            ));
            let prompt = &template.prompt_template;
            assert!(prompt.contains("{{discussion_log}}"));
            assert!(prompt.contains("{{participant_names}}"));
            assert!(prompt.contains("{{book_details}}"));
            assert!(prompt.contains("{{return_type}}"));
        }
        _ => panic!("Expected template definition"),
    }
}

#[test]
fn unions_name_members_by_position() {
    let input = "object A { x: String }\nunion AorB = A | B[];";
    let mut p = parser();
    let defs = p.parse_wail_file(input.to_string(), WAILFileType::Library, true).unwrap();
    match &defs[1] {
        WAILDefinition::Union(f) => {
            assert_eq!(f.name, "AorB");
            match &f.field_type {
                WAILType::Composite(WAILCompositeType::Union(u)) => {
                    assert_eq!(u.members.len(), 2);
                    assert_eq!(u.members[0].name, "member_0");
                    assert_eq!(u.members[1].name, "member_1");
                    assert_eq!(u.members[0].field_type.type_label(), "A");
                    assert_eq!(u.members[1].field_type.type_label(), "Array");
                    assert_eq!(u.type_data.type_label, "AorB");
                }
                _ => panic!("Expected union type"),
            }
        }
        _ => panic!("Expected union definition"),
    }
}

#[test]
fn inline_objects_and_inline_unions() {
    let input = "object Holder { inner: { a: Number b: Boolean } choice: String | Number }";
    let mut p = parser();
    let defs = p.parse_wail_file(input.to_string(), WAILFileType::Library, true).unwrap();
    match &defs[0] {
        WAILDefinition::Object(f) => match &f.field_type {
            WAILType::Composite(WAILCompositeType::Object(o)) => {
                let fs = o.type_data.field_definitions.as_ref().unwrap();
                assert_eq!(fs[0].field_type.type_label(), "adhoc_1");
                match &fs[1].field_type {
                    WAILType::Composite(WAILCompositeType::Union(u)) => {
                        assert_eq!(u.type_data.type_label, "Union");
                        assert!(matches!(u.members[1].field_type, WAILType::Simple(WAILSimpleType::Number(_))));
                    }
                    _ => panic!("Expected inline union"),
                }
            }
            _ => panic!("Expected object type"),
        },
        _ => panic!("Expected object definition"),
    }
}

#[test]
fn repeated_definitions_are_looked_up() {
    let input = "object P { a: String }\nobject P { b: Number }";
    let mut p = parser();
    let defs = p.parse_wail_file(input.to_string(), WAILFileType::Library, true).unwrap();
    assert_eq!(defs.len(), 2);
    // the second definition of P gives back the first
    assert_eq!(object_fields(&defs[1])[0].0, "a");
}

#[test]
fn imports_are_read_as_declarations() {
    let input = "import { Person, Address } from \"types.lib.wail\"\nobject X { y: Person }";
    let mut p = parser();
    p.add_source(
        "/tmp/types.lib.wail".to_string(),
        Ok("object Person { name: String }\nobject Address { street: String }".to_string()),
    );
    let defs = p.parse_wail_file(input.to_string(), WAILFileType::Library, true).unwrap();
    match &defs[0] {
        WAILDefinition::Import(i) => {
            assert_eq!(i.items, vec!["Person".to_string(), "Address".to_string()]);
            assert_eq!(i.path, "types.lib.wail");
        }
        _ => panic!("Expected import"),
    }
    assert_eq!(object_fields(&defs[1])[0].1, "Person");
}

#[test]
fn parse_errors() {
    let mut p = parser();
    match p.parse_wail_file("object 7 {}".to_string(), WAILFileType::Library, true) {
        Err(WAILParseError::UnexpectedToken { found, location }) => {
            assert_eq!(found, "7");
            assert_eq!((location.line, location.column), (1, 10));
        }
        other => panic!("unexpected {:?}", other),
    }
    match p.parse_wail_file("object A {\n x: String".to_string(), WAILFileType::Library, true) {
        Err(WAILParseError::UnexpectedEOF { expected, .. }) => assert_eq!(expected, "field or closing brace"),
        other => panic!("unexpected {:?}", other),
    }
    match p.parse_wail_file("object object {}".to_string(), WAILFileType::Library, true) {
        Err(WAILParseError::UnexpectedKeyword { found, .. }) => assert_eq!(found, "object"),
        other => panic!("unexpected {:?}", other),
    }
    match p.parse_wail_file("main { }".to_string(), WAILFileType::Library, true) {
        Err(WAILParseError::UnexpectedToken { found, .. }) => assert_eq!(found, "main block in library file"),
        other => panic!("unexpected {:?}", other),
    }
    match p.parse_wail_file("object A { x: String }".to_string(), WAILFileType::Application, true) {
        Err(WAILParseError::MissingMainBlock) => {}
        other => panic!("unexpected {:?}", other),
    }
}

#[test]
fn ambiguous_names_are_refused() {
    let mut p = parser();
    p.parse_wail_file("object A { x: String }".to_string(), WAILFileType::Library, true).unwrap();
    // without clearing, definitions accumulate
    let defs = p.parse_wail_file("object B { y: A }".to_string(), WAILFileType::Library, false).unwrap();
    assert_eq!(object_fields(&defs[0])[0].1, "A");
}

fn person_parser() -> WAILParser {
    let mut p = parser();
    p.parse_wail_file(
        "object Person { name: String age: Number }\nobject Pet { kind: String }".to_string(),
        WAILFileType::Library,
        true,
    )
    .unwrap();
    p
}

fn obj(entries: Vec<(&str, JsonValue)>) -> JsonValue {
    JsonValue::Object(entries.into_iter().map(|(k, v)| (k.to_string(), v)).collect())
}

#[test]
fn fix_infers_missing_type() {
    let p = person_parser();
    let mut v = obj(vec![("name", JsonValue::String("Al".into())), ("age", JsonValue::Number(Number::Integer(3)))]);
    let path = p.get_error_location(&JsonValidationError::ObjectMissingMetaType);
    assert!(p.fix_json_value(&mut v, &path).is_ok());
    assert_eq!(v.get("_type"), Some(&JsonValue::String("Person".into())));

    // nothing fits: refused, value untouched
    let mut w = obj(vec![("color", JsonValue::Null)]);
    let e = p.fix_json_value(&mut w, &[PathSegment::MissingMetaType]).unwrap_err();
    assert_eq!(e, "Could not unambiguously determine type from fields");
    assert_eq!(w, obj(vec![("color", JsonValue::Null)]));
}

#[test]
fn fix_coerces_nested_values() {
    let p = person_parser();
    let mut v = obj(vec![("age", JsonValue::String("42".into()))]);
    let err = JsonValidationError::ObjectNestedTypeValidation((
        "age".into(),
        Box::new(JsonValidationError::ExpectedTypeError((None, "Number".into()))),
    ));
    let path = p.get_error_location(&err);
    p.fix_json_value(&mut v, &path).unwrap();
    assert_eq!(v.get("age"), Some(&JsonValue::Number(Number::Integer(42))));

    let mut b = JsonValue::String("TRUE".into());
    p.fix_json_value(&mut b, &[PathSegment::ExpectedType(None, "Boolean".into())]).unwrap();
    assert_eq!(b, JsonValue::Boolean(true));

    let mut n = JsonValue::Number(Number::Integer(7));
    let e = p.fix_json_value(&mut n, &[PathSegment::ExpectedType(None, "Boolean".into())]).unwrap_err();
    assert_eq!(e, "Number is not 0 or 1");

    let mut s = JsonValue::Number(Number::Integer(-5));
    p.fix_json_value(&mut s, &[PathSegment::ExpectedType(None, "String".into())]).unwrap();
    assert_eq!(s, JsonValue::String("-5".into()));

    let mut a = JsonValue::Null;
    p.fix_json_value(&mut a, &[PathSegment::ExpectedType(None, "Array".into())]).unwrap();
    assert_eq!(a, JsonValue::Array(vec![JsonValue::Null]));

    let mut plus = JsonValue::String("+12".into());
    p.fix_json_value(&mut plus, &[PathSegment::ExpectedType(None, "Number".into())]).unwrap();
    assert_eq!(plus, JsonValue::Number(Number::Integer(12)));
}

#[test]
fn fix_path_errors() {
    let p = person_parser();
    let mut arr = JsonValue::Array(vec![JsonValue::Null]);
    let e = p
        .fix_json_value(&mut arr, &[PathSegment::ArrayIndex(3), PathSegment::MissingMetaType])
        .unwrap_err();
    assert_eq!(e, "Expected element in array at index 3");
    let mut o = obj(vec![]);
    let e = p.fix_json_value(&mut o, &[PathSegment::Field("x".into())]).unwrap_err();
    assert_eq!(e, "Missing field x from object.");
    let mut n = JsonValue::Null;
    let e = p
        .fix_json_value(&mut n, &[PathSegment::ExpectedType(Some("f".into()), "String".into())])
        .unwrap_err();
    assert_eq!(e, "Cannot access field f on non-object value");
    let e = p.fix_json_value(&mut n, &[PathSegment::ExpectedType(None, "Date".into())]).unwrap_err();
    assert_eq!(e, "Unrecognized type for conversion");
}

#[test]
fn fix_tries_union_members_in_turn() {
    let p = person_parser();
    let mut v = obj(vec![("kind", JsonValue::String("cat".into()))]);
    let err = JsonValidationError::NotMemberOfUnion((
        "Person | Pet".into(),
        vec![
            ("Person".into(), Box::new(JsonValidationError::ObjectMissingRequiredField("name".into()))),
            ("Pet".into(), Box::new(JsonValidationError::ObjectMissingMetaType)),
        ],
    ));
    let path = p.get_error_location(&err);
    p.fix_json_value(&mut v, &path).unwrap();
    assert_eq!(v.get("_type"), Some(&JsonValue::String("Pet".into())));

    let mut x = JsonValue::Null;
    let e = p.fix_json_value(&mut x, &path).unwrap_err();
    assert_eq!(e, "Expected object for union type");
}

#[test]
fn test_validation() {
    let mut p = parser();
    let input = r#"template ProcessData(
            raw_data: DataInput,
            config: ProcessConfig[]
      ) -> DataOutput {
            prompt: """
            Process the data according to the configuration.
            Input: {{raw_data}}
            Config: {{config}}
            Output format: {{return_type}}
            """
      }"#;
    p.parse_wail_file(input.to_string(), WAILFileType::Library, true).unwrap();
    let (warnings, errors) = p.validate();
    assert_eq!(errors.len(), 3);
    let error_types: Vec<_> = errors
        .iter()
        .map(|e| match e {
            ValidationError::UndefinedTypeInTemplate { type_label, .. } => type_label.as_str(),
        })
        .collect();
    assert!(error_types.contains(&"DataInput"));
    assert!(error_types.contains(&"DataOutput"));
    assert!(error_types.contains(&"ProcessConfig"));
    assert!(warnings.iter().any(|w| matches!(w, ValidationWarning::NoMainBlock)));

    let type_def = r#"object DataInputs {
            field1: String
            field2: Number
      }"#;
    p.parse_wail_file(type_def.to_string(), WAILFileType::Library, false).unwrap();
    let (warnings, _errors) = p.validate();
    assert!(warnings.iter().any(|w| matches!(w,
          ValidationWarning::PossibleTypo { type_label, similar_to, location }
             if type_label == "DataInput" && similar_to == "DataInputs"
                && location == "parameter type in template ProcessData"
    )));
}

fn lib_parser(base: &str, files: &[(&str, &str)]) -> WAILParser {
    let mut p = WAILParser::new(base.to_string());
    for (path, text) in files {
        p.add_source(format!("{}/{}", base, path), Ok(text.to_string()));
    }
    p
}

#[test]
fn test_circular_imports() {
    let mut p = lib_parser(
        "/work",
        &[
            ("a.lib.wail", "import { B } from \"b.lib.wail\"\n        object A { field: String }"),
            ("b.lib.wail", "import { A } from \"a.lib.wail\"\n        object B { field: String }"),
        ],
    );
    let input = "import { A } from \"a.lib.wail\"\n    main { prompt { } }";
    let result = p.parse_wail_file(input.to_string(), WAILFileType::Application, true);
    match result {
        Err(WAILParseError::CircularImport { path, chain }) => {
            assert_eq!(path, "/work/a.lib.wail");
            assert_eq!(chain, vec!["/work/a.lib.wail".to_string(), "/work/b.lib.wail".to_string()]);
        }
        other => panic!("expected a circular import, got {:?}", other),
    }
}

const TYPES_LIB: &str = r#"
        object Person {
            name: String
            age: Number
        }

        object Address {
            street: String
            city: String
            country: String
        }

        union ContactInfo = Person | Address;
        "#;

const TEMPLATES_LIB: &str = r#"
        import { Person, Address, ContactInfo } from "types.lib.wail"

        template GetPerson(name: String, age: Number) -> Person {
            prompt: """
            Create a person with name {{name}} and age {{age}}.
            {{return_type}}
            """
        }

        template GetContactInfo(info: String) -> ContactInfo {
            prompt: """
            Parse this info: {{info}}
            Return in this format: {{return_type}}
            """
        }
        "#;

const NESTED_LIB: &str = r#"
        import { GetPerson } from "templates.lib.wail"

        object ExtendedPerson {
            person: Person
            notes: String
        }
        "#;

#[test]
fn imports_register_under_their_path() {
    let mut p = lib_parser(
        "/work",
        &[("types.lib.wail", TYPES_LIB), ("templates.lib.wail", TEMPLATES_LIB), ("nested.lib.wail", NESTED_LIB)],
    );
    let input = r#"
    import { Person, ContactInfo } from "types.lib.wail"
    import { GetContactInfo } from "templates.lib.wail"
    import { ExtendedPerson } from "nested.lib.wail"
    "#;
    let result = p.parse_wail_file(input.to_string(), WAILFileType::Library, true);
    assert!(result.is_ok(), "Failed to parse imports: {:?}", result.err());
    let names = p.registered_names();
    assert!(names.contains(&"types.lib.wail.Person".to_string()));
    assert!(names.contains(&"types.lib.wail.ContactInfo".to_string()));
    assert!(names.contains(&"nested.lib.wail.ExtendedPerson".to_string()));
    let person = p.registered(&"types.lib.wail.Person".to_string()).unwrap();
    match &person.field_type {
        WAILType::Composite(WAILCompositeType::Object(obj)) => {
            let fields = obj.type_data.field_definitions.as_ref().unwrap();
            assert_eq!(fields.len(), 3);
            let field_names: Vec<String> = fields.iter().map(|f| f.name.clone()).collect();
            assert!(field_names.contains(&"name".to_string()));
            assert!(field_names.contains(&"age".to_string()));
        }
        _ => panic!("Person should be an object type"),
    }
    match &p.registered(&"types.lib.wail.ContactInfo".to_string()).unwrap().field_type {
        WAILType::Composite(WAILCompositeType::Union(u)) => assert_eq!(u.members.len(), 2),
        _ => panic!("ContactInfo should be a union type"),
    }
    let templates = p.template_names();
    assert!(templates.contains(&"templates.lib.wail.GetContactInfo".to_string()));
    assert!(!templates.contains(&"GetPerson".to_string()));
}

#[test]
fn a_missing_import_text_is_asked_for() {
    let mut p = WAILParser::new("/work".to_string());
    let input = "import { Person } from \"types.lib.wail\"\nobject X { y: Person }";
    match p.parse_step(input.to_string(), WAILFileType::Library, true) {
        ParseStep::NeedsFile(path) => assert_eq!(path, "/work/types.lib.wail"),
        other => panic!("expected a request for a file, got {:?}", other),
    }
    assert!(p.registered_names().is_empty());
    p.add_source("/work/types.lib.wail".to_string(), Ok(TYPES_LIB.to_string()));
    match p.parse_step(input.to_string(), WAILFileType::Library, true) {
        ParseStep::Parsed(Ok(defs)) => assert_eq!(defs.len(), 2),
        other => panic!("expected the file to parse, got {:?}", other),
    }
    assert!(p.registered_names().contains(&"X".to_string()));
}

#[test]
fn a_missing_import_text_is_a_file_error() {
    let mut p = WAILParser::new("/work".to_string());
    let input = "import { Person } from \"types.lib.wail\"";
    match p.parse_wail_file(input.to_string(), WAILFileType::Library, true) {
        Err(WAILParseError::FileError { path, error }) => {
            assert_eq!(path, "types.lib.wail");
            assert_eq!(error, "source not loaded: /work/types.lib.wail");
        }
        other => panic!("expected a file error, got {:?}", other),
    }
}

#[test]
fn an_unreadable_import_is_a_file_error() {
    let mut p = WAILParser::new("/work".to_string());
    p.add_source("/work/types.lib.wail".to_string(), Err("permission denied".to_string()));
    let input = "import { Person } from \"types.lib.wail\"";
    match p.parse_wail_file(input.to_string(), WAILFileType::Library, true) {
        Err(WAILParseError::FileError { path, error }) => {
            assert_eq!(path, "types.lib.wail");
            assert_eq!(error, "permission denied");
        }
        other => panic!("expected a file error, got {:?}", other),
    }
}

#[test]
fn importing_an_undefined_name_fails() {
    let mut p = lib_parser("/work", &[("types.lib.wail", TYPES_LIB)]);
    let input = "import { Person, Nope } from \"types.lib.wail\"";
    match p.parse_wail_file(input.to_string(), WAILFileType::Library, true) {
        Err(WAILParseError::ImportNotFound { name, path }) => {
            assert_eq!(name, "Nope");
            assert_eq!(path, "types.lib.wail");
        }
        other => panic!("expected an unknown import, got {:?}", other),
    }
}

#[test]
fn relative_import_paths_are_cleaned() {
    let mut p = lib_parser("/work/app", &[]);
    p.add_source("/work/shared/types.lib.wail".to_string(), Ok(TYPES_LIB.to_string()));
    let input = "import { Address } from \"../shared/./types.lib.wail\"";
    let result = p.parse_wail_file(input.to_string(), WAILFileType::Library, true);
    assert!(result.is_ok(), "{:?}", result.err());
    assert!(p.registered_names().contains(&"../shared/./types.lib.wail.Address".to_string()));
}

#[test]
fn type_data_accessors() {
    let mut p = parser();
    let defs = p
        .parse_wail_file("object A { xs: String[] n: Number }".to_string(), WAILFileType::Library, true)
        .unwrap();
    match &defs[0] {
        WAILDefinition::Object(f) => {
            let fields = f.field_type.field_definitions().unwrap();
            assert_eq!(fields.len(), 3);
            assert_eq!(fields[0].name, "xs");
            let elem = fields[0].field_type.element_type().unwrap();
            assert_eq!(elem.type_label(), "String");
            assert!(fields[1].field_type.element_type().is_none());
            assert!(fields[1].field_type.field_definitions().is_none());
        }
        _ => panic!("Expected object definition"),
    }
}

#[test]
fn test_resolve_imports_comprehensive() {
    let mut p = lib_parser(
        "/work",
        &[("types.lib.wail", TYPES_LIB), ("templates.lib.wail", TEMPLATES_LIB), ("nested.lib.wail", NESTED_LIB)],
    );
    let input = r#"
    import { Person, ContactInfo } from "types.lib.wail"
    import { GetContactInfo } from "templates.lib.wail"
    import { ExtendedPerson } from "nested.lib.wail"
    
    main {
        let person_info = GetContactInfo(info: "John Doe, 30 years old");
        
        prompt {
            Parse this information: {{person_info}}
        }
    }
    "#;
    let result = p.parse_wail_file(input.to_string(), WAILFileType::Application, true);
    assert!(result.is_ok(), "Failed to parse imports: {:?}", result.err());
    let names = p.registered_names();
    assert!(names.contains(&"types.lib.wail.Person".to_string()), "Person object not imported");
    assert!(names.contains(&"types.lib.wail.ContactInfo".to_string()), "ContactInfo union not imported");
    assert!(names.contains(&"nested.lib.wail.ExtendedPerson".to_string()), "ExtendedPerson not imported");
    match &p.registered(&"types.lib.wail.Person".to_string()).unwrap().field_type {
        WAILType::Composite(WAILCompositeType::Object(obj)) => {
            let fields = obj.type_data.field_definitions.as_ref().unwrap();
            assert_eq!(fields.len(), 3);
            let field_names: Vec<String> = fields.iter().map(|f| f.name.clone()).collect();
            assert!(field_names.contains(&"name".to_string()));
            assert!(field_names.contains(&"age".to_string()));
        }
        _ => panic!("Person should be an object type"),
    }
    match &p.registered(&"types.lib.wail.ContactInfo".to_string()).unwrap().field_type {
        WAILType::Composite(WAILCompositeType::Union(u)) => {
            assert_eq!(u.members.len(), 2);
            let member_types: Vec<String> = u
                .members
                .iter()
                .map(|m| match &m.field_type {
                    WAILType::Composite(WAILCompositeType::Object(obj)) => obj.type_data.type_label.to_string(),
                    _ => "unknown".to_string(),
                })
                .collect();
            assert!(member_types.contains(&"Person".to_string()), "Union doesn't contain Person");
            assert!(member_types.contains(&"Address".to_string()), "Union doesn't contain Address");
        }
        _ => panic!("ContactInfo should be a union type"),
    }
    match &p.registered(&"nested.lib.wail.ExtendedPerson".to_string()).unwrap().field_type {
        WAILType::Composite(WAILCompositeType::Object(obj)) => {
            let fields = obj.type_data.field_definitions.as_ref().unwrap();
            assert_eq!(fields.len(), 3);
            let person_field = fields.iter().find(|f| f.name == "person").expect("No person field found");
            match &person_field.field_type {
                WAILType::Composite(WAILCompositeType::Object(pers)) => assert_eq!(pers.type_data.type_label, "Person"),
                _ => panic!("person field should be of type Person"),
            }
        }
        _ => panic!("ExtendedPerson should be an object type"),
    }
    let templates = p.template_names();
    assert!(templates.contains(&"templates.lib.wail.GetContactInfo".to_string()));
    assert!(!templates.contains(&"GetPerson".to_string()));
    match result.unwrap().last() {
        Some(WAILDefinition::Main(m)) => {
            assert_eq!(m.statements.len(), 1);
            match &m.statements[0] {
                MainStatement::Assignment { variable, template_call } => {
                    assert_eq!(variable, "person_info");
                    assert_eq!(template_call.template_name, "GetContactInfo");
                    assert_eq!(
                        template_call.arguments,
                        vec![("info".to_string(), TemplateArgument::String("John Doe, 30 years old".to_string()))]
                    );
                }
                other => panic!("expected an assignment, got {:?}", other),
            }
            assert_eq!(m.prompt, "Parse this information: {{person_info}}\n        ");
        }
        other => panic!("expected the main block last, got {:?}", other),
    }
}

#[test]
fn test_parse_imports() {
    let input = r#"
    import { Person, Address, Thing } from "types.lib.wail"
    import { GetPerson } from "templates.lib.wail"

    object Config {
        name: String
    }

    main {
        prompt { }
    }
    "#;
    let mut p = lib_parser(
        "/work",
        &[
            (
                "types.lib.wail",
                r#"
            object Person {
                name: String
            }
            object Address {
                street: String
            }

            union Thing = Person | Address;
        "#,
            ),
            (
                "templates.lib.wail",
                r#"
            template GetPerson(name: String) -> String {
                prompt: """
                {{return_type}}
                """
            }"#,
            ),
        ],
    );
    let definitions = p.parse_wail_file(input.to_string(), WAILFileType::Application, true).unwrap();
    match &definitions[0] {
        WAILDefinition::Import(import) => {
            assert_eq!(import.items, vec!["Person", "Address", "Thing"]);
            assert_eq!(import.path, "types.lib.wail");
        }
        _ => panic!("Expected first definition to be import"),
    }
    match &definitions[1] {
        WAILDefinition::Import(import) => {
            assert_eq!(import.items, vec!["GetPerson"]);
            assert_eq!(import.path, "templates.lib.wail");
        }
        _ => panic!("Expected second definition to be import"),
    }
}

#[test]
fn test_wail_errors() {
    let mut p = parser();
    let input = r#"
object Person {
    name: String
}
object Person {
    age: Number
}
main {
    prompt { }
}
"#;
    p.parse_wail_file(input.to_string(), WAILFileType::Application, true).unwrap();
    match &p.registered(&"Person".to_string()).expect("Person not found").field_type {
        WAILType::Composite(WAILCompositeType::Object(obj)) => {
            let fields = obj.type_data.field_definitions.as_ref().unwrap();
            let field_names: Vec<_> = fields.iter().map(|f| f.name.as_str()).collect();
            assert!(field_names.contains(&"name"));
            assert!(!field_names.contains(&"age"));
        }
        _ => panic!("Person should be an object type"),
    }
    let input = r#"
      object Person {
            name: String
      }
      "#;
    let err = p.parse_wail_file(input.to_string(), WAILFileType::Application, true).unwrap_err();
    assert!(matches!(err, WAILParseError::MissingMainBlock));
    let input = r#"
      object Person {
            name: String
            age: @ Number
      }
      main {
            prompt { }
      }
      "#;
    let err = p.parse_wail_file(input.to_string(), WAILFileType::Application, true).unwrap_err();
    assert!(matches!(err, WAILParseError::UnexpectedToken { found, .. } if found == "@"));
}

#[test]
fn test_parse_object_as_argument_to_func() {
    let mut p = parser();
    let input = r#"
        object Article {
            content: String
            url: String
        }

        object ArticleMetadata {
            authors: String[]
            headline: String
            publishDate: String
            categories: String[]
            keywords: String[]
            summary: String
            sentiment: String
        }

        object ProcessedArticle {
            article: Article
            metadata: ArticleMetadata
        }

        template ExtractInformation(article: Article) -> ProcessedArticle {
            prompt: """
            Provide structured output following the ArticleMetadata format.
            {{return_type}}
            """
        }

        main {
            template_args {
                url: String,
                content: String
            }

            let article = Article(
                content: $content,
                url: $url
            );

            let res = ExtractInformation(article: article);

            prompt {
                Process the following news article and extract structured information:
                {{res}}
            }
        }
        "#;
    let result = p.parse_wail_file(input.to_string(), WAILFileType::Application, true);
    assert!(result.is_ok(), "Failed to parse ideal.wail: {:?}", result.err());
    assert_eq!(p.instance_names(), vec!["article".to_string()]);
    match result.unwrap().last() {
        Some(WAILDefinition::Main(m)) => {
            let arg_names: Vec<&str> = m.template_args.iter().map(|(n, _)| n.as_str()).collect();
            assert_eq!(arg_names, vec!["url", "content"]);
            assert_eq!(m.statements.len(), 2);
            match &m.statements[0] {
                MainStatement::ObjectInstantiation { variable, object_type, arguments } => {
                    assert_eq!(variable, "article");
                    assert_eq!(object_type, "Article");
                    assert_eq!(
                        arguments,
                        &vec![
                            ("content".to_string(), TemplateArgument::TemplateArgRef("content".to_string())),
                            ("url".to_string(), TemplateArgument::TemplateArgRef("url".to_string())),
                        ]
                    );
                }
                other => panic!("expected an object instance, got {:?}", other),
            }
            match &m.statements[1] {
                MainStatement::Assignment { variable, template_call } => {
                    assert_eq!(variable, "res");
                    assert_eq!(
                        template_call.arguments,
                        vec![("article".to_string(), TemplateArgument::ObjectRef("article".to_string()))]
                    );
                }
                other => panic!("expected an assignment, got {:?}", other),
            }
            assert_eq!(
                m.prompt,
                "Process the following news article and extract structured information:\n                {{res}}\n            "
            );
        }
        other => panic!("expected the main block last, got {:?}", other),
    }
}

#[test]
fn a_second_main_block_is_a_duplicate() {
    let mut p = parser();
    let input = "\nmain { prompt { a } }\nmain { prompt { b } }";
    match p.parse_wail_file(input.to_string(), WAILFileType::Application, true) {
        Err(WAILParseError::DuplicateDefinition { name, .. }) => assert_eq!(name, "main"),
        other => panic!("expected a duplicate main block, got {:?}", other),
    }
}

#[test]
fn calling_an_unknown_template_is_refused() {
    let mut p = parser();
    let input = "\nmain { let x = Nope(a: 1); prompt { } }";
    match p.parse_wail_file(input.to_string(), WAILFileType::Application, true) {
        Err(WAILParseError::InvalidTemplateCall { template_name, reason, .. }) => {
            assert_eq!(template_name, "Nope");
            assert_eq!(reason, "Template 'Nope' not found");
        }
        other => panic!("expected an invalid call, got {:?}", other),
    }
}

#[test]
fn a_main_block_needs_a_prompt() {
    let mut p = parser();
    match p.parse_wail_file("\nmain { }".to_string(), WAILFileType::Application, true) {
        Err(WAILParseError::UnexpectedToken { found, .. }) => assert_eq!(found, "Expected prompt block"),
        other => panic!("expected a missing prompt, got {:?}", other),
    }
}

#[test]
fn a_prompt_keeps_nested_braces_and_spacing() {
    let mut p = parser();
    let input = "\nmain {\n  prompt {  Hi {{name}},  {x}\n  }\n}";
    let defs = p.parse_wail_file(input.to_string(), WAILFileType::Application, true).unwrap();
    match defs.last() {
        Some(WAILDefinition::Main(m)) => assert_eq!(m.prompt, "Hi {{name}},  {x}\n  "),
        other => panic!("expected a main block, got {:?}", other),
    }
    let (warnings, _) = p.validate();
    assert!(!warnings.iter().any(|w| matches!(w, ValidationWarning::NoMainBlock)));
}

#[test]
fn test_parse_llm_output() {
    let wail_schema = r#"
    object Person {
        name: String
        age: Number
        interests: String[]
    }

    template GetPerson(description: String) -> Person {
        prompt: """{{description}}"""
    }

    main {
        let person = GetPerson(description: "test");
        prompt { 
            {{person}} 
        }
    }"#;
    let mut parser = parser();
    parser.parse_wail_file(wail_schema.to_string(), WAILFileType::Application, true).unwrap();
    let cases = vec![
        r#"<action>{"person": {name: "Alice", age: 25, interests: ["coding"]}}</action>"#,
        r#"<action>{'person': {'name': 'Alice', 'age': 25, 'interests': ['coding']}}</action>"#,
        r#"<action>{"person": {"name": "Alice", "age": 25, "interests": ["coding",],}}</action>"#,
        r#"<action>{"person": {name: 'Alice', "age": 25, interests: ["coding"]}}</action>"#,
    ];
    for case in cases {
        assert!(parser.parse_llm_output(case).is_ok(), "Failed to parse: {}", case);
    }
}

#[test]
fn test_json_segment_parsing() {
    let schema = r#"
   template Test() -> String {
      prompt: """Test"""
   }
   main {
      let result = Test();
      prompt { {{result}} }
   }"#;
    let mut parser = parser();
    parser.parse_wail_file(schema.to_string(), WAILFileType::Application, true).unwrap();
    let gasp_fence = r#"
   Some text before
   <action>
   "hello"
   </action>
   Some text after
   "#;
    let res = parser.parse_llm_output(gasp_fence);
    assert!(res.is_ok());
    assert_eq!(res.unwrap(), JsonValue::Object(vec![("result".to_string(), JsonValue::String("hello".to_string()))]));
    let schema = r#"
   template Test() -> String {
      prompt: """Test"""
   }
   main {
      let result = Test();
      let result2 = Test();
      prompt { {{result}} {{result2}} }
   }"#;
    let mut parser = crate::parser();
    parser.parse_wail_file(schema.to_string(), WAILFileType::Application, true).unwrap();
    let multiple_fences = r#"
         First result:
         <action>
         "hello"
         </action>
         Second result:
         <action>
         "world"
         </action>
         "#;
    let res = parser.parse_llm_output(multiple_fences);
    assert!(res.is_ok());
    let mixed = r#"
         Fence:
         <action>
         "world"
         </action>
         <action>
         "world"
         </action>
         dd
         "#;
    let res = parser.parse_llm_output(mixed);
    assert!(res.is_ok());
    let types_schema = r#"
         template Test() -> Number {
               prompt: """Test"""
         }
         main {
               let result = Test();
               prompt { {{result}} }
         }"#;
    parser.parse_wail_file(types_schema.to_string(), WAILFileType::Application, true).unwrap();
    let number_fence = r#"
        <action>
         43
        </action>
         "#;
    let res = parser.parse_llm_output(number_fence);
    assert!(res.is_ok());
    let types_schema = r#"
         template Test() -> Number[] {
               prompt: """Test"""
         }
         main {
               let result = Test();
               prompt { {{result}} }
         }"#;
    parser.parse_wail_file(types_schema.to_string(), WAILFileType::Application, true).unwrap();
    let array_fence = r#"
         <action>
         [1, 2, 3]
         </action>
         "#;
    let res = parser.parse_llm_output(array_fence);
    assert!(res.is_ok());
}

#[test]
fn a_reply_needs_one_block_per_variable() {
    let schema = "\n   template Test() -> String {\n      prompt: \"\"\"Test\"\"\"\n   }\n   main {\n      let result = Test();\n      prompt { {{result}} }\n   }";
    let mut parser = parser();
    parser.parse_wail_file(schema.to_string(), WAILFileType::Application, true).unwrap();
    assert_eq!(
        parser.parse_llm_output("no blocks here"),
        Err("Found 0 JSON segments but expected 1 based on template variables".to_string())
    );
    assert_eq!(
        parser.parse_llm_output("<action>]</action>"),
        Err("Failed to parse JSON for result".to_string())
    );
}
