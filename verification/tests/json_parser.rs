use gasp::json_tok::{Kind, Tokenizer};
use gasp::json_parser::{Parser, StreamParser};
use gasp::json_types::{JsonError, JsonValue, Number};

/// The value stored under `key` in an object's entries.
fn get<'a>(m: &'a [(String, JsonValue)], key: &str) -> Option<&'a JsonValue> {
    m.iter().find(|(k, _)| k == key).map(|(_, v)| v)
}

fn contains_key(m: &[(String, JsonValue)], key: &str) -> bool {
    get(m, key).is_some()
}

fn float_of(n: &Number) -> f64 {
    match n {
        Number::Integer(i) => *i as f64,
        Number::Float(t) => t.parse::<f64>().unwrap(),
    }
}

/// Equality of JSON values: objects as maps, numbers by value.
fn same(a: &JsonValue, b: &JsonValue) -> bool {
    match (a, b) {
        (JsonValue::Object(x), JsonValue::Object(y)) => {
            x.len() == y.len()
                && x.iter().all(|(k, v)| match get(y, k) {
                    Some(w) => same(v, w),
                    None => false,
                })
        }
        (JsonValue::Array(x), JsonValue::Array(y)) => {
            x.len() == y.len() && x.iter().zip(y.iter()).all(|(v, w)| same(v, w))
        }
        (JsonValue::Number(Number::Integer(x)), JsonValue::Number(Number::Integer(y))) => x == y,
        (JsonValue::Number(x), JsonValue::Number(y)) => {
            let (p, q) = (float_of(x), float_of(y));
            (p - q).abs() <= 1e-12 * p.abs().max(1.0)
        }
        _ => a == b,
    }
}

fn obj(entries: Vec<(&str, JsonValue)>) -> JsonValue {
    JsonValue::Object(entries.into_iter().map(|(k, v)| (k.to_string(), v)).collect())
}

fn s(t: &str) -> JsonValue {
    JsonValue::String(t.to_string())
}

fn num_i(n: i64) -> JsonValue {
    JsonValue::Number(Number::Integer(n))
}

fn float(f: f64) -> JsonValue {
    JsonValue::Number(Number::Float(f.to_string()))
}

#[test]
fn test_stream_parser_in_chunks() {
    let chunk1 = r#"<User>{"name": "Al""#;
    let chunk2 = r#", "age": 30}</User> blah blah"#;

    let mut sp = StreamParser::default();

    let part1 = sp.step(chunk1).expect("stream step 1 failed");
    assert!(!sp.is_done(), "should not be done after first chunk");
    match part1 {
        Some(JsonValue::Object(ref m)) => {
            assert_eq!(m.len(), 1);
            assert_eq!(get(m, "name").unwrap(), &JsonValue::String(String::from("Al")));
        }
        _ => panic!("expected first partial object"),
    }

    let part2 = sp.step(chunk2).expect("stream step 2 failed");
    assert!(sp.is_done(), "parser should be done after close tag");
    if let JsonValue::Object(ref m) = part2.unwrap() {
        assert_eq!(get(m, "name").unwrap(), &JsonValue::String("Al".into()));
        assert_eq!(get(m, "age").unwrap(), &JsonValue::Number(Number::Integer(30)));
    } else {
        panic!("expected inner object");
    }

    assert!(sp.step("").unwrap().is_none());
}

#[test]
fn test_stream_parser_in_many_chunks() {
    let chunks = [
        r#"<User>{"na"#,
        r#"me": "Al"#,
        r#"die", "#,
        r#" "age": "#,
        r#"3"#,
        r#"0}</User> garbage"#,
    ];

    let mut sp = StreamParser::default();
    let mut snapshot;

    for (i, slice) in chunks.iter().enumerate() {
        snapshot = sp.step(slice).expect("stream step failed");
        assert_eq!(sp.is_done(), i == chunks.len() - 1);
        match (i, &snapshot) {
            (0, Some(JsonValue::String(_))) => {}
            (1, Some(JsonValue::Object(m))) => {
                assert_eq!(m.len(), 1);
                assert_eq!(get(m, "name").unwrap(), &JsonValue::String("Al".into()));
            }
            (2, Some(JsonValue::Object(m))) => {
                assert_eq!(m.len(), 1);
                assert_eq!(get(m, "name").unwrap(), &JsonValue::String("Aldie".into()));
            }
            (3, Some(JsonValue::Object(m))) => {
                assert_eq!(m.len(), 1);
            }
            (4, Some(JsonValue::Object(m))) => {
                assert_eq!(get(m, "age").unwrap(), &JsonValue::Number(Number::Integer(3)));
            }
            (5, Some(JsonValue::Object(m))) => {
                assert_eq!(get(m, "age").unwrap(), &JsonValue::Number(Number::Integer(30)));
            }
            _ => panic!("unexpected snapshot at chunk {}", i),
        }
    }

    assert!(sp.step("").unwrap().is_none());
}

fn run(chunks: &[&str]) -> JsonValue {
    let mut sp = StreamParser::default();
    let mut last = None;
    for (i, part) in chunks.iter().enumerate() {
        last = sp.step(part).expect("stream step failed");
        assert_eq!(sp.is_done(), i == chunks.len() - 1);
    }
    last.expect("no final value produced")
}

#[test]
fn test_torture_the_poor_stream_parser() {
    // 1. {"name":"Hello World!"}
    let case01 = [
        r#"<Msg>{"na"#, r#"me": "H"#, r#"el"#, r#"lo"#, r#" Wo"#, r#"rl"#, r#"d!"#, r#"} </Msg>"#,
    ];
    assert!(same(&run(&case01), &obj(vec![("name", s("Hello World!"))])));

    // 2. {"glyph":"☃"}   (split in the middle of a \uXXXX escape)
    let case02 = [r#"<E>{"glyph":"\u"#, r#"26"#, r#"03"}"#, r#"</E>"#];
    assert!(same(&run(&case02), &obj(vec![("glyph", s("☃"))])));

    // 3. [123.45, -0.7, 0.6]
    let case03 = [
        r#"<N>[1"#, r#"23"#, r#".4"#, r#"5,"#, r#"-"#, r#"0."#, r#"7,"#, r#"6e"#, r#"-"#, r#"1"#, r#"]</N>"#,
    ];
    let exp03 = JsonValue::Array(vec![float(123.45), float(-0.7), float(0.6)]);
    assert!(same(&run(&case03), &exp03));

    // 4. {"user":{"name":"Ali"},"roles":["admin","editor"]}
    let case04 = [
        r#"<Doc>{"user":{"na"#,
        r#"me":"A"#,
        r#"li"},""#,
        r#"roles":["ad"#,
        r#"min","ed"#,
        r#"itor"]}"#,
        r#"</Doc>"#,
    ];
    let exp04 = obj(vec![
        ("user", obj(vec![("name", s("Ali"))])),
        ("roles", JsonValue::Array(vec![s("admin"), s("editor")])),
    ]);
    assert!(same(&run(&case04), &exp04));

    // 5. [true,false,null]
    let case05 = [r#"<Flags>[tr"#, r#"ue, fal"#, r#"se, n"#, r#"ull]</Flags>"#];
    let exp05 = JsonValue::Array(vec![JsonValue::Boolean(true), JsonValue::Boolean(false), JsonValue::Null]);
    assert!(same(&run(&case05), &exp05));

    // 6. [[[]]]
    let case06 = [r#"<Nest>["#, r#"["#, r#"["#, r#"]"#, r#"]"#, r#"]</Nest>"#];
    let exp06 = JsonValue::Array(vec![JsonValue::Array(vec![JsonValue::Array(vec![])])]);
    assert!(same(&run(&case06), &exp06));

    // 7. {"v":12e-3}
    let case07 = [r#"<Sci>{"v":1"#, r#"2e"#, r#"-"#, r#"3}</Sci>"#];
    assert!(same(&run(&case07), &obj(vec![("v", float(0.012))])));

    // 8. {enabled:true, level:"debug"}
    let case08 = [r#"<Cfg>{ena"#, r#"bled: t"#, r#"rue, le"#, r#"vel: deb"#, r#"ug}</Cfg>"#];
    let exp08 = obj(vec![("enabled", JsonValue::Boolean(true)), ("level", s("debug"))]);
    assert!(same(&run(&case08), &exp08));

    // 9. {"a":1,"b":2}
    let case09 = [r#"<Obj>{"a":1,"#, r#" "b":2,"#, r#"}</Obj>"#];
    assert!(same(&run(&case09), &obj(vec![("a", num_i(1)), ("b", num_i(2))])));

    // 10. mixture of everything
    let case10 = [
        r#"<All>{"arr":["#,
        r#"hi","#,
        r#" ","#,
        r#"th"#,
        r#"ere"#,
        r#"!",", 4"#,
        r#"2, nu"#,
        r#"ll],"#,
        r#" obj":{"#,
        r#"key":f"#,
        r#"alse}} </All>"#,
    ];
    let exp10 = obj(vec![
        ("arr", JsonValue::Array(vec![s("hi"), s("there!"), num_i(42), JsonValue::Null])),
        ("obj", obj(vec![("key", JsonValue::Boolean(false))])),
    ]);
    assert!(same(&run(&case10), &exp10));
}

fn check_two_objects(input: &str) {
    let mut parser = Parser::default();
    match parser.parse(input.as_bytes().to_vec()) {
        Ok(JsonValue::Array(arr)) => {
            assert_eq!(arr.len(), 2);
            match &arr[0] {
                JsonValue::Object(o) => assert_eq!(get(o, "message").unwrap(), &JsonValue::Number(Number::Integer(123))),
                _ => panic!("Expected first element to be object"),
            }
            match &arr[1] {
                JsonValue::Object(o) => assert_eq!(get(o, "code").unwrap(), &JsonValue::Number(Number::Integer(404))),
                _ => panic!("Expected second element to be object"),
            }
        }
        _ => panic!("Expected array"),
    }
}

#[test]
fn test_implicit_arrays() {
    check_two_objects(r#"{"message": 123},{"code": 404}"#);
    check_two_objects(r#"{"message": 123} {"code": 404}"#);
    check_two_objects(
        r#"{"message": 123}
    {"code": 404}"#,
    );
    check_two_objects(r#"{"message": 123}{"code": 404}"#);
}

#[test]
fn test_simple_string() {
    let mut parser = Parser::default();
    match parser.parse(r#""hello world""#.as_bytes().to_vec()) {
        Ok(JsonValue::String(s)) => assert_eq!(s, "hello world"),
        _ => panic!("Expected string value"),
    }
}

#[test]
fn test_string_escapes() {
    let mut parser = Parser::default();
    match parser.parse(r#""hello\nworld\t\"quote\"""#.as_bytes().to_vec()) {
        Ok(JsonValue::String(s)) => assert_eq!(s, "hello\nworld\t\"quote\""),
        _ => panic!("Expected string value"),
    }
}

#[test]
fn test_simple_number() {
    let mut parser = Parser::default();
    match parser.parse("42".as_bytes().to_vec()) {
        Ok(JsonValue::Number(Number::Integer(n))) => assert_eq!(n, 42),
        _ => panic!("Expected integer value"),
    }
}

#[test]
fn test_float_number() {
    let mut parser = Parser::default();
    match parser.parse("42.5".as_bytes().to_vec()) {
        Ok(JsonValue::Number(Number::Float(n))) => assert_eq!(n.parse::<f64>().unwrap(), 42.5),
        _ => panic!("Expected float value"),
    }
}

#[test]
fn test_simple_object() {
    let mut parser = Parser::default();
    match parser.parse(r#"{"key": "value"}"#.as_bytes().to_vec()) {
        Ok(JsonValue::Object(map)) => {
            assert_eq!(map.len(), 1);
            match get(&map, "key") {
                Some(JsonValue::String(s)) => assert_eq!(s, "value"),
                _ => panic!("Expected string value"),
            }
        }
        _ => panic!("Expected object"),
    }
}

#[test]
fn test_simple_array() {
    let mut parser = Parser::default();
    match parser.parse(r#"[1, 2, 3]"#.as_bytes().to_vec()) {
        Ok(JsonValue::Array(arr)) => {
            assert_eq!(arr.len(), 3);
            match &arr[0] {
                JsonValue::Number(Number::Integer(n)) => assert_eq!(*n, 1),
                _ => panic!("Expected integer"),
            }
        }
        _ => panic!("Expected array"),
    }
}

#[test]
fn test_nested_structure() {
    let input = r#"
       {
           "name": "test",
           "numbers": [1, 2, 3],
           "object": {
               "nested": true,
               "null_value": null
           }
       }"#;
    let mut parser = Parser::default();
    match parser.parse(input.as_bytes().to_vec()) {
        Ok(JsonValue::Object(map)) => {
            assert_eq!(map.len(), 3);
            match get(&map, "name") {
                Some(JsonValue::String(s)) => assert_eq!(s, "test"),
                _ => panic!("Expected string for name"),
            }
            match get(&map, "numbers") {
                Some(JsonValue::Array(arr)) => assert_eq!(arr.len(), 3),
                _ => panic!("Expected array for numbers"),
            }
            match get(&map, "object") {
                Some(JsonValue::Object(o)) => {
                    assert_eq!(o.len(), 2);
                    assert!(matches!(get(o, "nested"), Some(JsonValue::Boolean(true))));
                    assert!(matches!(get(o, "null_value"), Some(JsonValue::Null)));
                }
                _ => panic!("Expected nested object"),
            }
        }
        _ => panic!("Expected object"),
    }
}

#[test]
fn test_error_cases() {
    let cases = vec![("@invalid", JsonError::UnexpectedChar('@')), ("{true:1}", JsonError::InvalidKey)];
    for (input, expected_err) in cases {
        let mut parser = Parser::default();
        match parser.parse(input.as_bytes().to_vec()) {
            Err(e) => assert_eq!(e, expected_err),
            Ok(_) => panic!("Expected error for input: {}", input),
        }
    }
}

#[test]
fn test_unquoted_keys() {
    let input = r#"{
            name: "John",
            age: 30,
            city: "New York"
        }"#;
    let mut parser = Parser::default();
    match parser.parse(input.as_bytes().to_vec()) {
        Ok(JsonValue::Object(map)) => {
            assert_eq!(map.len(), 3);
            assert_eq!(get(&map, "name").unwrap().as_string().unwrap(), "John");
            match get(&map, "age").unwrap() {
                JsonValue::Number(Number::Integer(n)) => assert_eq!(*n, 30),
                _ => panic!("Expected integer for age"),
            }
        }
        _ => panic!("Expected object"),
    }
}

#[test]
fn test_single_quotes() {
    let input = r#"{
            'name': 'John',
            'nested': {'key': 'value'}
        }"#;
    let mut parser = Parser::default();
    match parser.parse(input.as_bytes().to_vec()) {
        Ok(JsonValue::Object(map)) => {
            assert_eq!(map.len(), 2);
            assert_eq!(get(&map, "name").unwrap().as_string().unwrap(), "John");
            match get(&map, "nested").unwrap() {
                JsonValue::Object(nested) => {
                    assert_eq!(get(nested, "key").unwrap().as_string().unwrap(), "value");
                }
                _ => panic!("Expected nested object"),
            }
        }
        _ => panic!("Expected object"),
    }
}

#[test]
fn test_trailing_commas() {
    let input = r#"{
            "array": [1, 2, 3,],
            "object": {
                "key": "value",
            },
        }"#;
    let mut parser = Parser::default();
    match parser.parse(input.as_bytes().to_vec()) {
        Ok(JsonValue::Object(map)) => {
            assert_eq!(map.len(), 2);
            match get(&map, "array").unwrap() {
                JsonValue::Array(arr) => assert_eq!(arr.len(), 3),
                _ => panic!("Expected array"),
            }
            match get(&map, "object").unwrap() {
                JsonValue::Object(o) => assert_eq!(o.len(), 1),
                _ => panic!("Expected nested object"),
            }
        }
        _ => panic!("Expected object"),
    }
}

#[test]
fn test_unquoted_strings() {
    let input = r#"{
            "name": John,
            "status": active,
            "type": user
        }"#;
    let mut parser = Parser::default();
    match parser.parse(input.as_bytes().to_vec()) {
        Ok(JsonValue::Object(map)) => {
            assert_eq!(map.len(), 3);
            assert_eq!(get(&map, "name").unwrap().as_string().unwrap(), "John");
            assert_eq!(get(&map, "status").unwrap().as_string().unwrap(), "active");
            assert_eq!(get(&map, "type").unwrap().as_string().unwrap(), "user");
        }
        _ => panic!("Expected object"),
    }
}

#[test]
fn test_malformed_array() {
    let input = r#"{"message": 123},
            {"code": "404", "details": "error"}"#;
    let mut parser = Parser::default();
    match parser.parse(input.as_bytes().to_vec()) {
        Ok(JsonValue::Array(arr)) => {
            assert_eq!(arr.len(), 2);
            match &arr[0] {
                JsonValue::Object(o) => assert!(contains_key(o, "message")),
                _ => panic!("Expected first element to be object"),
            }
            match &arr[1] {
                JsonValue::Object(o) => {
                    assert!(contains_key(o, "code"));
                    assert!(contains_key(o, "details"));
                }
                _ => panic!("Expected second element to be object"),
            }
        }
        _ => panic!("Expected array"),
    }
}

#[test]
fn test_mixed_recovery() {
    let input = r#"{
            name: 'John',
            age: 30,
            hobbies: [coding, gaming, reading,],
            address: {
                city: New York,
                country: USA,
            },
        }"#;
    let mut parser = Parser::default();
    match parser.parse(input.as_bytes().to_vec()) {
        Ok(JsonValue::Object(map)) => {
            assert_eq!(map.len(), 4);
            assert_eq!(get(&map, "name").unwrap().as_string().unwrap(), "John");
            match get(&map, "age").unwrap() {
                JsonValue::Number(Number::Integer(n)) => assert_eq!(*n, 30),
                _ => panic!("Expected integer for age"),
            }
            match get(&map, "hobbies").unwrap() {
                JsonValue::Array(arr) => {
                    assert_eq!(arr.len(), 3);
                    assert_eq!(arr[0].as_string().unwrap(), "coding");
                    assert_eq!(arr[1].as_string().unwrap(), "gaming");
                    assert_eq!(arr[2].as_string().unwrap(), "reading");
                }
                _ => panic!("Expected array for hobbies"),
            }
            match get(&map, "address").unwrap() {
                JsonValue::Object(addr) => {
                    assert_eq!(addr.len(), 2);
                    assert_eq!(get(addr, "city").unwrap().as_string().unwrap(), "New York");
                    assert_eq!(get(addr, "country").unwrap().as_string().unwrap(), "USA");
                }
                _ => panic!("Expected object for address"),
            }
        }
        _ => panic!("Expected object"),
    }
}

#[test]
fn test_bad_array_recovery() {
    let mut parser = StreamParser::default();
    let result = r#"
        <action>
            {"message": 123},
            {"code": "404", "details": "error"}
</action>
        "#;
    let bytes = result.as_bytes();
    let mut i = 0;
    while i < bytes.len() {
        let end = usize::min(i + 1, bytes.len());
        let chunk = std::str::from_utf8(&bytes[i..end]).unwrap();
        let _ = parser.step(chunk).unwrap();
        i = end;
    }
    assert!(parser.is_done(), "stream parser did not finish");
}

#[test]
fn test_llm_token_fragmentation() {
    let mut parser = StreamParser::new(vec!["ReportSubsystems".to_string()]);
    let fragments = [
        "<Report", "Sub", "systems>", "{", "  \"", "subsystems", "\":", " [", "    {", "      \"", "name", "\": \"",
        "Core Engine", "\",", "      \"", "files", "\": [", "        \"", "packages/core/src/", "\"", "      ]", "    }",
        "  ]", "}", "</Report", "Sub", "systems>",
    ];
    let mut results = Vec::new();
    for fragment in fragments.iter() {
        if let Some(result) = parser.step(fragment).unwrap() {
            results.push(result);
        }
    }
    assert!(parser.is_done(), "Parser did not complete processing");
    assert!(!results.is_empty(), "No results were produced from the fragments");
    let final_result = results.last().unwrap();
    if let JsonValue::Object(map) = final_result {
        assert!(contains_key(map, "subsystems"), "Missing 'subsystems' key in result");
        if let Some(JsonValue::Array(subsystems)) = get(map, "subsystems") {
            assert!(!subsystems.is_empty(), "Subsystems array is empty");
            if let Some(JsonValue::Object(subsystem)) = subsystems.first() {
                assert!(contains_key(subsystem, "name"), "Subsystem missing 'name' key");
                assert!(contains_key(subsystem, "files"), "Subsystem missing 'files' key");
            } else {
                panic!("First subsystem is not an object");
            }
        } else {
            panic!("'subsystems' is not an array");
        }
    } else {
        panic!("Expected Object result, got: {:?}", final_result);
    }
}

#[test]
fn test_extreme_tag_fragmentation() {
    let mut parser = StreamParser::new(vec!["ReportSubsystems".to_string()]);
    let fragments = [" <", "ReportSub", "systems> tag", "{\"test\": true}</ReportSubsystems>"];
    for fragment in fragments.iter() {
        let _ = parser.step(fragment).unwrap();
    }
    assert!(parser.is_done(), "Parser should be done after all fragments");
}

#[test]
fn stream_parser_ignores_unwanted_tags() {
    let mut parser = StreamParser::new(vec!["Want".to_string()]);
    let r = parser.step("<Other>[1, 2]</Other><Want>{\"a\": 1}</Want>").unwrap();
    assert!(parser.is_done());
    assert!(same(&r.unwrap(), &obj(vec![("a", num_i(1))])));
}

#[test]
fn stream_parser_unwraps_single_element_arrays() {
    let mut parser = StreamParser::default();
    let r = parser.step("<T>[7").unwrap();
    assert_eq!(r, Some(num_i(7)));
}

#[test]
fn json_value_display() {
    let v = obj(vec![("a", JsonValue::Array(vec![num_i(1), float(2.5), JsonValue::Null])), ("b", s("x\"y"))]);
    assert_eq!(v.to_string(), "{\"a\": [1, 2.5, null], \"b\": \"x\\\"y\"}");
    assert_eq!(JsonValue::Number(Number::Float("3".to_string())).to_string(), "3.0");
}

#[test]
fn stream_parser_stays_done() {
    let mut parser = StreamParser::new(vec!["Want".to_string()]);
    let first = parser.step("<Want>{\"a\": 1}</Want>").unwrap();
    assert!(first.is_some());
    assert!(parser.is_done());
    let later = parser.step("<Want>{\"b\": 2}</Want>").unwrap();
    assert!(later.is_none());
    assert!(parser.is_done());
}

#[test]
fn writes_through_get_mut_replace_the_entry() {
    let mut v = obj(vec![("a", num_i(1)), ("b", s("x"))]);
    *v.get_mut("b").unwrap() = JsonValue::Boolean(true);
    assert!(same(&v, &obj(vec![("a", num_i(1)), ("b", JsonValue::Boolean(true))])));
    assert!(v.get_mut("c").is_none());
    let mut n = num_i(3);
    assert!(n.get_mut("a").is_none());
}

#[test]
fn writes_through_get_idx_mut_replace_the_element() {
    let mut v = JsonValue::Array(vec![num_i(1), num_i(2)]);
    *v.get_idx_mut(1).unwrap() = s("two");
    assert!(same(&v, &JsonValue::Array(vec![num_i(1), s("two")])));
    assert!(v.get_idx_mut(2).is_none());
}

#[test]
fn a_closed_block_comment_at_the_end_gives_eof() {
    let src: Vec<char> = "/* c */".chars().collect();
    let mut t = Tokenizer::new();
    let tok = t.next_tok(&src).unwrap();
    assert_eq!(tok.kind, Kind::Eof);
    assert_eq!((tok.start, tok.end), (7, 7));
    let open: Vec<char> = "/* c ".chars().collect();
    let mut t = Tokenizer::new();
    assert!(matches!(t.next_tok(&open), Err(JsonError::UnexpectedEof)));
}

#[test]
fn values_are_indexed_by_key_or_position() {
    let arr = JsonValue::Array(vec![
        JsonValue::Boolean(true),
        JsonValue::Null,
    ]);
    assert_eq!(arr.get(1usize), Some(&JsonValue::Null));
    assert_eq!(arr.get(2usize), None);
    assert_eq!(arr.get("a"), None);
    let obj = JsonValue::Object(vec![("a".to_string(), JsonValue::Boolean(false))]);
    assert_eq!(obj.get("a"), Some(&JsonValue::Boolean(false)));
    assert_eq!(obj.get(0usize), None);
}

#[test]
fn checked_parsing_matches_plain_parsing() {
    let mut a = Parser::default();
    let mut b = Parser::default();
    assert_eq!(a.try_parse_text("{\"a\": [1, 2]}"), b.parse_text("{\"a\": [1, 2]}"));
    let mut c = Parser::default();
    assert!(c.try_parse_text("]").is_err());
    let mut sp = StreamParser::default();
    let got = sp.try_step("<T>{\"a\": 1}</T>").unwrap();
    assert_eq!(got, Some(JsonValue::Object(vec![("a".to_string(), JsonValue::Number(Number::Integer(1)))])));
    assert!(sp.is_done());
}

#[test]
fn same_value_ignores_entry_order() {
    let a = obj(vec![("a", JsonValue::Number(Number::Integer(1))), ("b", JsonValue::Array(vec![s("x"), JsonValue::Null]))]);
    let b = obj(vec![("b", JsonValue::Array(vec![s("x"), JsonValue::Null])), ("a", JsonValue::Number(Number::Integer(1)))]);
    assert!(a != b);
    assert!(a.same_value(&b));
    assert!(b.same_value(&a));
    let fewer = obj(vec![("a", JsonValue::Number(Number::Integer(1)))]);
    assert!(!a.same_value(&fewer));
    assert!(!fewer.same_value(&a));
    let other = obj(vec![("a", JsonValue::Number(Number::Integer(2))), ("b", JsonValue::Array(vec![s("x"), JsonValue::Null]))]);
    assert!(!a.same_value(&other));
    let swapped = obj(vec![("a", JsonValue::Number(Number::Integer(1))), ("b", JsonValue::Array(vec![JsonValue::Null, s("x")]))]);
    assert!(!a.same_value(&swapped));
}

#[test]
fn a_number_cut_after_its_sign_is_read_early() {
    let mut whole = StreamParser::default();
    let v = whole.step(r#"<T>{"a": -1}</T>"#).unwrap().unwrap();
    assert_eq!(v, obj(vec![("a", num_i(-1))]));

    let mut cut = StreamParser::default();
    assert!(matches!(cut.step(r#"<T>{"a": -"#), Err(JsonError::InvalidNumber(_))));
}
