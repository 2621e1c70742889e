use gasp::template_parser::{parse_each_loop, parse_template, parse_text, parse_variable, TemplateSegment};

#[test]
fn test_parse_variable() {
    let input = "{{user.name}}";
    let (rest, result) = parse_variable(input).unwrap();
    assert_eq!(rest, "");
    assert_eq!(result, TemplateSegment::Variable("user.name".to_string()));
}

#[test]
fn test_parse_each_loop() {
    let input = "{{#each items}}{{.}}{{/each}}";
    let (rest, result) = parse_each_loop(input).unwrap();
    assert_eq!(rest, "");
    assert_eq!(
        result,
        TemplateSegment::EachLoop { path: "items".to_string(), body: vec![TemplateSegment::Variable(".".to_string())] }
    );
}

#[test]
fn template_parser_test_parse_template() {
    let input = "Hello {{user.name}}! {{#each hobbies}}* {{.}}{{/each}}";
    let (rest, result) = parse_template(input).unwrap();
    assert_eq!(rest, "");
    assert_eq!(
        result,
        vec![
            TemplateSegment::Text("Hello ".to_string()),
            TemplateSegment::Variable("user.name".to_string()),
            TemplateSegment::Text("! ".to_string()),
            TemplateSegment::EachLoop {
                path: "hobbies".to_string(),
                body: vec![TemplateSegment::Text("* ".to_string()), TemplateSegment::Variable(".".to_string())],
            },
        ]
    );
}

#[test]
fn test_parse_template_with_newlines() {
    let input = "Hello\n{{#each items}}\n{{.}}\n{{/each}}\nGoodbye";
    let (rest, result) = parse_template(input).unwrap();
    assert_eq!(rest, "");
    assert_eq!(
        result,
        vec![
            TemplateSegment::Text("Hello\n".to_string()),
            TemplateSegment::EachLoop {
                path: "items".to_string(),
                body: vec![
                    TemplateSegment::Text("\n".to_string()),
                    TemplateSegment::Variable(".".to_string()),
                    TemplateSegment::Text("\n".to_string()),
                ],
            },
            TemplateSegment::Text("\nGoodbye".to_string()),
        ]
    );
}

#[test]
fn test_parse_text_with_newlines() {
    let input = "First line\nSecond line\nThird line";
    let (rest, result) = parse_text(input).unwrap();
    assert_eq!(rest, "");
    assert_eq!(result, TemplateSegment::Text("First line\nSecond line\nThird line".to_string()));
}

#[test]
fn unclosed_variable_is_an_error() {
    assert!(parse_template("abc {{ oops").is_err());
    assert_eq!(parse_template("abc {{ oops").unwrap_err().at, 4);
}

#[test]
fn each_without_end_reads_as_variable() {
    let (_, segs) = parse_template("{{#each xs}} tail").unwrap();
    assert_eq!(segs[0], TemplateSegment::Variable("#each xs".to_string()));
}

#[test]
fn segments_write_back() {
    let (_, segs) = parse_template("A {{x}} {{#each ys}}[{{.}}]{{/each}}").unwrap();
    let text: String = segs.iter().map(|s| s.to_string()).collect();
    assert_eq!(text, "A {{x}} {{#each ys}}[{{.}}]{{/each}}");
}
