use gasp::wail_parser::{adjust_indentation, ImportChain, Token, Tokenizer, WAILParseError};

fn tokens(src: &str) -> Vec<Token> {
    let mut t = Tokenizer::new(src);
    let mut out = Vec::new();
    loop {
        let tok = t.next_token();
        if tok == Token::Eof {
            break;
        }
        out.push(tok);
    }
    out
}

#[test]
fn tokenizer_reads_definitions() {
    let toks = tokens("object Person { name: String }");
    assert_eq!(
        toks,
        vec![
            Token::Keyword("object".into()),
            Token::Whitespace(" ".into()),
            Token::Identifier("Person".into()),
            Token::Whitespace(" ".into()),
            Token::OpenBrace,
            Token::Whitespace(" ".into()),
            Token::Identifier("name".into()),
            Token::Colon,
            Token::Whitespace(" ".into()),
            Token::Identifier("String".into()),
            Token::Whitespace(" ".into()),
            Token::CloseBrace,
        ]
    );
}

#[test]
fn tokenizer_numbers_strings_and_comments() {
    let toks = tokens("-> -12 3.5 \"a\\\"b\" \"\"\"x\ny\"\"\" #c\n~z");
    assert_eq!(
        toks,
        vec![
            Token::Arrow,
            Token::Whitespace(" ".into()),
            Token::Number(-12),
            Token::Whitespace(" ".into()),
            Token::Float("3.5".into()),
            Token::Whitespace(" ".into()),
            Token::String("a\\\"b".into()),
            Token::Whitespace(" ".into()),
            Token::TripleQuoteContent("x\ny".into()),
            Token::Whitespace(" ".into()),
            Token::Comment("c".into()),
            Token::Whitespace("\n".into()),
            Token::Identifier("z".into()),
        ]
    );
    assert_eq!(tokens("99999999999999999999"), vec![Token::Number(0)]);
}

#[test]
fn tokenizer_tracks_locations() {
    let mut t = Tokenizer::new("a\n  b");
    let _ = t.next_token();
    let _ = t.next_token();
    let b = t.next_token();
    assert_eq!(b, Token::Identifier("b".into()));
    let last = t.last_location();
    assert_eq!((last.line, last.column), (2, 3));
    let cur = t.current_location();
    assert_eq!((cur.line, cur.column), (2, 4));
}

#[test]
fn token_text() {
    assert_eq!(Token::Comment("x".into()).to_string(), "#x");
    assert_eq!(Token::OpenBrace.to_string(), "{");
    assert_eq!(Token::Eof.to_string(), "EOF");
}

#[test]
fn import_chain_detects_cycles() {
    let mut chain = ImportChain::new("/base/dir".to_string());
    assert_eq!(chain.resolve_path("../x/./a.lib.wail"), "/base/x/a.lib.wail");
    assert_eq!(chain.resolve_path("/abs/b.wail"), "/abs/b.wail");
    assert!(chain.push("a.lib.wail").unwrap());
    assert!(chain.push("b.lib.wail").unwrap());
    match chain.push("./a.lib.wail") {
        Err(WAILParseError::CircularImport { path, chain }) => {
            assert_eq!(path, "/base/dir/a.lib.wail");
            assert_eq!(chain, vec!["/base/dir/a.lib.wail".to_string(), "/base/dir/b.lib.wail".to_string()]);
        }
        other => panic!("unexpected {:?}", other),
    }
    chain.pop();
    chain.pop();
    assert!(!chain.push("a.lib.wail").unwrap());
}

#[test]
fn indentation_is_adjusted() {
    assert_eq!(adjust_indentation("    a\n      b\n  c", 2), "  a\n    b\nc");
    assert_eq!(adjust_indentation("", 4), "");
    assert_eq!(adjust_indentation("\n   x", 0), "\nx");
}

#[test]
fn adjusting_twice_can_drop_a_final_empty_line() {
    let once = adjust_indentation("a\n\n", 0);
    assert_eq!(once, "a\n");
    assert_eq!(adjust_indentation(&once, 0), "a");
    let t = adjust_indentation("    x\n      y", 2);
    assert_eq!(t, "  x\n    y");
    assert_eq!(adjust_indentation(&t, 2), t);
}

#[test]
fn adjusting_twice_is_adjusting_once() {
    let once = adjust_indentation("      a\n        b\n   c", 2);
    assert_eq!(once, "  a\n    b\nc");
    assert_eq!(adjust_indentation(&once, 2), once);
}
