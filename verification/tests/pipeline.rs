use typeconf::{loads, dumps, Decimal, Lexer, Parser, Serializer, Token, TokenType, Value};

fn entry(name: &str, v: Value) -> (String, Value) {
    (name.to_string(), v)
}

#[test]
fn lexes_a_simple_declaration() {
    let tokens = Lexer::new("a :: num { 5 }\n").tokenize().unwrap();
    let kinds: Vec<TokenType> = tokens.iter().map(|t| t.ttype).collect();
    assert_eq!(
        kinds,
        vec![
            TokenType::Identifier,
            TokenType::DoubleColon,
            TokenType::NumKw,
            TokenType::LBrace,
            TokenType::Number,
            TokenType::RBrace,
            TokenType::Newline,
            TokenType::Eof,
        ]
    );
    assert_eq!(tokens[0].value.as_deref(), Some("a"));
    assert_eq!(tokens[4].value.as_deref(), Some("5"));
    assert_eq!(tokens[7].value, None);
    assert_eq!(tokens[0].line, 1);
    assert_eq!(tokens[0].column, 1);
}

#[test]
fn parses_boolean_spellings() {
    let m = loads("x :: bool { yes }").unwrap();
    assert_eq!(m, vec![entry("x", Value::Bool(true))]);
    let m = loads("x :: bool { no }").unwrap();
    assert_eq!(m, vec![entry("x", Value::Bool(false))]);
    let m = loads("x :: bool { true }").unwrap();
    assert_eq!(m, vec![entry("x", Value::Bool(true))]);
    let m = loads("x :: bool { false }").unwrap();
    assert_eq!(m, vec![entry("x", Value::Bool(false))]);
}

#[test]
fn parses_a_number_list() {
    let m = loads("lst :: list(num) { 1, 2, 3 }").unwrap();
    assert_eq!(m, vec![entry("lst", Value::ListNum(vec![1, 2, 3]))]);
}

#[test]
fn rejects_a_mismatched_list_element() {
    let e = loads("lst :: list(num) { true }").unwrap_err();
    assert_eq!(e.message, "Expected Number, got Boolean");
}

#[test]
fn parses_a_nested_class() {
    let m = loads("p :: class { x :: num { 1 } }").unwrap();
    assert_eq!(
        m,
        vec![entry("p", Value::Class(vec![entry("x", Value::Num(1))]))]
    );
}

#[test]
fn serializes_floats_without_trailing_zeros() {
    let m = vec![entry("x", Value::Fl(Decimal::from_literal("2.50")))];
    assert_eq!(dumps(&m, 0), "x :: fl { 2.5 }\n");
    let m = vec![entry("x", Value::Fl(Decimal::from_literal("3.0")))];
    assert_eq!(dumps(&m, 0), "x :: fl { 3 }\n");
}

#[test]
fn reports_an_unclosed_string() {
    let e = loads("x :: str { \"abc").unwrap_err();
    assert_eq!(e.message, "Unclosed string");
    assert_eq!(e.line, Some(1));
    assert_eq!(e.column, Some(16));
}

#[test]
fn dumps_an_empty_mapping_as_one_newline() {
    assert_eq!(dumps(&vec![], 0), "\n");
    assert_eq!(dumps(&vec![], 2), "\n");
}

#[test]
fn parses_every_scalar_kind() {
    let text = "a :: num { -12 }\nb :: fl { 2.50 }\nc :: str { \"hi\" }\nd :: ml { 'line1\nline2' }\ne :: bool { true }";
    let m = loads(text).unwrap();
    assert_eq!(
        m,
        vec![
            entry("a", Value::Num(-12)),
            entry("b", Value::Fl(Decimal::from_literal("2.5"))),
            entry("c", Value::Str("hi".to_string())),
            entry("d", Value::Ml("line1\nline2".to_string())),
            entry("e", Value::Bool(true)),
        ]
    );
}

#[test]
fn decodes_string_escapes() {
    let m = loads("s :: str { \"a\\n\\tb\\\\c\\\"d\\x\" }").unwrap();
    assert_eq!(m, vec![entry("s", Value::Str("a\n\tb\\c\"dx".to_string()))]);
}

#[test]
fn skips_comments_and_newlines() {
    let m = loads("[ a comment ]\nx :: num { 7 }\n[another]\n").unwrap();
    assert_eq!(m, vec![entry("x", Value::Num(7))]);
}

#[test]
fn keeps_comment_text_trimmed_in_tokens() {
    let tokens = Lexer::new("[  padded text\t]").tokenize().unwrap();
    assert_eq!(tokens[0].ttype, TokenType::Comment);
    assert_eq!(tokens[0].value.as_deref(), Some("padded text"));
}

#[test]
fn lexes_identifiers_that_start_with_digits() {
    let m = loads("3d-mode :: bool { yes }").unwrap();
    assert_eq!(m, vec![entry("3d-mode", Value::Bool(true))]);
}

#[test]
fn accepts_keywords_numbers_and_strings_as_names() {
    let m = loads("num :: num { 1 }").unwrap();
    assert_eq!(m, vec![entry("num", Value::Num(1))]);
    let m = loads("42 :: num { 2 }").unwrap();
    assert_eq!(m, vec![entry("42", Value::Num(2))]);
    let m = loads("\"spaced name\" :: num { 3 }").unwrap();
    assert_eq!(m, vec![entry("spaced name", Value::Num(3))]);
}

#[test]
fn widens_a_bare_integer_under_fl() {
    let m = loads("x :: fl { 5 }").unwrap();
    assert_eq!(m, vec![entry("x", Value::Fl(Decimal::from_literal("5")))]);
}

#[test]
fn reads_an_out_of_range_number_as_zero() {
    let m = loads("x :: num { 99999999999999999999 }").unwrap();
    assert_eq!(m, vec![entry("x", Value::Num(0))]);
}

#[test]
fn parses_each_list_kind() {
    let m = loads(
        "a :: list(bool) { true, no }\nb :: list(fl) { 1.50, 2 }\nc :: list(str) { \"x\", \"y\" }\nd :: list(num) {  }",
    )
    .unwrap();
    assert_eq!(
        m,
        vec![
            entry("a", Value::ListBool(vec![true, false])),
            entry(
                "b",
                Value::ListFl(vec![
                    Decimal::from_literal("1.5"),
                    Decimal::from_literal("2"),
                ])
            ),
            entry(
                "c",
                Value::ListStr(vec!["x".to_string(), "y".to_string()])
            ),
            entry("d", Value::ListNum(vec![])),
        ]
    );
}

#[test]
fn rejects_a_trailing_comma() {
    let e = loads("a :: list(num) { 1, }").unwrap_err();
    assert_eq!(e.message, "Expected Number, got RBrace");
}

#[test]
fn rejects_a_missing_comma() {
    let e = loads("a :: list(num) { 1 2 }").unwrap_err();
    assert_eq!(e.message, "Expected comma or closing brace");
}

#[test]
fn rejects_an_unsupported_list_element_type() {
    let e = loads("a :: list(ml) { }").unwrap_err();
    assert_eq!(e.message, "Unsupported list element type: Some(\"ml\")");
}

#[test]
fn parses_dynamic_scalars() {
    let m = loads("a :: dynamic { 5 }\nb :: dynamic { 2.50 }\nc :: dynamic { yes }\nd :: dynamic { \"s\" }\ne :: dynamic { 'm' }").unwrap();
    assert_eq!(
        m,
        vec![
            entry("a", Value::Dynamic(Box::new(Value::Num(5)))),
            entry(
                "b",
                Value::Dynamic(Box::new(Value::Fl(Decimal::from_literal("2.5"))))
            ),
            entry("c", Value::Dynamic(Box::new(Value::Bool(true)))),
            entry("d", Value::Dynamic(Box::new(Value::Str("s".to_string())))),
            entry("e", Value::Dynamic(Box::new(Value::Ml("m".to_string())))),
        ]
    );
}

#[test]
fn rejects_a_structured_dynamic_literal() {
    let e = loads("a :: dynamic { { } }").unwrap_err();
    assert_eq!(
        e.message,
        "dynamic supports only base types (bool, str, num, fl, ml)"
    );
}

#[test]
fn reports_unknown_type_tags() {
    let e = loads("a :: widget { 1 }").unwrap_err();
    assert_eq!(e.message, "Unknown type: Some(\"widget\")");
    assert_eq!(e.line, Some(1));
    assert_eq!(e.column, Some(6));
}

#[test]
fn reports_unexpected_characters() {
    let e = loads("a : num { 1 }").unwrap_err();
    assert_eq!(e.message, "Unexpected character");
    assert_eq!(e.line, Some(1));
    assert_eq!(e.column, Some(3));
}

#[test]
fn reports_unclosed_comment_and_multiline() {
    let e = loads("[ never ends").unwrap_err();
    assert_eq!(e.message, "Unclosed comment");
    let e = loads("x :: ml { 'open").unwrap_err();
    assert_eq!(e.message, "Unclosed multiline string");
}

#[test]
fn reports_a_backslash_at_end_of_input() {
    let e = loads("x :: str { \"abc\\").unwrap_err();
    assert_eq!(e.message, "Unexpected end of string after backslash");
}

#[test]
fn a_later_declaration_replaces_an_earlier_one() {
    let m = loads("x :: num { 1 }\ny :: num { 2 }\nx :: num { 3 }").unwrap();
    assert_eq!(
        m,
        vec![entry("x", Value::Num(3)), entry("y", Value::Num(2))]
    );
}

#[test]
fn serializes_every_value_kind() {
    let m = vec![
        entry("a", Value::Bool(true)),
        entry("b", Value::Num(-7)),
        entry("c", Value::Str("q\"\\e".to_string())),
        entry("d", Value::ListStr(vec!["x".to_string()])),
        entry("e", Value::ListBool(vec![])),
    ];
    let out = dumps(&m, 0);
    assert_eq!(
        out,
        "a :: bool { true }\nb :: num { -7 }\nc :: str { \"q\\\"\\\\e\" }\nd :: list(str) { \"x\" }\ne :: list(bool) {  }\n"
    );
}

#[test]
fn serializes_nested_classes_with_indent() {
    let m = vec![entry(
        "p",
        Value::Class(vec![entry("x", Value::Num(1))]),
    )];
    assert_eq!(dumps(&m, 0), "p :: class {\n    x :: num { 1 }\n}\n");
    assert_eq!(dumps(&m, 2), "p :: class {\n  x :: num { 1 }\n}\n");
}

#[test]
fn serializes_multiline_text_as_an_ml_block() {
    let m = vec![entry("m", Value::Ml("a\nb".to_string()))];
    assert_eq!(dumps(&m, 0), "m :: ml {\n    'a\nb'\n}\n");
    // a quoted string holding a newline is forced onto the ml rendering
    let m = vec![entry("s", Value::Str("a\nb".to_string()))];
    assert_eq!(dumps(&m, 0), "s :: ml {\n    'a\nb'\n}\n");
}

#[test]
fn serializes_dynamic_scalars_under_the_dynamic_tag() {
    let ser = Serializer::new(0);
    let s = ser
        .serialize_dynamic(&Value::Num(5), 0)
        .unwrap();
    assert_eq!(s, "dynamic { 5 }");
    let s = ser
        .serialize_dynamic(&Value::Str("a".to_string()), 0)
        .unwrap();
    assert_eq!(s, "dynamic { \"a\" }");
    let s = ser
        .serialize_dynamic(&Value::Ml("m".to_string()), 0)
        .unwrap();
    assert_eq!(s, "ml {\n    'm'\n}");
    let e = ser
        .serialize_dynamic(&Value::Class(vec![]), 0)
        .unwrap_err();
    assert_eq!(e.message, "Unsupported value type for dynamic");
}

#[test]
fn round_trips_scalar_declarations() {
    let text = "a :: num { -12 }\nb :: fl { 2.50 }\nc :: str { \"h \\\"i\\\"\" }\nd :: ml { 'x\ny' }\ne :: bool { no }";
    let once = loads(text).unwrap();
    let again = loads(&dumps(&once, 0)).unwrap();
    assert_eq!(once, again);
}

#[test]
fn round_trips_lists_and_classes() {
    let text = "l :: list(fl) { 1.50, -0.25, 3 }\np :: class { q :: class { r :: num { 1 } } }";
    let once = loads(text).unwrap();
    let again = loads(&dumps(&once, 3)).unwrap();
    assert_eq!(once, again);
}

#[test]
fn builds_tokens_and_parsers_directly() {
    let tokens = vec![
        Token::new(TokenType::Identifier, Some("k".to_string()), 1, 1),
        Token::new(TokenType::DoubleColon, Some("::".to_string()), 1, 3),
        Token::new(TokenType::NumKw, Some("num".to_string()), 1, 6),
        Token::new(TokenType::LBrace, Some("{".to_string()), 1, 10),
        Token::new(TokenType::Number, Some("8".to_string()), 1, 12),
        Token::new(TokenType::RBrace, Some("}".to_string()), 1, 14),
        Token::new(TokenType::Eof, None, 1, 15),
    ];
    let m = Parser::new(tokens).parse().unwrap();
    assert_eq!(m, vec![entry("k", Value::Num(8))]);
}

#[test]
fn describes_errors_in_words() {
    let e = loads("x ::").unwrap_err();
    assert_eq!(
        e.describe(),
        "Syntax error at line 1, column 5: Unknown type: None"
    );
    let p = typeconf::ParseError::new("boom".to_string());
    assert_eq!(p.describe(), "Parse error: boom");
}

#[test]
fn tracks_positions_across_lines() {
    let e = loads("a :: num { 1 }\n  b :: ?").unwrap_err();
    assert_eq!(e.message, "Unexpected character");
    assert_eq!(e.line, Some(2));
    assert_eq!(e.column, Some(8));
}
