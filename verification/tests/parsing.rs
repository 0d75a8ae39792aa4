use json_parser::ErrorKind;
use json_parser::JsonValue;
use json_parser::Rule;
use json_parser::parse;
use json_parser::parse_with_limit;

fn num(raw: &str) -> JsonValue {
    JsonValue::Num(raw.to_string())
}

fn text(s: &str) -> JsonValue {
    JsonValue::Str(s.to_string())
}

#[test]
fn literal_true() {
    assert_eq!(parse("true"), Ok(JsonValue::Boolean(true)));
}

#[test]
fn literal_false() {
    assert_eq!(parse("false"), Ok(JsonValue::Boolean(false)));
}

#[test]
fn literal_null() {
    assert_eq!(parse("null"), Ok(JsonValue::Null));
}

#[test]
fn literal_typo_is_mismatch() {
    let e = parse("nul").unwrap_err();
    assert_eq!(e.kind, ErrorKind::LiteralMismatch);
    assert_eq!(e.pos, 0);
    let e = parse("truth").unwrap_err();
    assert_eq!(e.kind, ErrorKind::LiteralMismatch);
}

#[test]
fn number_keeps_its_literal_text() {
    assert_eq!(parse("-3.14e2"), Ok(num("-3.14e2")));
}

#[test]
fn number_value_is_minus_314() {
    match parse("-3.14e2").unwrap() {
        JsonValue::Num(raw) => {
            let x: f64 = raw.parse().unwrap();
            assert_eq!(x, -314.0);
        }
        other => panic!("expected a number, got {other:?}"),
    }
}

#[test]
fn number_shapes() {
    assert_eq!(parse("0"), Ok(num("0")));
    assert_eq!(parse("-0"), Ok(num("-0")));
    assert_eq!(parse("10.25"), Ok(num("10.25")));
    assert_eq!(parse("2e10"), Ok(num("2e10")));
    assert_eq!(parse("2E-3"), Ok(num("2E-3")));
    assert_eq!(parse("-12.5e+1"), Ok(num("-12.5e+1")));
}

#[test]
fn number_stops_before_incomplete_parts() {
    // A fraction or exponent without digits is not part of the literal,
    // so the leftovers are trailing input.
    assert_eq!(parse("1.").unwrap_err().kind, ErrorKind::TrailingInput);
    assert_eq!(parse("1e").unwrap_err().kind, ErrorKind::TrailingInput);
    // A leading zero ends the integer part.
    assert_eq!(parse("0123").unwrap_err().kind, ErrorKind::TrailingInput);
}

#[test]
fn number_without_digits_is_mismatch() {
    let e = parse("-x").unwrap_err();
    assert_eq!(e.kind, ErrorKind::LiteralMismatch);
    assert_eq!(e.pos, 1);
}

#[test]
fn nested_containers() {
    let parsed = parse("{\"a\":[1,2,3],\"b\":{}}").unwrap();
    let expected = JsonValue::Object(vec![
        (
            "a".to_string(),
            JsonValue::Array(vec![num("1"), num("2"), num("3")]),
        ),
        ("b".to_string(), JsonValue::Object(vec![])),
    ]);
    assert_eq!(parsed, expected);
}

#[test]
fn empty_containers_stand_alone() {
    assert_eq!(parse("[]"), Ok(JsonValue::Array(vec![])));
    assert_eq!(parse("{}"), Ok(JsonValue::Object(vec![])));
    assert_eq!(parse("  [ ]  "), Ok(JsonValue::Array(vec![])));
    assert_eq!(parse("\t{ }\n"), Ok(JsonValue::Object(vec![])));
}

#[test]
fn whitespace_around_elements() {
    assert_eq!(
        parse(" [ 1 ,\t2 ,\r\n3 ] "),
        Ok(JsonValue::Array(vec![num("1"), num("2"), num("3")]))
    );
    assert_eq!(
        parse("{ \"k\" :  true }"),
        Ok(JsonValue::Object(vec![(
            "k".to_string(),
            JsonValue::Boolean(true)
        )]))
    );
}

#[test]
fn trailing_comma_in_array_is_structural() {
    let e = parse("[1,2,]").unwrap_err();
    assert_eq!(e.kind, ErrorKind::StructuralViolation);
    assert_eq!(e.pos, 5);
    assert!(e.fatal);
}

#[test]
fn trailing_comma_in_object_is_structural() {
    let e = parse("{\"a\":1,}").unwrap_err();
    assert_eq!(e.kind, ErrorKind::StructuralViolation);
    assert_eq!(e.pos, 7);
    assert!(e.fatal);
}

#[test]
fn missing_close_bracket_is_structural() {
    let e = parse("[1,2").unwrap_err();
    assert_eq!(e.kind, ErrorKind::StructuralViolation);
    assert_eq!(e.pos, 4);
}

#[test]
fn missing_colon_is_structural() {
    let e = parse("{\"a\" 1}").unwrap_err();
    assert_eq!(e.kind, ErrorKind::StructuralViolation);
    assert_eq!(e.pos, 5);
}

#[test]
fn surrogate_pair_decodes_to_one_scalar() {
    assert_eq!(parse("\"\\uD83D\\uDE00\""), Ok(text("\u{1F600}")));
}

#[test]
fn lone_high_surrogate_fails() {
    let e = parse("\"\\uD83D\"").unwrap_err();
    assert_eq!(e.kind, ErrorKind::InvalidCodepoint);
    assert!(e.fatal);
}

#[test]
fn lone_low_surrogate_fails() {
    let e = parse("\"\\uDE00\"").unwrap_err();
    assert_eq!(e.kind, ErrorKind::InvalidCodepoint);
}

#[test]
fn high_surrogate_with_non_low_partner_fails() {
    let e = parse("\"\\uD83D\\u0041\"").unwrap_err();
    assert_eq!(e.kind, ErrorKind::InvalidCodepoint);
}

#[test]
fn direct_unicode_escape() {
    assert_eq!(parse("\"\\u0041\""), Ok(text("A")));
    assert_eq!(parse("\"\\u00e9\""), Ok(text("\u{e9}")));
    assert_eq!(parse("\"\\uFFFD\""), Ok(text("\u{FFFD}")));
}

#[test]
fn simple_escapes() {
    assert_eq!(
        parse("\"a\\n\\t\\r\\b\\f\\\\\\/\\\"z\""),
        Ok(text("a\n\t\r\u{8}\u{c}\\/\"z"))
    );
}

#[test]
fn raw_multibyte_characters_pass_through() {
    assert_eq!(parse("\"foo\u{1F914}bar\""), Ok(text("foo\u{1F914}bar")));
}

#[test]
fn unknown_escape_designator_fails() {
    let e = parse("\"\\q\"").unwrap_err();
    assert_eq!(e.kind, ErrorKind::InvalidEscape);
    assert_eq!(e.pos, 2);
}

#[test]
fn malformed_hex_escape_fails() {
    let e = parse("\"\\u12G4\"").unwrap_err();
    assert_eq!(e.kind, ErrorKind::InvalidEscape);
    assert_eq!(e.pos, 5);
}

#[test]
fn unterminated_string_fails() {
    let e = parse("\"abc").unwrap_err();
    assert_eq!(e.kind, ErrorKind::StructuralViolation);
    assert_eq!(e.pos, 4);
}

#[test]
fn duplicate_keys_last_write_wins() {
    let parsed = parse("{\"x\":1,\"x\":2}").unwrap();
    assert_eq!(
        parsed,
        JsonValue::Object(vec![("x".to_string(), num("2"))])
    );
}

#[test]
fn duplicate_key_keeps_first_position() {
    let parsed = parse("{\"x\":1,\"y\":2,\"x\":3}").unwrap();
    assert_eq!(
        parsed,
        JsonValue::Object(vec![
            ("x".to_string(), num("3")),
            ("y".to_string(), num("2")),
        ])
    );
}

#[test]
fn trailing_garbage_is_rejected() {
    let e = parse("{} trailing-garbage").unwrap_err();
    assert_eq!(e.kind, ErrorKind::TrailingInput);
    assert_eq!(e.pos, 3);
}

#[test]
fn trailing_whitespace_is_fine() {
    assert_eq!(parse("  {}  \n"), Ok(JsonValue::Object(vec![])));
}

#[test]
fn unexpected_character_at_dispatch() {
    let e = parse("@").unwrap_err();
    assert_eq!(e.kind, ErrorKind::UnexpectedCharacter);
    assert_eq!(e.pos, 0);
    assert!(e.fatal);
}

#[test]
fn empty_input_is_mismatch() {
    let e = parse("").unwrap_err();
    assert_eq!(e.kind, ErrorKind::LiteralMismatch);
    assert!(!e.fatal);
}

#[test]
fn context_trail_names_enclosing_rules() {
    let e = parse("[{\"k\":\"\\q\"}]").unwrap_err();
    assert_eq!(e.kind, ErrorKind::InvalidEscape);
    assert_eq!(e.trail, vec![Rule::StringLit, Rule::Object, Rule::Array]);
    assert_eq!(
        e.trail.iter().map(|r| r.name()).collect::<Vec<_>>(),
        vec!["string", "map", "array"]
    );
}

#[test]
fn depth_limit_is_enforced() {
    assert_eq!(
        parse_with_limit("[[]]", 2),
        Ok(JsonValue::Array(vec![JsonValue::Array(vec![])]))
    );
    let e = parse_with_limit("[[[]]]", 2).unwrap_err();
    assert_eq!(e.kind, ErrorKind::DepthExceeded);
    assert!(e.fatal);
}

#[test]
fn deep_nesting_beyond_default_limit_fails_cleanly() {
    let mut deep = String::new();
    for _ in 0..600 {
        deep.push('[');
    }
    let e = parse(&deep).unwrap_err();
    assert_eq!(e.kind, ErrorKind::DepthExceeded);
}

#[test]
fn error_inside_array_is_fatal_with_position() {
    let e = parse("[1, @]").unwrap_err();
    assert_eq!(e.kind, ErrorKind::UnexpectedCharacter);
    assert_eq!(e.pos, 4);
    assert!(e.fatal);
    assert_eq!(e.trail, vec![Rule::Array]);
}

#[test]
fn object_key_must_be_a_string() {
    let e = parse("{x: 1}").unwrap_err();
    assert_eq!(e.kind, ErrorKind::LiteralMismatch);
    assert_eq!(e.pos, 1);
    // The object had committed, so the failure is fatal.
    assert!(e.fatal);
    assert_eq!(e.trail, vec![Rule::Object]);
}

#[test]
fn canonical_scalar_texts_reparse_to_their_values() {
    // The canonical text of a parsed scalar re-parses to an equal value:
    // a number keeps its literal text, and a string's canonical form
    // escapes the quote, the backslash and control characters.
    assert_eq!(parse("-3.14e2"), Ok(num("-3.14e2")));
    assert_eq!(parse("\"a\\u000ab\""), Ok(text("a\nb")));
    assert_eq!(parse("\"\\\\\\\"\\u0001\""), Ok(text("\\\"\u{1}")));
}

#[test]
fn parsing_is_deterministic() {
    let input = "{\"a\":[1,2,{\"b\":null}],\"c\":\"\\u0041x\"}";
    assert_eq!(parse(input), parse(input));
}

#[test]
fn string_values_and_keys_decode_escapes() {
    let parsed = parse("{\"new\\nline\": \"tab\\there\"}").unwrap();
    assert_eq!(
        parsed,
        JsonValue::Object(vec![("new\nline".to_string(), text("tab\there"))])
    );
}
