use streaming_json_parser::{parse_json_string, JsonValue, ParseError};

#[test]
fn test_parse_simple_string() {
    let result = parse_json_string("\"hello\"").unwrap();
    assert_eq!(result, JsonValue::String("hello".to_string()));
}

#[test]
fn test_parse_number() {
    let result = parse_json_string("42").unwrap();
    match result {
        JsonValue::Number(text) => assert_eq!(text.parse::<f64>().unwrap(), 42.0),
        other => panic!("expected a number, got {:?}", other),
    }
}

#[test]
fn test_parse_boolean() {
    let result = parse_json_string("true").unwrap();
    assert_eq!(result, JsonValue::Boolean(true));
}

#[test]
fn test_parse_null() {
    let result = parse_json_string("null").unwrap();
    assert_eq!(result, JsonValue::Null);
}

#[test]
fn test_parse_empty_object() {
    let result = parse_json_string("{}").unwrap();
    assert_eq!(result, JsonValue::Object(Vec::new()));
}

#[test]
fn test_parse_empty_array() {
    let result = parse_json_string("[]").unwrap();
    assert_eq!(result, JsonValue::Array(Vec::new()));
}

#[test]
fn test_parse_simple_object() {
    let result = parse_json_string("{\"key\": \"value\"}").unwrap();
    let expected = JsonValue::Object(vec![(
        "key".to_string(),
        JsonValue::String("value".to_string()),
    )]);
    assert_eq!(result, expected);
}

#[test]
fn test_parse_simple_array() {
    let result = parse_json_string("[1, 2, 3]").unwrap();
    let expected = JsonValue::Array(vec![
        JsonValue::Number("1".to_string()),
        JsonValue::Number("2".to_string()),
        JsonValue::Number("3".to_string()),
    ]);
    assert_eq!(result, expected);
}

#[test]
fn test_invalid_json() {
    let result = parse_json_string("{invalid}");
    assert!(result.is_err());
}

#[test]
fn test_trailing_comma_error() {
    let result = parse_json_string("{\"key\": \"value\",}");
    assert!(result.is_err());

    if let Err(ParseError::TrailingComma(_)) = result {
    } else {
        panic!("Expected TrailingComma error");
    }
}

#[test]
fn test_empty_string_value() {
    let result = parse_json_string("\"\"").unwrap();
    assert_eq!(result, JsonValue::String(String::new()));
}

#[test]
fn test_number_boundaries() {
    for (text, value) in [
        ("0", 0.0),
        ("-0", -0.0),
        ("0.5", 0.5),
        ("1e10", 1e10),
        ("-1.5e-3", -1.5e-3),
    ] {
        match parse_json_string(text).unwrap() {
            JsonValue::Number(t) => assert_eq!(t.parse::<f64>().unwrap(), value),
            other => panic!("expected a number for {}, got {:?}", text, other),
        }
    }
}

#[test]
fn test_leading_zero_rejected() {
    match parse_json_string("01") {
        Err(ParseError::InvalidNumber(p)) => assert_eq!(p, 0),
        other => panic!("expected InvalidNumber, got {:?}", other),
    }
}

#[test]
fn test_bare_fraction_rejected() {
    match parse_json_string(".5") {
        Err(ParseError::InvalidCharacter { found, position }) => {
            assert_eq!(found, '.');
            assert_eq!(position, 0);
        }
        other => panic!("expected InvalidCharacter, got {:?}", other),
    }
}

#[test]
fn test_trailing_comma_in_array() {
    match parse_json_string("[1,2,]") {
        Err(ParseError::TrailingComma(p)) => assert_eq!(p, 5),
        other => panic!("expected TrailingComma, got {:?}", other),
    }
}

#[test]
fn test_unicode_escape_decodes() {
    let result = parse_json_string("\"\\u0041\"").unwrap();
    assert_eq!(result, JsonValue::String("A".to_string()));
}

#[test]
fn test_invalid_escape() {
    match parse_json_string("\"\\q\"") {
        Err(ParseError::InvalidEscape(_)) => {}
        other => panic!("expected InvalidEscape, got {:?}", other),
    }
}

#[test]
fn test_unterminated_string_at_opening_quote() {
    match parse_json_string("\"abc") {
        Err(ParseError::UnterminatedString(p)) => assert_eq!(p, 0),
        other => panic!("expected UnterminatedString, got {:?}", other),
    }
}

#[test]
fn test_position_counts_characters_not_bytes() {
    // The two-byte character before the structural error counts as one
    // position unit: the stray colon stands at character 4.
    match parse_json_string("[\"é\":") {
        Err(ParseError::UnexpectedToken { position, .. }) => assert_eq!(position, 4),
        other => panic!("expected UnexpectedToken, got {:?}", other),
    }
}

#[test]
fn test_unexpected_token_description() {
    match parse_json_string("{\"a\" 1}") {
        Err(ParseError::UnexpectedToken {
            expected,
            found,
            position,
        }) => {
            assert_eq!(expected, "Colon");
            assert_eq!(found, "Number");
            assert_eq!(position, 5);
        }
        other => panic!("expected UnexpectedToken, got {:?}", other),
    }
}

#[test]
fn test_invalid_character_position() {
    match parse_json_string("  @") {
        Err(ParseError::InvalidCharacter { found, position }) => {
            assert_eq!(found, '@');
            assert_eq!(position, 2);
        }
        other => panic!("expected InvalidCharacter, got {:?}", other),
    }
}

#[test]
fn test_duplicate_keys_last_write_wins() {
    let result = parse_json_string("{\"a\": 1, \"a\": 2}").unwrap();
    let expected = JsonValue::Object(vec![("a".to_string(), JsonValue::Number("2".to_string()))]);
    assert_eq!(result, expected);
}

#[test]
fn test_nested_structures() {
    let result = parse_json_string("{\"xs\": [true, null, {\"y\": \"z\"}]}").unwrap();
    let expected = JsonValue::Object(vec![(
        "xs".to_string(),
        JsonValue::Array(vec![
            JsonValue::Boolean(true),
            JsonValue::Null,
            JsonValue::Object(vec![("y".to_string(), JsonValue::String("z".to_string()))]),
        ]),
    )]);
    assert_eq!(result, expected);
}

#[test]
fn test_trailing_content_rejected() {
    match parse_json_string("1 2") {
        Err(ParseError::UnexpectedToken { expected, .. }) => {
            assert_eq!(expected, "end of input");
        }
        other => panic!("expected UnexpectedToken, got {:?}", other),
    }
}

#[test]
fn test_parse_twice_identical() {
    let input = "{\"a\": [1, 2], \"b\": \"x\"}";
    let first = parse_json_string(input);
    let second = parse_json_string(input);
    assert_eq!(first, second);
}

#[test]
fn test_error_position_within_input() {
    for input in ["{\"a\": ", "[1, 2", "\"abc", "{\"a\" 1}", "nope", "01"] {
        let err = parse_json_string(input).unwrap_err();
        if let Some(p) = err.position() {
            assert!(p <= input.chars().count());
        }
    }
}
