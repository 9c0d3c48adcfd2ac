use streaming_json_parser::{
    escape_string, parse_json_stream, stream_json_objects, validate_json_string, JsonValue,
    ParseError, ParseResult,
};

fn collect_stream(input: &str) -> Vec<ParseResult<JsonValue>> {
    let mut parser = parse_json_stream(input);
    let mut results = Vec::new();
    while let Some(outcome) = parser.next() {
        results.push(outcome);
    }
    results
}

#[test]
fn test_streaming_multiple_objects() {
    let json_stream = "{\"a\": 1}\n{\"b\": 2}\n{\"c\": 3}";
    let results = collect_stream(json_stream);
    assert_eq!(results.len(), 3);

    for result in results {
        assert!(result.is_ok());
    }
}

#[test]
fn test_streaming_yields_documents_in_order() {
    let results = collect_stream("{\"a\":1}\n{\"b\":2}\n{\"c\":3}");
    assert_eq!(results.len(), 3);
    let expected = [
        ("a", "1"),
        ("b", "2"),
        ("c", "3"),
    ];
    for (result, (key, num)) in results.into_iter().zip(expected) {
        let value = result.unwrap();
        assert_eq!(
            value,
            JsonValue::Object(vec![(key.to_string(), JsonValue::Number(num.to_string()))])
        );
    }
}

#[test]
fn test_streaming_empty_input() {
    assert!(collect_stream("").is_empty());
    assert!(collect_stream("  \n\t ").is_empty());
}

#[test]
fn test_streaming_stops_after_first_error() {
    let mut parser = stream_json_objects("1 @ 2");
    let first = parser.next().expect("first document");
    assert_eq!(first.unwrap(), JsonValue::Number("1".to_string()));
    let second = parser.next().expect("second outcome");
    assert!(matches!(
        second,
        Err(ParseError::InvalidCharacter { found: '@', position: 2 })
    ));
    assert!(parser.next().is_none());
    assert!(parser.next().is_none());
}

#[test]
fn test_streaming_not_newline_delimited() {
    let results = collect_stream("1 2\t3");
    assert_eq!(results.len(), 3);
    for result in results {
        assert!(result.is_ok());
    }
}

#[test]
fn test_validate_json_string() {
    assert!(validate_json_string("{\"a\": [1, 2, 3]}"));
    assert!(validate_json_string("null"));
    assert!(!validate_json_string(""));
    assert!(!validate_json_string("{\"a\": 1,}"));
    assert!(!validate_json_string("[1, 2"));
}

#[test]
fn test_escape_string_exact() {
    assert_eq!(escape_string("plain"), "plain");
    assert_eq!(escape_string("a\"b\\c"), "a\\\"b\\\\c");
    assert_eq!(escape_string("x\ny\rz\t"), "x\\ny\\rz\\t");
    assert_eq!(escape_string("\u{0001}"), "\\u0001");
    assert_eq!(escape_string("\u{009f}"), "\\u009f");
}
