use streaming_json_parser::{parse_json_string, JsonValue, Lexer, ParseError, Token, TokenType};

#[test]
fn test_render_compact() {
    let value = JsonValue::Object(vec![
        (
            "xs".to_string(),
            JsonValue::Array(vec![
                JsonValue::Number("1".to_string()),
                JsonValue::Boolean(true),
                JsonValue::Null,
            ]),
        ),
        ("s".to_string(), JsonValue::String("a\nb".to_string())),
    ]);
    assert_eq!(value.to_json_string(), "{\"xs\":[1,true,null],\"s\":\"a\\nb\"}");
}

#[test]
fn test_render_empty_containers() {
    assert_eq!(JsonValue::Object(Vec::new()).to_json_string(), "{}");
    assert_eq!(JsonValue::Array(Vec::new()).to_json_string(), "[]");
    assert_eq!(JsonValue::String(String::new()).to_json_string(), "\"\"");
}

#[test]
fn test_round_trip() {
    let value = JsonValue::Object(vec![
        ("plain".to_string(), JsonValue::String("text".to_string())),
        (
            "tricky\"key".to_string(),
            JsonValue::String("line\nbreak \\ and \u{0007} bell".to_string()),
        ),
        ("n".to_string(), JsonValue::Number("-1.5e-3".to_string())),
        (
            "deep".to_string(),
            JsonValue::Array(vec![
                JsonValue::Array(vec![JsonValue::Number("0".to_string())]),
                JsonValue::Object(Vec::new()),
                JsonValue::Boolean(false),
                JsonValue::Null,
            ]),
        ),
    ]);
    let text = value.to_json_string();
    let reparsed = parse_json_string(&text).unwrap();
    assert_eq!(reparsed, value);
}

#[test]
fn test_message_texts() {
    assert_eq!(
        ParseError::TrailingComma(5).message(),
        "Trailing comma not allowed at position 5"
    );
    assert_eq!(
        ParseError::InvalidNumber(17).message(),
        "Invalid number format at position 17"
    );
    assert_eq!(
        ParseError::UnexpectedToken {
            expected: "Colon".to_string(),
            found: "Number".to_string(),
            position: 120,
        }
        .message(),
        "Expected Colon, found Number at position 120"
    );
    assert_eq!(
        ParseError::InvalidCharacter { found: '@', position: 0 }.message(),
        "Invalid character '@' at position 0"
    );
    assert_eq!(ParseError::Io("closed".to_string()).message(), "IO error: closed");
}

#[test]
fn test_error_position_getter() {
    assert_eq!(ParseError::UnterminatedString(3).position(), Some(3));
    assert_eq!(ParseError::Io("gone".to_string()).position(), None);
}

#[test]
fn test_lexer_tokens_and_positions() {
    let mut lexer = Lexer::new(" {\"k\": 12} ");
    let expected = [
        (TokenType::LeftBrace, 1),
        (TokenType::String("k".to_string()), 2),
        (TokenType::Colon, 5),
        (TokenType::Number("12".to_string()), 7),
        (TokenType::RightBrace, 9),
        (TokenType::Eof, 11),
    ];
    for (token_type, position) in expected {
        let token = lexer.next_token().unwrap();
        assert_eq!(token, Token::new(token_type, position));
    }
}

#[test]
fn test_lexer_scanner_primitives() {
    let mut lexer = Lexer::new("  ab");
    assert_eq!(lexer.current_char(), Some(' '));
    lexer.skip_whitespace();
    assert_eq!(lexer.current_char(), Some('a'));
    assert_eq!(lexer.advance(), Some('a'));
    assert_eq!(lexer.advance(), Some('b'));
    assert_eq!(lexer.advance(), None);
}

#[test]
fn test_lexer_readers() {
    let mut lexer = Lexer::new("\"a\\u0041b\"");
    assert_eq!(lexer.read_string().unwrap(), "aAb");

    let mut lexer = Lexer::new("3.25e2,");
    assert_eq!(lexer.read_number().unwrap(), "3.25e2");

    let mut lexer = Lexer::new("truthy ");
    assert_eq!(lexer.read_literal(), "truthy");
}
