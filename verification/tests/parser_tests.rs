use rust_json_parser::{parse_json, JsonError, JsonParser, JsonValue};

fn bits(x: f64) -> u64 {
    x.to_bits()
}

fn obj_get<'a>(pairs: &'a [(String, JsonValue)], key: &str) -> Option<&'a JsonValue> {
    pairs.iter().find(|(k, _)| k == key).map(|(_, v)| v)
}

#[test]
fn test_parser_creation() {
    let parser = JsonParser::new("42");
    assert!(parser.is_ok());
}

#[test]
fn test_parser_creation_tokenize_error() {
    let result = JsonParser::new(r#""\q""#);
    assert!(result.is_err());
    match result {
        Err(JsonError::InvalidEscape {
            character,
            position,
        }) => {
            assert_eq!(character, 'q');
            assert_eq!(position, 1);
        }
        _ => panic!("Expected InvalidEscape error, got {:?}", result),
    }
}

#[test]
fn test_successful_consumption_state() {
    // Initial State: Created but not parsed
    let mut parser = JsonParser::new("true").unwrap();
    assert!(
        !parser.is_at_end(),
        "Parser should not be at end before parsing"
    );

    // Transition: Parse the value
    let result = parser.parse();
    assert!(result.is_ok());
    assert_eq!(result.unwrap(), JsonValue::Boolean(true));

    // Final State: Fully consumed
    assert!(
        parser.is_at_end(),
        "Parser should be at end after consuming the only token"
    );
}

#[test]
fn test_repeated_parse_calls_exhaustion() {
    let mut parser = JsonParser::new("null").unwrap();

    // Consume the only token
    let _ = parser.parse();

    // Any subsequent calls to parse should transition to an Error state (EndOfInput)
    let second_call = parser.parse();
    match second_call {
        Err(JsonError::UnexpectedEndOfInput { .. }) => {}
        _ => panic!("Expected UnexpectedEndOfInput error on exhausted parser"),
    }
}

#[test]
fn test_all_primitives() {
    // Table-driven test: (input_string, expected_value)
    let cases = vec![
        // Strings
        (
            r#""hello world""#,
            JsonValue::String("hello world".to_string()),
        ),
        (r#""""#, JsonValue::String("".to_string())),
        (r#""123""#, JsonValue::String("123".to_string())),
        // Numbers
        ("42.5", JsonValue::Number(bits(42.5))),
        ("0", JsonValue::Number(bits(0.0))),
        ("-10", JsonValue::Number(bits(-10.0))),
        ("1e10", JsonValue::Number(bits(1e10))),
        // Booleans
        ("true", JsonValue::Boolean(true)),
        ("false", JsonValue::Boolean(false)),
        // Null
        ("null", JsonValue::Null),
    ];

    for (input, expected) in cases {
        let result = parse_json(input).unwrap_or_else(|e| {
            panic!("Failed to parse '{}': {}", input, e.message());
        });
        assert_eq!(result, expected, "Input failed: {}", input);
    }
}

#[test]
fn test_parse_with_whitespace() {
    let cases = ["   true", "false   ", "\n123\t", "  null  "];
    for input in cases {
        assert!(
            parse_json(input).is_ok(),
            "Should handle whitespace for: {}",
            input
        );
    }
}

#[test]
fn test_parse_string_with_newline() {
    let mut parser = JsonParser::new(r#""hello\nworld""#).unwrap();
    let value = parser.parse().unwrap();
    assert_eq!(value, JsonValue::String("hello\nworld".to_string()));
}

#[test]
fn test_parse_string_with_tab() {
    let mut parser = JsonParser::new(r#""col1\tcol2""#).unwrap();
    let value = parser.parse().unwrap();
    assert_eq!(value, JsonValue::String("col1\tcol2".to_string()));
}

#[test]
fn test_parse_string_with_quotes() {
    let mut parser = JsonParser::new(r#""say \"hi\"""#).unwrap();
    let value = parser.parse().unwrap();
    assert_eq!(value, JsonValue::String("say \"hi\"".to_string()));
}

#[test]
fn test_parse_string_with_unicode() {
    let mut parser = JsonParser::new(r#""\u0048\u0065\u006c\u006c\u006f""#).unwrap();
    let value = parser.parse().unwrap();
    assert_eq!(value, JsonValue::String("Hello".to_string()));
}

#[test]
fn test_parse_complex_escapes() {
    let mut parser = JsonParser::new(r#""line1\nline2\t\"quoted\"\u0021""#).unwrap();
    let value = parser.parse().unwrap();
    assert_eq!(
        value,
        JsonValue::String("line1\nline2\t\"quoted\"!".to_string())
    );
}

#[test]
fn test_parse_error_empty() {
    let result = parse_json("");
    assert!(result.is_err());
    match result {
        Err(JsonError::UnexpectedEndOfInput { expected, position }) => {
            assert_eq!(expected, "JSON value");
            assert_eq!(position, 0);
        }
        _ => panic!("Expected UnexpectedEndOfInput error"),
    }
}

#[test]
fn test_parse_error_invalid_token() {
    let invalid_inputs = ["@", "$", "%", "^", "!", "None", "undefined", "tru"];
    for input in invalid_inputs {
        let result = parse_json(input);
        assert!(
            matches!(result, Err(JsonError::UnexpectedToken { .. })),
            "Should return UnexpectedToken for: {}",
            input
        );
    }
}

#[test]
fn test_malformed_numbers() {
    let malformed = ["1.2.3", "1e", "--10", "1.0.e10"];
    for input in malformed {
        let result = parse_json(input);
        assert!(
            matches!(result, Err(JsonError::InvalidNumber { .. })),
            "Should return InvalidNumber for: {}",
            input
        );
    }
}

#[test]
fn test_parse_whitespace_only() {
    let parser = JsonParser::new("   ");
    assert!(parser.is_err() || parser.unwrap().parse().is_err());
}

#[test]
fn test_error_unclosed_array() {
    let result = parse_json("[1, 2");
    assert!(result.is_err());
}

#[test]
fn test_error_unclosed_object() {
    let result = parse_json(r#"{"key": 1"#);
    assert!(result.is_err());
}

#[test]
fn test_error_trailing_comma_array() {
    let result = parse_json("[1, 2,]");
    assert!(result.is_err());
}

#[test]
fn test_error_trailing_comma_object() {
    let result = parse_json(r#"{"a": 1,}"#);
    assert!(result.is_err());
}

#[test]
fn test_error_missing_colon() {
    let result = parse_json(r#"{"key" 1}"#);
    assert!(result.is_err());
}

#[test]
fn test_error_invalid_key() {
    let result = parse_json(r#"{123: "value"}"#);
    assert!(result.is_err());
}

#[test]
fn test_error_missing_comma_array() {
    let result = parse_json("[1 2 3]");
    assert!(result.is_err());
}

#[test]
fn test_error_missing_comma_object() {
    let result = parse_json(r#"{"a": 1 "b": 2}"#);
    assert!(result.is_err());
}

#[test]
fn test_parse_empty_array() {
    let value = parse_json("[]").unwrap();
    assert_eq!(value, JsonValue::Array(vec![]));
}

#[test]
fn test_parse_array_single() {
    let value = parse_json("[1]").unwrap();
    assert_eq!(value, JsonValue::Array(vec![JsonValue::Number(bits(1.0))]));
}

#[test]
fn test_parse_array_multiple() {
    let value = parse_json("[1, 2, 3]").unwrap();
    let expected = JsonValue::Array(vec![
        JsonValue::Number(bits(1.0)),
        JsonValue::Number(bits(2.0)),
        JsonValue::Number(bits(3.0)),
    ]);
    assert_eq!(value, expected);
}

#[test]
fn test_parse_array_mixed_types() {
    let value = parse_json(r#"[1, "two", true, null]"#).unwrap();
    let expected = JsonValue::Array(vec![
        JsonValue::Number(bits(1.0)),
        JsonValue::String("two".to_string()),
        JsonValue::Boolean(true),
        JsonValue::Null,
    ]);
    assert_eq!(value, expected);
}

#[test]
fn test_parse_nested_arrays() {
    let value = parse_json("[[1, 2], [3, 4]]").unwrap();
    let expected = JsonValue::Array(vec![
        JsonValue::Array(vec![
            JsonValue::Number(bits(1.0)),
            JsonValue::Number(bits(2.0)),
        ]),
        JsonValue::Array(vec![
            JsonValue::Number(bits(3.0)),
            JsonValue::Number(bits(4.0)),
        ]),
    ]);
    assert_eq!(value, expected);
}

#[test]
fn test_parse_deeply_nested() {
    let value = parse_json("[[[1]]]").unwrap();
    let expected = JsonValue::Array(vec![JsonValue::Array(vec![JsonValue::Array(vec![
        JsonValue::Number(bits(1.0)),
    ])])]);
    assert_eq!(value, expected);
}

#[test]
fn parser_test_array_accessor() {
    let value = parse_json("[1, 2, 3]").unwrap();
    let arr = value.as_array().unwrap();
    assert_eq!(arr.len(), 3);
}

#[test]
fn parser_test_array_get_index() {
    let value = parse_json("[10, 20, 30]").unwrap();
    assert_eq!(value.get_index(1), Some(&JsonValue::Number(bits(20.0))));
    assert_eq!(value.get_index(5), None);
}

#[test]
fn test_parse_empty_object() {
    let value = parse_json("{}").unwrap();
    assert_eq!(value, JsonValue::Object(vec![]));
}

#[test]
fn test_parse_object_single_key() {
    let value = parse_json(r#"{"key": "value"}"#).unwrap();
    let expected = vec![("key".to_string(), JsonValue::String("value".to_string()))];
    assert_eq!(value, JsonValue::Object(expected));
}

#[test]
fn test_parse_object_multiple_keys() {
    let value = parse_json(r#"{"name": "Alice", "age": 30}"#).unwrap();
    if let JsonValue::Object(obj) = value {
        assert_eq!(
            obj_get(&obj, "name"),
            Some(&JsonValue::String("Alice".to_string()))
        );
        assert_eq!(obj_get(&obj, "age"), Some(&JsonValue::Number(bits(30.0))))
    } else {
        panic!("Expected Object");
    }
}

#[test]
fn test_parse_nested_object() {
    let value = parse_json(r#"{"outer": {"inner": 1}}"#).unwrap();
    if let JsonValue::Object(outer) = value {
        if let Some(JsonValue::Object(inner)) = obj_get(&outer, "outer") {
            assert_eq!(obj_get(inner, "inner"), Some(&JsonValue::Number(bits(1.0))));
        } else {
            panic!("Expected nested object");
        }
    } else {
        panic!("Expected object");
    }
}

#[test]
fn test_parse_array_in_object() {
    let value = parse_json(r#"{"items": [1, 2, 3]}"#).unwrap();
    if let JsonValue::Object(obj) = value {
        if let Some(JsonValue::Array(arr)) = obj_get(&obj, "items") {
            assert_eq!(arr.len(), 3);
        } else {
            panic!("Expected array");
        }
    } else {
        panic!("Expected object");
    }
}

#[test]
fn test_parse_object_in_array() {
    let value = parse_json(r#"[{"a": 1}, {"b": 2}]"#).unwrap();
    if let JsonValue::Array(arr) = value {
        assert_eq!(arr.len(), 2);
    } else {
        panic!("Expected array");
    }
}

#[test]
fn parser_test_object_accessor() {
    let value = parse_json(r#"{"name": "test"}"#).unwrap();
    let obj = value.as_object().unwrap();
    assert_eq!(obj.len(), 1);
}

#[test]
fn parser_test_object_get() {
    let value = parse_json(r#"{"name": "Alice", "age": 30}"#).unwrap();
    assert_eq!(
        value.get("name"),
        Some(&JsonValue::String("Alice".to_string()))
    );
}
