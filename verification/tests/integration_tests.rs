use rust_json_parser::{parse_json, JsonError, JsonValue};

fn bits(x: f64) -> u64 {
    x.to_bits()
}

#[test]
fn test_integration() {
    // Test the full parsing pipeline
    assert_eq!(parse_json("42").unwrap(), JsonValue::Number(bits(42.0)));
    assert_eq!(parse_json("true").unwrap(), JsonValue::Boolean(true));
    assert_eq!(parse_json("null").unwrap(), JsonValue::Null);
    assert_eq!(
        parse_json(r#""hello""#).unwrap(),
        JsonValue::String("hello".to_string())
    );
}

#[test]
fn test_error_propagation() {
    // Test that errors propagate properly with correct details
    let result = parse_json("@invalid@");
    assert!(result.is_err());
    // Validate error details through pattern matching
    match result {
        Err(JsonError::UnexpectedToken {
            expected,
            found,
            position,
        }) => {
            assert_eq!(expected, "valid JSON value");
            assert_eq!(found, "@");
            assert_eq!(position, 0);
        }
        _ => panic!("Expected UnexpectedToken error"),
    }
}
