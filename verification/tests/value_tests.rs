use rust_json_parser::{format_compact, parse_json, JsonValue};

fn bits(x: f64) -> u64 {
    x.to_bits()
}

#[test]
fn test_json_value_creation() {
    let null_val = JsonValue::Null;
    let bool_val = JsonValue::Boolean(true);
    let num_val = JsonValue::Number(bits(42.5));
    let str_val = JsonValue::String("hello".to_string());
    assert!(null_val.is_null());
    assert_eq!(bool_val.as_bool(), Some(true));
    assert_eq!(num_val.as_f64(), Some(bits(42.5)));
    assert_eq!(str_val.as_str(), Some("hello"));
}

#[test]
fn test_json_value_accessors() {
    let value = JsonValue::String("test".to_string());
    assert_eq!(value.as_str(), Some("test"));
    assert_eq!(value.as_f64(), None);
    assert_eq!(value.as_bool(), None);
    assert!(!value.is_null());
    let value = JsonValue::Number(bits(42.0));
    assert_eq!(value.as_f64(), Some(bits(42.0)));
    assert_eq!(value.as_str(), None);
    let value = JsonValue::Boolean(true);
    assert_eq!(value.as_bool(), Some(true));
    let value = JsonValue::Null;
    assert!(value.is_null());
}

#[test]
fn test_json_value_equality() {
    assert_eq!(JsonValue::Null, JsonValue::Null);
    assert_eq!(JsonValue::Boolean(true), JsonValue::Boolean(true));
    assert_eq!(JsonValue::Number(bits(42.0)), JsonValue::Number(bits(42.0)));
    assert_eq!(
        JsonValue::String("test".to_string()),
        JsonValue::String("test".to_string())
    );
    assert_ne!(JsonValue::Null, JsonValue::Boolean(false));
    assert_ne!(JsonValue::Number(bits(1.0)), JsonValue::Number(bits(2.0)));
}

#[test]
fn test_accessors_return_correct_values() {
    let cases = vec![
        (JsonValue::Null, None, None, None, true),
        (JsonValue::Boolean(true), None, None, Some(true), false),
        (
            JsonValue::Number(bits(123.45)),
            None,
            Some(bits(123.45)),
            None,
            false,
        ),
        (
            JsonValue::String("Rust".into()),
            Some("Rust"),
            None,
            None,
            false,
        ),
    ];

    for (val, expected_str, expected_f64, expected_bool, is_null) in cases {
        assert_eq!(val.as_str(), expected_str, "Failed as_str on {:?}", val);
        assert_eq!(val.as_f64(), expected_f64, "Failed as_f64 on {:?}", val);
        assert_eq!(val.as_bool(), expected_bool, "Failed as_bool on {:?}", val);
        assert_eq!(val.is_null(), is_null, "Failed is_null on {:?}", val);
    }
}

#[test]
fn test_numeric_edge_cases() {
    let nan_val = JsonValue::Number(f64::NAN.to_bits());
    let inf_val = JsonValue::Number(f64::INFINITY.to_bits());

    // NaN != NaN by IEEE 754 standards.
    assert!(f64::from_bits(nan_val.as_f64().unwrap()).is_nan());
    assert_eq!(inf_val.as_f64(), Some(f64::INFINITY.to_bits()));
}

#[test]
fn value_test_array_accessor() {
    // Create: [true, 42.0]
    let array_val = JsonValue::Array(vec![
        JsonValue::Boolean(true),
        JsonValue::Number(bits(42.0)),
    ]);

    // Success case
    assert!(array_val.as_array().is_some());
    assert_eq!(array_val.as_array().unwrap().len(), 2);

    // Failure case: A boolean is not an array
    let bool_val = JsonValue::Boolean(true);
    assert!(bool_val.as_array().is_none());
}

#[test]
fn value_test_object_accessor() {
    let pairs = vec![("id".to_string(), JsonValue::Number(bits(1.0)))];
    let obj_val = JsonValue::Object(pairs);

    // Success case
    assert!(obj_val.as_object().is_some());
    assert!(obj_val
        .as_object()
        .unwrap()
        .iter()
        .any(|(k, _)| k == "id"));

    // Failure case: A null is not an object
    let null_val = JsonValue::Null;
    assert!(null_val.as_object().is_none());
}

#[test]
fn value_test_array_get_index() {
    let array_val = JsonValue::Array(vec![
        JsonValue::String("first".to_string()),
        JsonValue::String("second".to_string()),
    ]);

    // Valid indexes
    assert_eq!(
        array_val.get_index(0).and_then(|v| v.as_str()),
        Some("first")
    );
    assert_eq!(
        array_val.get_index(1).and_then(|v| v.as_str()),
        Some("second")
    );

    // Out of bounds
    assert!(array_val.get_index(2).is_none());

    // Type mismatch: calling get_index on a Number
    let num_val = JsonValue::Number(bits(10.0));
    assert!(num_val.get_index(0).is_none());
}

#[test]
fn value_test_object_get() {
    let pairs = vec![("name".to_string(), JsonValue::String("Mike".to_string()))];
    let obj_val = JsonValue::Object(pairs);

    // Valid key
    let name = obj_val.get("name");
    assert!(name.is_some());
    assert_eq!(name.unwrap().as_str(), Some("Mike"));

    // Missing key
    assert!(obj_val.get("age").is_none());

    // Type mismatch: calling get on an Array
    let arr_val = JsonValue::Array(vec![]);
    assert!(arr_val.get("name").is_none());
}

#[test]
fn test_display_primitives() {
    assert_eq!(format_compact(&JsonValue::Null), "null");
    assert_eq!(format_compact(&JsonValue::Boolean(true)), "true");
    assert_eq!(format_compact(&JsonValue::Boolean(false)), "false");
    assert_eq!(format_compact(&JsonValue::Number(bits(42.0))), "42");
    assert_eq!(format_compact(&JsonValue::Number(bits(3.14))), "3.14");
    assert_eq!(
        format_compact(&JsonValue::String("hello".to_string())),
        "\"hello\""
    );
}

#[test]
fn test_display_array() {
    let value = JsonValue::Array(vec![
        JsonValue::Number(bits(1.0)),
        JsonValue::Number(bits(2.0)),
    ]);
    assert_eq!(format_compact(&value), "[1,2]");
}

#[test]
fn test_display_empty_containers() {
    assert_eq!(format_compact(&JsonValue::Array(vec![])), "[]");
    assert_eq!(format_compact(&JsonValue::Object(vec![])), "{}");
}

#[test]
fn test_display_escape_string() {
    let value = JsonValue::String("hello\nworld".to_string());
    assert_eq!(format_compact(&value), "\"hello\\nworld\"");
}

#[test]
fn test_display_escape_quotes() {
    let value = JsonValue::String("say \"hi\"".to_string());
    assert_eq!(format_compact(&value), "\"say \\\"hi\\\"\"");
}

#[test]
fn test_display_nested() {
    let value = parse_json(r#"{"arr": [1, 2]}"#).unwrap();
    let output = format_compact(&value);
    // Object key order may vary, so check components
    assert!(output.contains("\"arr\""));
    assert!(output.contains("[1,2]"));
}
