//! Scenario tests: concrete inputs with pinned outcomes, covering the
//! round trip, formatting idempotence, position accuracy, escapes,
//! trailing commas, empty containers and input, malformed numbers, and
//! nesting.

use rust_json_parser::{
    escape_json_string, format_compact, format_indented, parse_json, tokenize, JsonError,
    JsonValue,
};

fn bits(x: f64) -> u64 {
    x.to_bits()
}

#[test]
fn round_trip_nested_value() {
    let v = JsonValue::Object(vec![
        ("name".to_string(), JsonValue::String("Alice".to_string())),
        (
            "scores".to_string(),
            JsonValue::Array(vec![
                JsonValue::Number(bits(1.0)),
                JsonValue::Number(bits(42.5)),
                JsonValue::Null,
                JsonValue::Boolean(false),
            ]),
        ),
        ("note".to_string(), JsonValue::String("a\n\"b\"\\c".to_string())),
    ]);
    let text = format_compact(&v);
    let back = parse_json(&text).unwrap();
    assert_eq!(back, v);
}

#[test]
fn round_trip_numbers() {
    for x in [0.0, -0.0, 1.0, -5.0, 3.14, 42.5, 1e10, 0.001, -2.5e-2, 1.5e300] {
        let v = JsonValue::Number(bits(x));
        let text = format_compact(&v);
        let back = parse_json(&text).unwrap();
        assert_eq!(back.as_f64(), Some(bits(x)), "round trip failed for {}", text);
    }
}

#[test]
fn format_idempotent() {
    let inputs = [
        r#"{"items":[1,2,3],"ok":true}"#,
        r#"[1,"two",null,{"k":0.5}]"#,
        "42.5",
        r#""say \"hi\"""#,
    ];
    for input in inputs {
        let once = format_compact(&parse_json(input).unwrap());
        let twice = format_compact(&parse_json(&once).unwrap());
        assert_eq!(twice, once, "formatting not idempotent for {}", input);
    }
}

#[test]
fn position_accuracy() {
    let result = tokenize("{ @ }");
    match result {
        Err(JsonError::UnexpectedToken { found, position, .. }) => {
            assert_eq!(found, "@");
            assert_eq!(position, 2);
        }
        other => panic!("expected UnexpectedToken, got {:?}", other),
    }
}

#[test]
fn escape_correctness() {
    let value = parse_json("\"\\u0048\\u0065\\u006c\\u006c\\u006f\"").unwrap();
    assert_eq!(value, JsonValue::String("Hello".to_string()));
}

#[test]
fn trailing_comma_rejection() {
    assert!(parse_json("[1, 2,]").is_err());
    assert!(parse_json(r#"{"a": 1,}"#).is_err());
}

#[test]
fn empty_containers() {
    let arr = parse_json("[]").unwrap();
    assert_eq!(arr, JsonValue::Array(vec![]));
    let obj = parse_json("{}").unwrap();
    assert_eq!(obj, JsonValue::Object(vec![]));
    assert_eq!(format_compact(&arr), "[]");
    assert_eq!(format_compact(&obj), "{}");
}

#[test]
fn malformed_number() {
    match tokenize("1.2.3") {
        Err(JsonError::InvalidNumber { value, position }) => {
            assert_eq!(value, "1.2.3");
            assert_eq!(position, 0);
        }
        other => panic!("expected InvalidNumber, got {:?}", other),
    }
}

#[test]
fn empty_input() {
    match parse_json("") {
        Err(JsonError::UnexpectedEndOfInput { expected, position }) => {
            assert_eq!(expected, "JSON value");
            assert_eq!(position, 0);
        }
        other => panic!("expected UnexpectedEndOfInput, got {:?}", other),
    }
}

#[test]
fn nested_structures() {
    let value = parse_json(r#"{"items":[1,2,3]}"#).unwrap();
    let items = value.get("items").expect("items key");
    let expected = JsonValue::Array(vec![
        JsonValue::Number(bits(1.0)),
        JsonValue::Number(bits(2.0)),
        JsonValue::Number(bits(3.0)),
    ]);
    assert_eq!(items, &expected);
}

#[test]
fn duplicate_keys_last_write_wins() {
    let value = parse_json(r#"{"a": 1, "a": 2}"#).unwrap();
    assert_eq!(value.get("a"), Some(&JsonValue::Number(bits(2.0))));
    assert_eq!(value.as_object().unwrap().len(), 1);
}

#[test]
fn unterminated_string_reports_opening_quote() {
    match tokenize(r#""hello"#) {
        Err(JsonError::UnexpectedEndOfInput { expected, position }) => {
            assert_eq!(expected, "\"");
            assert_eq!(position, 0);
        }
        other => panic!("expected UnexpectedEndOfInput, got {:?}", other),
    }
}

#[test]
fn invalid_escape_reports_backslash() {
    match tokenize(r#""ab\q""#) {
        Err(JsonError::InvalidEscape { character, position }) => {
            assert_eq!(character, 'q');
            assert_eq!(position, 3);
        }
        other => panic!("expected InvalidEscape, got {:?}", other),
    }
}

#[test]
fn invalid_unicode_reports_consumed_digits() {
    match tokenize(r#""\u00GG""#) {
        Err(JsonError::InvalidUnicode { sequence, position }) => {
            assert_eq!(sequence, "00GG");
            assert_eq!(position, 1);
        }
        other => panic!("expected InvalidUnicode, got {:?}", other),
    }
}

#[test]
fn message_templates() {
    let num_err = tokenize("1.2.3").unwrap_err();
    assert_eq!(num_err.message(), "Invalid number at position 0: value 1.2.3");
    let tok_err = tokenize("{ @ }").unwrap_err();
    assert_eq!(
        tok_err.message(),
        "Unexpected token at position 2: expected valid JSON value, found @"
    );
}

#[test]
fn escape_json_string_escapes() {
    assert_eq!(escape_json_string("a\nb"), "\"a\\nb\"");
    assert_eq!(escape_json_string("q\"w\\e\r\t"), "\"q\\\"w\\\\e\\r\\t\"");
    assert_eq!(escape_json_string(""), "\"\"");
}

#[test]
fn number_text_is_minimal() {
    assert_eq!(format_compact(&JsonValue::Number(bits(0.1))), "0.1");
    assert_eq!(format_compact(&JsonValue::Number(bits(1.0))), "1");
    assert_eq!(format_compact(&JsonValue::Number(bits(-5.0))), "-5");
    assert_eq!(format_compact(&JsonValue::Number(bits(0.0))), "0");
}

#[test]
fn indented_formatting() {
    let v = parse_json(r#"{"a": [1, 2]}"#).unwrap();
    let text = format_indented(&v, 2);
    assert_eq!(text, "{\n  \"a\": [\n    1,\n    2\n  ]\n}");
}

#[test]
fn indented_empty_containers_collapse() {
    assert_eq!(format_indented(&JsonValue::Array(vec![]), 4), "[]");
    assert_eq!(format_indented(&JsonValue::Object(vec![]), 4), "{}");
    let v = parse_json(r#"[[]]"#).unwrap();
    assert_eq!(format_indented(&v, 2), "[\n  []\n]");
}

#[test]
fn deep_nesting_round_trip() {
    let text = "[[[[[1]]]]]";
    let v = parse_json(text).unwrap();
    assert_eq!(format_compact(&v), text);
}
