use karya_json::DeserializeError;
use karya_json::JsonParser;
use karya_json::JsonValue;

fn parse(text: &str) -> Result<JsonValue, DeserializeError> {
    JsonParser::new(text.to_string()).parse()
}

#[test]
fn round_trip_reconstructs_the_tree() {
    let v = JsonValue::Arr(vec![
        JsonValue::Int(1),
        JsonValue::Int(-42),
        JsonValue::Str("xy".to_string()),
        JsonValue::Bool(true),
        JsonValue::Null,
        JsonValue::Arr(vec![JsonValue::Int(0)]),
    ]);
    let text = v.serialize();
    assert_eq!(text, r#"[1,-42,"xy",true,null,[0]]"#);
    let back = parse(&text).unwrap();
    assert_eq!(back, v);
}

#[test]
fn integer_and_float_literals_are_told_apart() {
    assert_eq!(parse("123").unwrap(), JsonValue::Int(123));
    match parse("123.456").unwrap() {
        JsonValue::Float(lit) => assert_eq!(lit.parse::<f64>().unwrap(), 123.456),
        _ => panic!("Expected JsonValue::Float"),
    }
    match parse("123e2").unwrap() {
        JsonValue::Float(lit) => assert_eq!(lit.parse::<f64>().unwrap(), 12300.0),
        _ => panic!("Expected JsonValue::Float"),
    }
    match parse("-123.456e-10").unwrap() {
        JsonValue::Float(lit) => assert_eq!(lit.parse::<f64>().unwrap(), -123.456e-10),
        _ => panic!("Expected JsonValue::Float"),
    }
}

#[test]
fn integer_overflow_falls_back_to_float() {
    assert_eq!(
        parse("9223372036854775807").unwrap(),
        JsonValue::Int(i64::MAX)
    );
    assert_eq!(
        parse("-9223372036854775808").unwrap(),
        JsonValue::Int(i64::MIN)
    );
    match parse("9223372036854775808").unwrap() {
        JsonValue::Float(lit) => assert_eq!(lit, "9223372036854775808"),
        _ => panic!("Expected the overflowing literal as a float"),
    }
    match parse("-9223372036854775809").unwrap() {
        JsonValue::Float(lit) => assert_eq!(lit, "-9223372036854775809"),
        _ => panic!("Expected the overflowing literal as a float"),
    }
}

#[test]
fn duplicate_keys_keep_the_last_value() {
    let v = parse(r#"{"a":1,"a":2}"#).unwrap();
    match v {
        JsonValue::Obj(entries) => {
            assert_eq!(entries.len(), 1);
            assert_eq!(entries[0].0, "a");
            assert_eq!(entries[0].1, JsonValue::Int(2));
        }
        _ => panic!("Expected JsonValue::Obj"),
    }
}

#[test]
fn escapes_are_decoded() {
    assert_eq!(
        parse("\"a\\nb\"").unwrap(),
        JsonValue::Str("a\nb".to_string())
    );
    assert_eq!(parse("\"\\u0041\"").unwrap(), JsonValue::Str("A".to_string()));
    assert_eq!(
        parse("\"\\u00e9\"").unwrap(),
        JsonValue::Str("\u{e9}".to_string())
    );
    assert_eq!(
        parse(r#""q:\" s:\\ t:\t""#).unwrap(),
        JsonValue::Str("q:\" s:\\ t:\t".to_string())
    );
}

#[test]
fn malformed_input_surfaces_invalid_json() {
    let cases = [
        "\"abc",          // unterminated string
        "[1, 2",          // unterminated array
        "{\"a\": 1",      // unterminated object
        "tru",            // invalid literal
        "\"\\q\"",        // invalid escape
        "1.",             // digits required after the point
        "1e",             // digits required after the exponent marker
        "true extra",     // trailing characters after a complete value
        "\"\\ud800\"",    // a lone surrogate escape is no scalar value
        "\"a\u{01}b\"",   // raw control character inside a string
        "[1 2]",          // missing separator
        "",               // empty input
    ];
    for text in cases {
        match parse(text) {
            Err(DeserializeError::InvalidJson(_)) => {}
            other => panic!("Expected InvalidJson for {:?}, got {:?}", text, other),
        }
    }
}

#[test]
fn whitespace_between_tokens_changes_nothing() {
    let spaced = parse(" { \"a\" : 1 } ").unwrap();
    let compact = parse("{\"a\":1}").unwrap();
    assert_eq!(spaced, compact);
}

#[test]
fn empty_containers_parse() {
    assert_eq!(parse("[]").unwrap(), JsonValue::Arr(vec![]));
    assert_eq!(parse("{}").unwrap(), JsonValue::Obj(vec![]));
}

#[test]
fn end_to_end_object_round_trip() {
    let v = parse(r#"{"id":1,"tags":["x","y"],"ok":true,"note":null}"#).unwrap();
    match &v {
        JsonValue::Obj(entries) => {
            assert_eq!(entries.len(), 4);
            assert_eq!(
                JsonValue::obj_entry_get(entries, &"id".to_string()),
                Some(&JsonValue::Int(1))
            );
            assert_eq!(
                JsonValue::obj_entry_get(entries, &"tags".to_string()),
                Some(&JsonValue::Arr(vec![
                    JsonValue::Str("x".to_string()),
                    JsonValue::Str("y".to_string()),
                ]))
            );
            assert_eq!(
                JsonValue::obj_entry_get(entries, &"ok".to_string()),
                Some(&JsonValue::Bool(true))
            );
            assert_eq!(
                JsonValue::obj_entry_get(entries, &"note".to_string()),
                Some(&JsonValue::Null)
            );
        }
        _ => panic!("Expected JsonValue::Obj"),
    }
    let text = v.serialize();
    let back = parse(&text).unwrap();
    assert_eq!(back, v);
}

#[test]
fn serializer_renders_compact_text() {
    assert_eq!(JsonValue::Int(-5).serialize(), "-5");
    assert_eq!(JsonValue::Int(0).serialize(), "0");
    assert_eq!(JsonValue::Bool(false).serialize(), "false");
    assert_eq!(JsonValue::Null.serialize(), "null");
    assert_eq!(JsonValue::Float("1.5e3".to_string()).serialize(), "1.5e3");
    assert_eq!(
        JsonValue::Str("a\"b\nc".to_string()).serialize(),
        "\"a\\\"b\\nc\""
    );
    let v = JsonValue::Obj(vec![
        ("k".to_string(), JsonValue::Arr(vec![])),
        ("m".to_string(), JsonValue::Int(7)),
    ]);
    assert_eq!(v.serialize(), r#"{"k":[],"m":7}"#);
}

#[test]
fn leading_zero_is_consumed_alone() {
    // The number grammar takes a single leading zero; the rest of the text
    // then counts as trailing characters.
    match parse("0123") {
        Err(DeserializeError::InvalidJson(_)) => {}
        other => panic!("Expected InvalidJson, got {:?}", other),
    }
    let mut parser = JsonParser::new("0123".to_string());
    assert_eq!(parser.parse_number().unwrap(), JsonValue::Int(0));
}

#[test]
fn nested_structures_parse() {
    let v = parse(r#"[[1,[2]],{"a":{"b":[true]}}]"#).unwrap();
    let expected = JsonValue::Arr(vec![
        JsonValue::Arr(vec![
            JsonValue::Int(1),
            JsonValue::Arr(vec![JsonValue::Int(2)]),
        ]),
        JsonValue::Obj(vec![(
            "a".to_string(),
            JsonValue::Obj(vec![("b".to_string(), JsonValue::Arr(vec![JsonValue::Bool(true)]))]),
        )]),
    ]);
    assert_eq!(v, expected);
}

#[test]
fn error_details_name_the_cause() {
    let cases = [
        ("true extra", "Unexpected trailing characters"),
        ("1.", "Expected digits after decimal point"),
        ("1e", "Expected digits in exponent"),
        ("-x", "Invalid number format"),
        ("\"abc", "Unterminated string"),
        ("\"\\q\"", "Invalid escape sequence: \\q"),
        ("\"a\tb\"", "Control characters are not allowed in strings"),
        ("\"\\ud800\"", "Invalid Unicode code point: 55296"),
        ("\"\\u00g1\"", "Invalid Unicode escape sequence: g"),
        ("\"\\u00", "Unexpected end of Unicode escape sequence"),
        ("{\"a\":1", "Unterminated object"),
        ("{\"a\":1 2}", "Expected ',' or '}', found '2'"),
        ("{a:1}", "Expected '\"', found 'a'"),
        ("{\"a\"1}", "Expected ':', found '1'"),
        ("[1,2", "Unterminated array"),
        ("[1 2]", "Expected ',' or ']', found '2'"),
        ("tru", "Expected 'e', found end of input"),
        ("falze", "Expected 's', found 'z'"),
        ("nil", "Expected 'u', found 'i'"),
        ("@", "Unexpected character: @"),
        ("", "Unexpected end of input"),
    ];
    for (text, detail) in cases {
        match parse(text) {
            Err(DeserializeError::InvalidJson(m)) => {
                assert_eq!(m, detail, "for input {:?}", text);
            }
            other => panic!("Expected InvalidJson for {:?}, got {:?}", text, other),
        }
    }
}
