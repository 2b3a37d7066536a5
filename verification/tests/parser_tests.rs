use karya_json::JsonParser;
use karya_json::JsonValue;

#[test]
fn test_parse_string() {
    let mut parser = JsonParser::new(r#""Hello, World!""#.to_string());
    assert_eq!(parser.parse_string().unwrap(), "Hello, World!");
}

#[test]
fn test_parse_number() {
    // Integer parsing
    let mut parser = JsonParser::new("123".to_string());
    match parser.parse_number().unwrap() {
        JsonValue::Int(n) => assert_eq!(n, 123),
        _ => panic!("Expected JsonValue::Int"),
    }

    // Float parsing: the literal text is kept
    let mut parser = JsonParser::new("123.456".to_string());
    match parser.parse_number().unwrap() {
        JsonValue::Float(n) => assert_eq!(n.parse::<f64>().unwrap(), 123.456),
        _ => panic!("Expected JsonValue::Float"),
    }

    // Negative float with exponent
    let mut parser = JsonParser::new("-123.456e-10".to_string());
    match parser.parse_number().unwrap() {
        JsonValue::Float(n) => assert_eq!(n.parse::<f64>().unwrap(), -123.456e-10),
        _ => panic!("Expected JsonValue::Float"),
    }

    // Integer with exponent (must be a float)
    let mut parser = JsonParser::new("123e2".to_string());
    match parser.parse_number().unwrap() {
        JsonValue::Float(n) => assert_eq!(n.parse::<f64>().unwrap(), 12300f64),
        _ => panic!("Expected JsonValue::Float"),
    }
}

#[test]
fn test_parse_boolean() {
    let mut parser = JsonParser::new("true".to_string());
    assert_eq!(parser.parse_boolean().unwrap(), true);

    let mut parser = JsonParser::new("false".to_string());
    assert_eq!(parser.parse_boolean().unwrap(), false);
}

#[test]
fn test_parse_null() {
    let mut parser = JsonParser::new("null".to_string());
    assert!(parser.parse_null().is_ok());
}

#[test]
fn test_parse_array() {
    let mut parser = JsonParser::new("[1, 2, 3]".to_string());
    let array = parser.parse_array().unwrap();
    assert_eq!(array.len(), 3);
}

#[test]
fn test_parse_object() {
    let mut parser = JsonParser::new(r#"{"name": "John", "age": 30}"#.to_string());
    let object = parser.parse_object().unwrap();
    assert_eq!(object.len(), 2);
}

#[test]
fn test_complex_json() {
    let json = r#"
        {
            "name": "John Doe",
            "age": 30,
            "is_student": false,
            "grades": [85, 90, 92],
            "address": {
                "street": "123 Main St",
                "city": "Anytown"
            },
            "phone": null,
            "score": 98.6,
            "exp": 1.23e4
        }"#;

    let mut parser = JsonParser::new(json.to_string());
    let result = parser.parse();
    assert!(result.is_ok());

    // The parsed result holds correctly typed numbers.
    if let Ok(JsonValue::Obj(obj)) = result {
        // Integer
        if let Some(JsonValue::Int(age)) = JsonValue::obj_entry_get(&obj, &"age".to_string()) {
            assert_eq!(*age, 30);
        } else {
            panic!("Expected age to be an integer");
        }

        // Float
        if let Some(JsonValue::Float(score)) = JsonValue::obj_entry_get(&obj, &"score".to_string())
        {
            assert_eq!(score.parse::<f64>().unwrap(), 98.6);
        } else {
            panic!("Expected score to be a float");
        }

        // Exponent
        if let Some(JsonValue::Float(exp)) = JsonValue::obj_entry_get(&obj, &"exp".to_string()) {
            assert_eq!(exp.parse::<f64>().unwrap(), 12300.0);
        } else {
            panic!("Expected exp to be a float");
        }
    } else {
        panic!("Failed to parse complex JSON");
    }
}

#[test]
fn cursor_moves_forward() {
    let mut p = JsonParser::new("ab".to_string());
    assert_eq!(p.peek_char(), Some('a'));
    assert_eq!(p.next_char(), Some('a'));
    assert_eq!(p.peek_char(), Some('b'));
    assert_eq!(p.next_char(), Some('b'));
    assert_eq!(p.next_char(), None);
    assert_eq!(p.peek_char(), None);
}

#[test]
fn whitespace_skipping_stops_at_content() {
    let mut p = JsonParser::new(" \t\r\n\u{a0}x".to_string());
    p.skip_whitespace();
    assert_eq!(p.next_char(), Some('x'));
}

#[test]
fn expectations_consume_and_report() {
    let mut p = JsonParser::new("ab".to_string());
    assert!(p.expect_char('a').is_ok());
    assert!(p.expect_char('x').is_err());
    let mut q = JsonParser::new("nulx".to_string());
    assert!(q.expect_literal("null").is_err());
    let mut r = JsonParser::new("null".to_string());
    assert!(r.expect_literal("null").is_ok());
}

#[test]
fn unicode_escape_reads_four_hex_digits() {
    let mut p = JsonParser::new("0041".to_string());
    assert_eq!(p.parse_unicode_escape().unwrap(), 'A');
    let mut q = JsonParser::new("00".to_string());
    assert!(q.parse_unicode_escape().is_err());
    let mut r = JsonParser::new("00g1".to_string());
    assert!(r.parse_unicode_escape().is_err());
}
