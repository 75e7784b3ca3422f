use jsp::{parse, Cursor, ErrorKind, JsonValue, jsp_consume_value, jsp_consume_array, jsp_consume_object};

fn s(t: &str) -> JsonValue {
    JsonValue::String(t.to_string())
}

#[test]
fn keywords() {
    assert_eq!(parse("null"), Ok(JsonValue::Null));
    assert_eq!(parse("true"), Ok(JsonValue::Bool(true)));
    assert_eq!(parse("false"), Ok(JsonValue::Bool(false)));
    assert_eq!(parse("nul"), Err(ErrorKind::InvalidNull));
    assert_eq!(parse("tru"), Err(ErrorKind::InvalidBool));
    assert_eq!(parse("fals e"), Err(ErrorKind::InvalidBool));
}

#[test]
fn numbers() {
    assert_eq!(parse("22"), Ok(JsonValue::Int(22)));
    match parse("0.2E+03") {
        Ok(JsonValue::Float(t)) => assert_eq!(t.parse::<f64>().unwrap(), 200.0),
        other => panic!("unexpected {:?}", other),
    }
    assert_eq!(parse(" -7 "), Ok(JsonValue::Int(-7)));
}

#[test]
fn invalid_numbers() {
    for t in ["00", "01", "--0", "-1.", "0.0E--2", "0.6E++2", "0.1e+-2", "1e", "99999999999999999999"] {
        assert_eq!(parse(t), Err(ErrorKind::InvalidNumber), "{}", t);
    }
    assert_eq!(parse(".1"), Err(ErrorKind::InvalidValue));
    assert_eq!(parse("+3.01e+2"), Err(ErrorKind::InvalidValue));
}

#[test]
fn valid_numbers() {
    for t in ["0", "-0"] {
        assert_eq!(parse(t), Ok(JsonValue::Int(0)));
    }
    for t in ["0.0", "-0.1", "1.0", "3.01e+2", "10E-2"] {
        assert_eq!(parse(t), Ok(JsonValue::Float(t.to_string())));
    }
}

#[test]
fn array_of_string_and_empties() {
    assert_eq!(
        parse("[\"Balaji\",[],{}]"),
        Ok(JsonValue::Array(vec![s("Balaji"), JsonValue::Array(vec![]), JsonValue::Object(vec![])]))
    );
}

#[test]
fn object_with_two_members() {
    assert_eq!(
        parse("{\"Name\":\"Balaji\",\"Age\":40}"),
        Ok(JsonValue::Object(vec![
            ("Name".to_string(), s("Balaji")),
            ("Age".to_string(), JsonValue::Int(40)),
        ]))
    );
}

#[test]
fn duplicate_key_last_wins() {
    assert_eq!(
        parse("{\"a\":1, \"b\":2, \"a\":3}"),
        Ok(JsonValue::Object(vec![
            ("a".to_string(), JsonValue::Int(3)),
            ("b".to_string(), JsonValue::Int(2)),
        ]))
    );
}

#[test]
fn strings() {
    assert_eq!(parse("\"\""), Ok(s("")));
    for e in ["\\\"", "\\\\", "\\/", "\\b", "\\f", "\\n", "\\r", "\\t"] {
        assert!(parse(&format!("\"{}\"", e)).is_ok(), "{}", e);
    }
    assert_eq!(parse("\"\\uABCD\""), Ok(s("\u{ABCD}")));
    assert_eq!(parse("\"\\uD83D\\uDE00\""), Ok(s("\u{1F600}")));
    assert_eq!(parse("\"\\uD83D\""), Err(ErrorKind::InvalidEscapeSequence));
    assert_eq!(parse("\"\\uD83Dx\""), Err(ErrorKind::InvalidEscapeSequence));
    assert_eq!(parse("\"\\uD83D\\u0041\""), Err(ErrorKind::InvalidEscapeSequence));
    assert_eq!(parse("\"\\uDE00\""), Err(ErrorKind::InvalidEscapeSequence));
    assert_eq!(parse("\"\\u12G4\""), Err(ErrorKind::InvalidEscapeSequence));
    assert_eq!(parse("\"\\x\""), Err(ErrorKind::InvalidEscapeSequence));
    assert_eq!(parse("\"a\tb\""), Err(ErrorKind::InvalidString));
    assert_eq!(parse("\"a\u{7f}b\""), Ok(s("a\u{7f}b")));
    assert_eq!(parse("\"abc"), Err(ErrorKind::InvalidString));
}

#[test]
fn tail_and_empty() {
    assert_eq!(parse("22 xyz"), Err(ErrorKind::HasTail));
    assert_eq!(parse(""), Err(ErrorKind::Empty));
    assert_eq!(parse("   "), Err(ErrorKind::Empty));
    assert_eq!(parse("?"), Err(ErrorKind::InvalidValue));
}

#[test]
fn container_errors() {
    assert_eq!(parse("[1,]"), Err(ErrorKind::InvalidArray));
    assert_eq!(parse("[1 2]"), Err(ErrorKind::MissingArrayEnd));
    assert_eq!(parse("[1"), Err(ErrorKind::MissingArrayEnd));
    assert_eq!(parse("[1,2"), Err(ErrorKind::MissingArrayEnd));
    assert_eq!(parse("[1, "), Err(ErrorKind::MissingArrayEnd));
    assert_eq!(parse("["), Err(ErrorKind::MissingArrayEnd));
    assert_eq!(parse("[ "), Err(ErrorKind::MissingArrayEnd));
    assert_eq!(parse("{\"a\":1,}"), Err(ErrorKind::InvalidObject));
    assert_eq!(parse("{\"a\" 1}"), Err(ErrorKind::MissingColon));
    assert_eq!(parse("{\"a\":1 \"b\":2}"), Err(ErrorKind::MissingObjectEnd));
    assert_eq!(parse("{1:2}"), Err(ErrorKind::NoPair));
    assert_eq!(parse("{\"a\":1"), Err(ErrorKind::MissingObjectEnd));
    assert_eq!(parse("{\"a\":1,"), Err(ErrorKind::MissingObjectEnd));
    assert_eq!(parse("{"), Err(ErrorKind::MissingObjectEnd));
    assert_eq!(parse("{\"a\""), Err(ErrorKind::MissingColon));
    assert_eq!(parse("{\"a\":"), Err(ErrorKind::Empty));
    assert_eq!(jsp_consume_array(&mut Cursor::new("{}")), Err(ErrorKind::MissingArrayStart));
    assert_eq!(jsp_consume_object(&mut Cursor::new("[]")), Err(ErrorKind::MissingObjectStart));
}

#[test]
fn failure_leaves_cursor_in_place() {
    let mut p = Cursor::new("  [1, 2,");
    assert_eq!(jsp_consume_value(&mut p), Err(ErrorKind::MissingArrayEnd));
    assert_eq!(p.position(), 0);
    let mut p = Cursor::new(" [ ] x");
    assert_eq!(jsp_consume_value(&mut p), Ok(JsonValue::Array(vec![])));
    assert_eq!(p.position(), 5);
}

#[test]
fn empty_containers_with_whitespace() {
    assert_eq!(parse("[ ]"), Ok(JsonValue::Array(vec![])));
    assert_eq!(parse("{ \n}"), Ok(JsonValue::Object(vec![])));
}

#[test]
fn deep_nesting() {
    let deep = format!("{}{}", "[".repeat(128), "]".repeat(128));
    assert!(parse(&deep).is_ok());
    let mixed = format!("{}1{}", "{\"k\":[".repeat(64), "]}".repeat(64));
    assert!(parse(&mixed).is_ok());
    let too_deep = format!("{}{}", "[".repeat(129), "]".repeat(129));
    assert_eq!(parse(&too_deep), Err(ErrorKind::TooDeep));
}

#[test]
fn render_forms() {
    let v = JsonValue::Object(vec![
        ("k".to_string(), JsonValue::Array(vec![JsonValue::Int(-5), JsonValue::Null, JsonValue::Bool(true)])),
        ("q\"\n".to_string(), JsonValue::Float("1.5e3".to_string())),
    ]);
    assert_eq!(v.render(), "{\"k\":[-5,null,true],\"q\\\"\\u000a\":1.5e3}");
    assert_eq!(JsonValue::Int(i64::MIN).render(), "-9223372036854775808");
    assert_eq!(JsonValue::Int(0).render(), "0");
}

#[test]
fn round_trip() {
    let texts = [
        "{\"Name\":\"Balaji\",\"Age\":40}",
        "[\"a\\\\b\\\"c\\n\",[],{},-0.5e-3,0,-9223372036854775808,true,false,null]",
        " { \"x\" : [ 1 , { \"y\" : \"\\uD83D\\uDE00\\u0001\" } ] } ",
    ];
    for t in texts {
        let v = parse(t).unwrap();
        assert_eq!(parse(&v.render()), Ok(v));
    }
}
