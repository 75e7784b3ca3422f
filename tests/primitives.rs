use jsp::{
    Cursor, consume_char, consume_anychar, consume_prefix, jsp_consume_digit,
    jsp_consume_hexdigit, jsp_consume_four_hexdigits, jsp_consume_whitespace,
    jsp_consume_number, jsp_consume_string, Number,
};

#[test]
fn test_consume_char() {
    let name = "Balaji";
    let mut pk = Cursor::new(name);
    for c in name.chars() {
        assert_eq!(consume_char(&mut pk, c), Some(c));
    }
    let mut pk = Cursor::new(name);
    for c in "test".chars() {
        assert_eq!(consume_char(&mut pk, c), None);
    }
}

#[test]
fn test1_consume_prefix() {
    let name1 = "Balaji";
    let name2 = "Babai";

    let mut p1 = Cursor::new(name1);
    let mut p2 = Cursor::new(name2);
    for _i in 1..2 {
        let res = consume_prefix(&mut p1, &mut p2);
        assert!(res == 2);
    }
    assert!(p1.peek() == Some('l'));
    assert!(p2.peek() == Some('b'));
}

#[test]
fn test2_consume_prefix() {
    let mut p1 = Cursor::new("Balaji");
    let mut p2 = Cursor::new("Bal");
    let res = consume_prefix(&mut p1, &mut p2);
    assert!(res == 3);
    assert!(p1.peek() == Some('a'));
    assert!(p2.peek() == None);
}

#[test]
fn test3_consume_prefix() {
    let name = "Pragna";
    let mut p1 = Cursor::new(name);
    let mut p2 = Cursor::new(name);
    let res = consume_prefix(&mut p1, &mut p2);
    assert!(res == 6);
    assert!(p1.peek() == None);
    assert!(p2.peek() == None);
}

#[test]
fn test_jsp_consume_string() {
    let test_strs = vec![
        r#""""#,
        r#"":"", r#""\"""#,
        r#""\\""#,
        r#""\b\f\n\r\t ""#,
        r#""\uABCD""#,
    ];
    for s in test_strs {
        assert!(jsp_consume_string(&mut Cursor::new(s)).is_ok());
    }
}

#[test]
fn test_jsp_consume_digit() {
    let n = vec![0, 1, 2, 3];
    let mut p = Cursor::new("0123");

    for i in n {
        assert!(Some(i) == jsp_consume_digit(&mut p));
    }
}

#[test]
fn test_jsp_consume_number() {
    let x = vec!["0", "-0", "0.0", "-0.1", "1.0", "3.01e+2", "10E-2"];
    let y = vec![
        "00", "01", "--0", ".1", "-1.", "+3.01e+2", "0.0E--2", "0.6E++2", "0.1e+-2",
    ];
    for t in x {
        let y = jsp_consume_number(&mut Cursor::new(t));
        assert!(y != None);
    }
    for t in y {
        println!("test: {}", t);
        let z = jsp_consume_number(&mut Cursor::new(t));
        assert!(z == None);
    }
}

#[test]
fn number_classification() {
    for t in ["0", "-0"] {
        assert!(matches!(jsp_consume_number(&mut Cursor::new(t)), Some(Number::Int(0))));
    }
    for t in ["0.0", "-0.1", "1.0", "3.01e+2", "10E-2"] {
        assert_eq!(jsp_consume_number(&mut Cursor::new(t)), Some(Number::Float(t.to_string())));
    }
}

#[test]
fn number_int_limits() {
    assert_eq!(
        jsp_consume_number(&mut Cursor::new("9223372036854775807")),
        Some(Number::Int(i64::MAX))
    );
    assert_eq!(
        jsp_consume_number(&mut Cursor::new("-9223372036854775808")),
        Some(Number::Int(i64::MIN))
    );
    assert_eq!(jsp_consume_number(&mut Cursor::new("9223372036854775808")), None);
    assert_eq!(jsp_consume_number(&mut Cursor::new("-9223372036854775809")), None);
    assert_eq!(
        jsp_consume_number(&mut Cursor::new("99999999999999999999.5")),
        Some(Number::Float("99999999999999999999.5".to_string()))
    );
}

#[test]
fn number_stops_at_delimiter_and_restores_on_failure() {
    let mut p = Cursor::new("-12,");
    assert_eq!(jsp_consume_number(&mut p), Some(Number::Int(-12)));
    assert_eq!(p.position(), 3);
    let mut p = Cursor::new("1.e5");
    assert_eq!(jsp_consume_number(&mut p), None);
    assert_eq!(p.position(), 0);
}

#[test]
fn anychar_takes_first_match() {
    let mut p = Cursor::new("E5");
    assert_eq!(consume_anychar(&mut p, "eE"), Some('E'));
    assert_eq!(consume_anychar(&mut p, "eE"), None);
    assert_eq!(p.position(), 1);
}

#[test]
fn hex_digits() {
    let mut p = Cursor::new("aF9g");
    assert_eq!(jsp_consume_hexdigit(&mut p), Some(10));
    assert_eq!(jsp_consume_hexdigit(&mut p), Some(15));
    assert_eq!(jsp_consume_hexdigit(&mut p), Some(9));
    assert_eq!(jsp_consume_hexdigit(&mut p), None);
    let mut p = Cursor::new("00e9");
    assert_eq!(jsp_consume_four_hexdigits(&mut p), Some(0xe9));
    let mut p = Cursor::new("12x4");
    assert_eq!(jsp_consume_four_hexdigits(&mut p), None);
    assert_eq!(p.position(), 0);
}

#[test]
fn whitespace_run() {
    let mut p = Cursor::new(" \t\r\n\u{a0}x");
    assert_eq!(jsp_consume_whitespace(&mut p), 4);
    assert_eq!(p.peek(), Some('\u{a0}'));
}

#[test]
fn string_decoding() {
    let s = jsp_consume_string(&mut Cursor::new(r#""a\"\\\/\b\f\n\r\tz""#)).unwrap();
    assert_eq!(s, "a\"\\/\u{8}\u{c}\n\r\tz");
    let s = jsp_consume_string(&mut Cursor::new(r#""\uABCD""#)).unwrap();
    assert_eq!(s, "\u{ABCD}");
    let s = jsp_consume_string(&mut Cursor::new(r#""\uD83D\uDE00""#)).unwrap();
    assert_eq!(s, "\u{1F600}");
    let s = jsp_consume_string(&mut Cursor::new("\"a\u{7f}b\"")).unwrap();
    assert_eq!(s, "a\u{7f}b");
}
