use jsonfmt::ast::{Key, Pair, Value};
use jsonfmt::parser::Parser;

fn string(s: &str) -> Value {
    Value::String(String::from(s))
}

fn number(s: &str) -> Value {
    Value::Number(String::from(s))
}

fn key(s: &str) -> Key {
    Key(String::from(s))
}

fn parser(s: &str) -> Parser {
    Parser::new(s)
}

#[test]
fn test_parse_string() {
    let test = |input: &str, result: &str| {
        let mut p = parser(input);
        let v = p.parse_string_value().unwrap();
        assert_eq!(v, string(result));
    };
    test(r#""""#, ""); // ""
    test(r#""   ""#, "   "); // "   "
    test(r#""abc de f""#, "abc de f"); // "abc de f"
    test(r#""abc\nde f""#, "abc\\nde f"); // "abc\nde f"
}

#[test]
fn test_ng_parse_string() {
    let test = |input: &str| {
        let mut p = parser(input);
        assert!(p.parse_string_value().is_err());
    };
    test(r#"abc de f""#); // "abc de f""
    test(r#""abc de f"#); // ""abc de f"
}

#[test]
fn test_parse_number() {
    let test = |input: &str, result: &str| {
        let mut p = parser(input);
        let v = p.parse_number().unwrap();
        assert_eq!(v, number(result));
    };
    test("-123.45", "-123.45");
    test("-0", "-0");
    test(".123", ".123");
    test("-.123", "-.123");
    test("123.", "123.");
    test("000123", "000123");

    // malformed literals are captured as text, not rejected
    test("1.23.45", "1.23.45");
    test("-", "-");
    test("-.", "-.");
    test("123abc", "123");
}

fn test_object<F>(v: Value, f: F)
where
    F: Fn(Vec<Pair>),
{
    match v {
        Value::Object(pairs) => {
            f(pairs);
        }
        _ => unreachable!("not object"),
    }
}

#[test]
fn test_parse_empty_object() {
    let mut p = parser("{     }");
    let v: Value = p.parse_object().unwrap();
    test_object(v, |pairs: Vec<Pair>| {
        assert!(pairs.is_empty());
    });
}

#[test]
fn test_parse_object() {
    let mut p = parser(r#"{"a" : 123,      "bc"  :"xyz"   }"#);
    let v: Value = p.parse_object().unwrap();
    test_object(v, |pairs: Vec<Pair>| {
        let expected = vec![
            Pair::new(key("a"), number("123")),
            Pair::new(key("bc"), string("xyz")),
        ];
        assert_eq!(pairs, expected);
    });
}

#[test]
fn test_parse_nested_object() {
    let mut p = parser(r#"{"a": {"bc": 12345, "def": "xyz"}, "ijk": 0}"#);
    let v: Value = p.parse_object().unwrap();
    test_object(v, |pairs: Vec<Pair>| {
        let expected = vec![
            Pair::new(
                key("a"),
                Value::Object(vec![
                    Pair::new(key("bc"), number("12345")),
                    Pair::new(key("def"), string("xyz")),
                ]),
            ),
            Pair::new(key("ijk"), number("0")),
        ];
        assert_eq!(pairs, expected);
    });
}

#[test]
fn test_ng_parse_object() {
    let test = |input: &str| {
        let mut p = parser(input);
        assert!(p.parse_object().is_err());
    };
    test(r#"{ , }"#);
    test(r#"{"a": 123"#); // {"a":123
    test(r#""a":123}"#); // "a":123}
    test(r#"{"a":123  "bc":"xyz"}"#); // missing comma
    test(r#"{"a"  123}"#); // missing colon
}

fn test_array<F>(v: Value, f: F)
where
    F: Fn(Vec<Value>),
{
    match v {
        Value::Array(values) => {
            f(values);
        }
        _ => unreachable!("not array"),
    }
}

#[test]
fn test_parse_array() {
    let mut p = parser(r#"[1, 23, 456, "xyz"]"#);
    let v: Value = p.parse_array().unwrap();
    test_array(v, |values: Vec<Value>| {
        let expected: Vec<Value> = vec![number("1"), number("23"), number("456"), string("xyz")];
        assert_eq!(values, expected);
    });
}

#[test]
fn test_parse_nested_array() {
    let mut p = parser(r#"[1, [23, 456], "xyz"]"#);
    let v: Value = p.parse_array().unwrap();
    test_array(v, |values: Vec<Value>| {
        let expected: Vec<Value> = vec![
            number("1"),
            Value::Array(vec![number("23"), number("456")]),
            string("xyz"),
        ];
        assert_eq!(values, expected);
    });
}

#[test]
fn test_parse_combined_object_array() {
    let mut p = parser(r#"{"a": [{"id": 1, "text": "xxx"}, {"id": 2, "text": "yyy"}]}"#);
    let v: Value = p.parse_object().unwrap();
    test_object(v, |pairs: Vec<Pair>| {
        let expected: Vec<Pair> = vec![Pair::new(
            key("a"),
            Value::Array(vec![
                Value::Object(vec![
                    Pair::new(key("id"), number("1")),
                    Pair::new(key("text"), string("xxx")),
                ]),
                Value::Object(vec![
                    Pair::new(key("id"), number("2")),
                    Pair::new(key("text"), string("yyy")),
                ]),
            ]),
        )];
        assert_eq!(pairs, expected);
    });
}

#[test]
fn test_ng_parse_array() {
    let test = |input: &str| {
        let mut p = parser(input);
        assert!(p.parse_array().is_err());
    };
    test(r#"[ , ]"#);
    test(r#"["a""#); // ["a"
    test(r#"["a","#); // ["a",
    test(r#""a"]"#); // "a"]
    test(r#","a"]"#); // ,"a"]
    test(r#"["a"  123]"#); // missing comma
}

#[test]
fn test_error_line() {
    let test = |input: &str, line_number: usize| {
        let mut p = parser(input);
        match p.parse_object() {
            Err(e) => {
                assert_eq!(e.line_number, line_number);
            }
            _ => unreachable!(),
        }
    };

    // missing colon
    test(
        "{
\"a\": 123,
\"b\"  45
}",
        3,
    );

    // missing comma
    test(
        "{
\"a\": 123
\"b\": 45
}",
        3,
    );

    // missing close brace
    test(
        "{
\"a\": 123,
\"b\": 45
",
        4,
    );
}

#[test]
fn test_parse_value_number_looseness() {
    // "123abc" yields Number("123"), leaving the rest of the text unread
    let mut p = parser("123abc");
    let v = p.parse_value().unwrap();
    assert_eq!(v, number("123"));
}

#[test]
fn test_parse_value_dispatch() {
    let mut p = parser("  \"hi\"");
    assert_eq!(p.parse_value().unwrap(), string("hi"));
    let mut p = parser("  -4.5");
    assert_eq!(p.parse_value().unwrap(), number("-4.5"));
    let mut p = parser("x");
    let e = p.parse_value().unwrap_err();
    assert_eq!(e.message.as_str(), "invalid token: `x`");
    let mut p = parser("   ");
    let e = p.parse_value().unwrap_err();
    assert_eq!(e.message.as_str(), "no token found");
}

#[test]
fn test_parse_error_messages() {
    let mut p = parser(r#"{"a"  123}"#);
    let e = p.parse_object().unwrap_err();
    assert_eq!(e.message.as_str(), "expected: `:`, found: `1`");
    let mut p = parser(r#"{"a": 1 2}"#);
    let e = p.parse_object().unwrap_err();
    assert_eq!(e.message.as_str(), "expected: `,` or `}`, found: `2`");
    let mut p = parser(r#"["a" 1]"#);
    let e = p.parse_array().unwrap_err();
    assert_eq!(e.message.as_str(), "expected: `,` or `]`, found: 1");
    let mut p = parser(r#"["a""#);
    let e = p.parse_array().unwrap_err();
    assert_eq!(e.message.as_str(), "expected `,` or `]`");
    let mut p = parser(r#""abc"#);
    let e = p.parse_string_value().unwrap_err();
    assert_eq!(e.message.as_str(), "expected `\"`");
}

#[test]
fn test_parse_string_across_lines() {
    // line breaks are elided inside the character stream
    let mut p = parser("\"ab\ncd\"");
    assert_eq!(p.parse_string_value().unwrap(), string("abcd"));
    let mut p = parser("12\n34");
    assert_eq!(p.parse_number().unwrap(), number("1234"));
}

#[test]
fn test_parse_object_duplicate_keys() {
    // duplicate keys are kept as distinct pairs, in source order
    let mut p = parser(r#"{"a":1,"a":2}"#);
    let v = p.parse_object().unwrap();
    test_object(v, |pairs: Vec<Pair>| {
        let expected = vec![
            Pair::new(key("a"), number("1")),
            Pair::new(key("a"), number("2")),
        ];
        assert_eq!(pairs, expected);
    });
}
