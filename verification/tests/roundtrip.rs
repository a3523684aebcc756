use jsonfmt::format_text;
use jsonfmt::formatter::Formatter;
use jsonfmt::parser::Parser;

fn pipeline(text: &str) -> String {
    format_text(text).unwrap()
}

#[test]
fn test_round_trip_idempotent() {
    // formatting the tree parsed from formatted output is byte-identical
    let inputs = vec![
        r#"{"a": 123, "bc": "xyz"}"#,
        r#"{"a": {"bc": 12345, "def": "xyz"}, "ijk": 0}"#,
        r#"[{"a": 1}, {"b": 23}]"#,
        r#"[1, [23, 456], "xyz", {}, []]"#,
        "{}",
        "[]",
        r#""lonely""#,
        "-12.5",
        "-",
    ];
    for input in inputs {
        let once = pipeline(input);
        let twice = pipeline(once.as_str());
        assert_eq!(once, twice);
    }
}

#[test]
fn test_round_trip_preserves_structure() {
    // key order, element order and literal text survive a round trip
    let input = r#"{"b": 1, "a": 2, "b": "003.50", "list": [3, 2, 1]}"#;
    let expected = "{
    \"b\": 1,
    \"a\": 2,
    \"b\": \"003.50\",
    \"list\": [
        3,
        2,
        1
    ]
}";
    assert_eq!(pipeline(input), String::from(expected));
    assert_eq!(pipeline(expected), String::from(expected));
}

#[test]
fn test_empty_composites() {
    assert_eq!(pipeline("{}"), String::from("{}"));
    assert_eq!(pipeline("{ }"), String::from("{}"));
    assert_eq!(pipeline("{       }"), String::from("{}"));
    assert_eq!(pipeline("[]"), String::from("[]"));
    assert_eq!(pipeline("[ ]"), String::from("[]"));
    assert_eq!(pipeline("[       ]"), String::from("[]"));
}

#[test]
fn test_multiline_input() {
    let input = "{
    \"a\": 123,
    \"b\": [1, 2]
}";
    let expected = "{
    \"a\": 123,
    \"b\": [
        1,
        2
    ]
}";
    assert_eq!(pipeline(input), String::from(expected));
}

#[test]
fn test_leading_blank_lines_are_skipped() {
    // line boundaries are transparent: a document may open with blank lines
    assert_eq!(format_text("\n{}").unwrap().as_str(), "{}");
    assert_eq!(format_text("   {}").unwrap().as_str(), "{}");
    assert_eq!(format_text("\n\n  [1]").unwrap().as_str(), "[\n    1\n]");
    // an error after blank lines is reported on the line it sits on
    let e = format_text("\n\nx").unwrap_err();
    assert_eq!(e.line_number, 3);
    assert_eq!(e.message.as_str(), "invalid token: `x`");
}

#[test]
fn test_format_text_error_position() {
    let e = format_text("{\n\"a\": 123,\n\"b\"  45\n}").unwrap_err();
    assert_eq!(e.line_number, 3);
}

#[test]
fn test_parse_then_format_directly() {
    // the two components compose through the shared tree alone
    let mut p = Parser::new(r#"[0, 1]"#);
    let v = p.parse_value().unwrap();
    let mut f = Formatter::new();
    let out = f.format(v);
    assert_eq!(out.as_str(), "[\n    0,\n    1\n]");
}
