use jsonfmt::formatter::Formatter;
use jsonfmt::parser::Parser;

fn format(text: &str) -> String {
    let mut p = Parser::new(text);
    let v = p.parse_value().unwrap();
    let mut f = Formatter::new();
    f.format(v)
}

#[test]
fn test_format_string() {
    let tests = vec![
        (r#""abc""#, r#""abc""#),
        (r#""  a bc   def""#, r#""  a bc   def""#),
    ];
    for (input, expected) in tests {
        assert_eq!(format(input), String::from(expected));
    }
}

#[test]
fn test_format_number() {
    let tests = vec![("123", "123"), ("-123.45", "-123.45")];
    for (input, expected) in tests {
        assert_eq!(format(input), String::from(expected));
    }
}

#[test]
fn test_format_object() {
    let tests = vec![
        ("{}", "{}"),
        ("{    }", "{}"),
        (
            r#"{"a":123}"#,
            "{
    \"a\": 123
}",
        ),
        (
            r#"{"a":123,"bc":45}"#,
            "{
    \"a\": 123,
    \"bc\": 45
}",
        ),
        (
            r#"{"a":123,"b":{"c":45,"d":6789}}"#,
            "{
    \"a\": 123,
    \"b\": {
        \"c\": 45,
        \"d\": 6789
    }
}",
        ),
        (
            r#"{"a": {}}"#,
            "{
    \"a\": {}
}",
        ),
        (
            r#"{"a": []}"#,
            "{
    \"a\": []
}",
        ),
    ];
    for (input, expected) in tests {
        assert_eq!(format(input), String::from(expected));
    }
}

#[test]
fn test_format_array() {
    let tests = vec![
        ("[]", "[]"),
        ("[    ]", "[]"),
        (
            "[123]",
            "[
    123
]",
        ),
        (
            "[1,23,4]",
            "[
    1,
    23,
    4
]",
        ),
        (
            r#"[{"a": 1}, {"b": 23}]"#,
            "[
    {
        \"a\": 1
    },
    {
        \"b\": 23
    }
]",
        ),
        (
            r#"[{"a": []}]"#,
            "[
    {
        \"a\": []
    }
]",
        ),
    ];
    for (input, expected) in tests {
        assert_eq!(format(input), String::from(expected));
    }
}

#[test]
fn test_format_nested_object() {
    // each nesting level indents by four more spaces
    let out = format(r#"{"a": {"bc": 12345, "def": "xyz"}, "ijk": 0}"#);
    let expected = "{
    \"a\": {
        \"bc\": 12345,
        \"def\": \"xyz\"
    },
    \"ijk\": 0
}";
    assert_eq!(out, String::from(expected));
}

#[test]
fn test_format_string_verbatim() {
    // no escape processing: backslashes and spaces pass through untouched
    let out = format(r#"["x\ny", "a  b"]"#);
    let expected = "[
    \"x\\ny\",
    \"a  b\"
]";
    assert_eq!(out, String::from(expected));
}
