use json_parse::cursor::{Error, Parser, SourceChar};
use json_parse::parse::Context;
use json_parse::value::{NumberBuf, Object, Value};

fn chars_of(input: &str) -> Vec<SourceChar> {
    input.chars().map(|c| SourceChar { chr: c, len: c.len_utf8() }).collect()
}

fn parse(input: &str) -> Result<(Value, usize), Error> {
    let mut parser = Parser::new(chars_of(input), false);
    Value::parse_in(&mut parser, Context::Root)
}

fn text(s: &str) -> Value {
    Value::Text(s.to_string())
}

fn number(s: &str) -> Value {
    Value::Number(NumberBuf(s.to_string()))
}

#[test]
fn parses_null() {
    assert_eq!(parse("null").unwrap().0, Value::Null);
}

#[test]
fn parses_booleans() {
    assert_eq!(parse("true").unwrap().0, Value::Boolean(true));
    assert_eq!(parse("false").unwrap().0, Value::Boolean(false));
}

#[test]
fn parses_numbers() {
    assert_eq!(parse("0").unwrap().0, number("0"));
    assert_eq!(parse("-12").unwrap().0, number("-12"));
    assert_eq!(parse("3.25").unwrap().0, number("3.25"));
    assert_eq!(parse("-1.5e+10").unwrap().0, number("-1.5e+10"));
    assert_eq!(parse("2E8").unwrap().0, number("2E8"));
}

#[test]
fn parses_strings_with_escapes() {
    assert_eq!(parse("\"abc\"").unwrap().0, text("abc"));
    assert_eq!(parse("\"a\\nb\\t\\\"c\\\\\"").unwrap().0, text("a\nb\t\"c\\"));
    assert_eq!(parse("\"\"").unwrap().0, text(""));
}

#[test]
fn empty_array_parses_to_zero_elements() {
    match parse("[]").unwrap().0 {
        Value::Array(a) => assert_eq!(a.len(), 0),
        other => panic!("expected an array, got {:?}", other),
    }
}

#[test]
fn empty_object_parses_to_zero_entries() {
    match parse("{}").unwrap().0 {
        Value::Object(o) => assert_eq!(o.entries.len(), 0),
        other => panic!("expected an object, got {:?}", other),
    }
}

#[test]
fn parses_nested_document() {
    let (v, _) = parse("{\"a\":[1,2,{\"b\":null}]}").unwrap();
    let mut inner = Object::new();
    inner.push("b".to_string(), Value::Null);
    let arr = Value::Array(vec![number("1"), number("2"), Value::Object(inner)]);
    let mut outer = Object::new();
    outer.push("a".to_string(), arr);
    assert_eq!(v, Value::Object(outer));
}

#[test]
fn surrounding_whitespace_is_skipped() {
    assert_eq!(parse(" \t\r\n1 \t\r\n").unwrap().0, number("1"));
}

#[test]
fn duplicate_keys_append_entries() {
    let (v, _) = parse("{\"k\":1,\"k\":2}").unwrap();
    match v {
        Value::Object(o) => {
            assert_eq!(o.entries.len(), 2);
            assert_eq!(o.entries[0], ("k".to_string(), number("1")));
            assert_eq!(o.entries[1], ("k".to_string(), number("2")));
        },
        other => panic!("expected an object, got {:?}", other),
    }
}

fn serialize(v: &Value) -> String {
    match v {
        Value::Null => "null".to_string(),
        Value::Boolean(true) => "true".to_string(),
        Value::Boolean(false) => "false".to_string(),
        Value::Number(n) => n.0.clone(),
        Value::Text(t) => {
            let mut out = String::new();
            out.push('"');
            for c in t.chars() {
                match c {
                    '"' => out.push_str("\\\""),
                    '\\' => out.push_str("\\\\"),
                    '\n' => out.push_str("\\n"),
                    '\r' => out.push_str("\\r"),
                    '\t' => out.push_str("\\t"),
                    '\u{0008}' => out.push_str("\\b"),
                    '\u{000C}' => out.push_str("\\f"),
                    other => out.push(other),
                }
            }
            out.push('"');
            out
        },
        Value::Array(a) => {
            let mut out = String::new();
            out.push('[');
            for (i, item) in a.iter().enumerate() {
                if i > 0 {
                    out.push(',');
                }
                out.push_str(&serialize(item));
            }
            out.push(']');
            out
        },
        Value::Object(o) => {
            let mut out = String::new();
            out.push('{');
            for (i, (k, item)) in o.entries.iter().enumerate() {
                if i > 0 {
                    out.push(',');
                }
                out.push_str(&serialize(&Value::Text(k.clone())));
                out.push(':');
                out.push_str(&serialize(item));
            }
            out.push('}');
            out
        },
    }
}

#[test]
fn round_trip_keeps_values_equal() {
    let inputs = [
        "null",
        "true",
        "-12.5e-3",
        "\"he\\\"llo\\n\"",
        "[]",
        "{}",
        "{\"a\":[1,2,{\"b\":null}]}",
        "[[\" x \",false],{\"\":0}]",
    ];
    for input in inputs {
        let (v1, _) = parse(input).unwrap();
        let rendered = serialize(&v1);
        let (v2, _) = parse(&rendered).unwrap();
        assert_eq!(v1, v2, "round trip changed the value of {}", input);
    }
}
