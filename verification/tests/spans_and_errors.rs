use json_parse::cursor::{Error, Parser, SourceChar};
use json_parse::parse::{array, object, Context, Fragment};
use json_parse::value::Value;

fn chars_of(input: &str) -> Vec<SourceChar> {
    input.chars().map(|c| SourceChar { chr: c, len: c.len_utf8() }).collect()
}

fn parser_of(input: &str) -> Parser {
    Parser::new(chars_of(input), false)
}

fn all_spans(parser: &Parser) -> Vec<(usize, usize)> {
    let mut out = Vec::new();
    let mut h = 0;
    while h < parser.span_count() {
        if let Some(sp) = parser.get_span(h) {
            out.push(sp);
        }
        h += 1;
    }
    out
}

#[test]
fn empty_array_fragment_spans_its_delimiters() {
    let mut parser = parser_of("[ ]");
    let (v, h) = Value::parse_in(&mut parser, Context::Root).unwrap();
    match v {
        Value::Array(a) => assert_eq!(a.len(), 0),
        other => panic!("expected an array, got {:?}", other),
    }
    assert_eq!(parser.get_span(h), Some((0, 3)));
}

#[test]
fn empty_object_fragment_spans_its_delimiters() {
    let mut parser = parser_of("{ }");
    let (_, h) = Value::parse_in(&mut parser, Context::Root).unwrap();
    assert_eq!(parser.get_span(h), Some((0, 3)));
}

#[test]
fn nested_document_fragments_cover_exact_source_ranges() {
    let input = "{\"a\":[1,2,{\"b\":null}]}";
    let mut parser = parser_of(input);
    let (_, h) = Value::parse_in(&mut parser, Context::Root).unwrap();
    // the root fragment spans the entire input
    assert_eq!(parser.get_span(h), Some((0, input.len())));
    let spans = all_spans(&parser);
    // the entry for key "b" spans exactly `"b":null`
    assert!(spans.contains(&(11, 19)));
    // the entry for key "a" spans from the key through the array's end
    assert!(spans.contains(&(1, 21)));
    // the inner array spans `[1,2,{"b":null}]`
    assert!(spans.contains(&(5, 21)));
}

#[test]
fn closed_fragments_are_well_nested() {
    let input = "{\"a\":[1,2,{\"b\":null}],\"c\":[[],{}]}";
    let mut parser = parser_of(input);
    Value::parse_in(&mut parser, Context::Root).unwrap();
    let spans = all_spans(&parser);
    for (i, a) in spans.iter().enumerate() {
        for b in spans.iter().skip(i + 1) {
            let contains = (a.0 <= b.0 && b.1 <= a.1) || (b.0 <= a.0 && a.1 <= b.1);
            let disjoint = a.1 <= b.0 || b.1 <= a.0;
            assert!(contains || disjoint, "spans {:?} and {:?} overlap", a, b);
        }
    }
}

#[test]
fn multibyte_characters_use_byte_positions() {
    // the two-byte character inside the string shifts all later offsets
    let input = "[\"\u{00e9}\"]";
    let mut parser = parser_of(input);
    let (_, h) = Value::parse_in(&mut parser, Context::Root).unwrap();
    assert_eq!(parser.get_span(h), Some((0, 6)));
}

#[test]
fn trailing_comma_in_array_is_rejected_at_the_bracket() {
    let err = {
        let mut parser = parser_of("[1,]");
        Value::parse_in(&mut parser, Context::Root).unwrap_err()
    };
    assert_eq!(err, Error::Unexpected(3, Some(']')));
    assert_eq!(err.position(), 3);
}

#[test]
fn trailing_comma_in_object_is_rejected_at_the_brace() {
    let err = {
        let mut parser = parser_of("{\"a\":1,}");
        Value::parse_in(&mut parser, Context::Root).unwrap_err()
    };
    assert_eq!(err, Error::Unexpected(7, Some('}')));
}

#[test]
fn trailing_garbage_is_rejected_at_its_position() {
    let err = {
        let mut parser = parser_of("1 2");
        Value::parse_in(&mut parser, Context::Root).unwrap_err()
    };
    assert_eq!(err, Error::Unexpected(2, Some('2')));
}

#[test]
fn missing_colon_is_rejected() {
    let mut parser = parser_of("{\"a\" 1}");
    assert_eq!(
        Value::parse_in(&mut parser, Context::Root).unwrap_err(),
        Error::Unexpected(5, Some('1')),
    );
}

#[test]
fn unclosed_string_is_rejected() {
    let mut parser = parser_of("\"ab");
    assert_eq!(
        Value::parse_in(&mut parser, Context::Root).unwrap_err(),
        Error::Unexpected(3, None),
    );
}

#[test]
fn unknown_escape_is_rejected() {
    let mut parser = parser_of("\"a\\q\"");
    assert_eq!(
        Value::parse_in(&mut parser, Context::Root).unwrap_err(),
        Error::Unexpected(3, Some('q')),
    );
}

#[test]
fn malformed_number_is_rejected() {
    let mut parser = parser_of("1.x");
    assert_eq!(
        Value::parse_in(&mut parser, Context::Root).unwrap_err(),
        Error::Unexpected(2, Some('x')),
    );
}

#[test]
fn empty_input_is_rejected() {
    let mut parser = parser_of("   ");
    assert_eq!(
        Value::parse_in(&mut parser, Context::Root).unwrap_err(),
        Error::Unexpected(3, None),
    );
}

#[test]
fn decode_failure_is_propagated() {
    let mut parser = Parser::new(chars_of("tru"), true);
    assert_eq!(Value::parse_in(&mut parser, Context::Root).unwrap_err(), Error::Decode(3));
}

#[test]
fn decode_failure_after_root_value_is_propagated() {
    let mut parser = Parser::new(chars_of("true "), true);
    assert_eq!(Value::parse_in(&mut parser, Context::Root).unwrap_err(), Error::Decode(5));
}

#[test]
fn array_start_distinguishes_empty_and_pending() {
    let mut parser = parser_of("[ ]");
    let (sf, _) = array::StartFragment::parse_in(&mut parser, Context::Root).unwrap();
    assert_eq!(sf, array::StartFragment::Empty);

    let mut parser = parser_of("[1]");
    let (sf, _) = array::StartFragment::parse_in(&mut parser, Context::Root).unwrap();
    assert_eq!(sf, array::StartFragment::NonEmpty);
}

#[test]
fn array_continuation_recognizes_item_and_end() {
    let mut parser = parser_of("[1");
    let (_, h) = array::StartFragment::parse_in(&mut parser, Context::Root).unwrap();
    let _ = Fragment::parse_in(&mut parser, Context::Array).unwrap();
    // after the element, end of input is an unexpected token
    assert_eq!(
        array::ContinueFragment::parse_in(&mut parser, h).unwrap_err(),
        Error::Unexpected(2, None),
    );

    let mut parser = parser_of("[1,2]");
    let (_, h) = array::StartFragment::parse_in(&mut parser, Context::Root).unwrap();
    let _ = Fragment::parse_in(&mut parser, Context::Array).unwrap();
    assert_eq!(
        array::ContinueFragment::parse_in(&mut parser, h).unwrap(),
        array::ContinueFragment::Item,
    );
    let _ = Fragment::parse_in(&mut parser, Context::Array).unwrap();
    assert_eq!(
        array::ContinueFragment::parse_in(&mut parser, h).unwrap(),
        array::ContinueFragment::End,
    );
}

#[test]
fn object_start_reads_first_key() {
    let mut parser = parser_of("{ \"key\" : 1}");
    let (sf, _) = object::StartFragment::parse_in(&mut parser, Context::Root).unwrap();
    match sf {
        object::StartFragment::NonEmpty((key, _)) => assert_eq!(key, "key"),
        other => panic!("expected a pending first entry, got {:?}", other),
    }
}

#[test]
fn unifier_reports_unexpected_first_character() {
    let mut parser = parser_of("  @");
    assert_eq!(
        Fragment::parse_in(&mut parser, Context::Root).unwrap_err(),
        Error::Unexpected(2, Some('@')),
    );
}
