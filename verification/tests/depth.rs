use json_parse::cursor::{Parser, SourceChar};
use json_parse::parse::Context;
use json_parse::value::Value;

#[test]
fn deep_nesting_is_bounded_only_by_memory() {
    // an array nested 100000 levels deep parses without native recursion
    let depth = 100000;
    let mut chars: Vec<SourceChar> = Vec::with_capacity(2 * depth);
    for _ in 0..depth {
        chars.push(SourceChar { chr: '[', len: 1 });
    }
    for _ in 0..depth {
        chars.push(SourceChar { chr: ']', len: 1 });
    }
    let mut parser = Parser::new(chars, false);
    let result = Value::parse_in(&mut parser, Context::Root);
    match result {
        Ok((v, h)) => {
            assert!(matches!(v, Value::Array(_)));
            assert_eq!(parser.get_span(h), Some((0, 2 * depth)));
            // dropping the tree would recurse as deeply as the input nests;
            // the process exits right after, so leak it instead
            std::mem::forget(v);
        },
        Err(e) => panic!("deep input failed to parse: {:?}", e),
    }
}
