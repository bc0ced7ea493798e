//! The parser: what the tape of a text holds, and where a text is refused.

use tokfold_core::error::CompressError;
use tokfold_core::tape::{parse, u32_max_as_usize, NodeKind, Span, Tape};

fn kinds(t: &Tape) -> Vec<NodeKind> {
    t.nodes().iter().map(|n| n.kind).collect()
}

fn lexeme(input: &str, span: Span) -> &str {
    input.get(span.start as usize..span.end as usize).unwrap()
}

fn assert_invalid(input: &str) {
    assert!(
        matches!(parse(input, 512), Err(CompressError::InvalidJson { .. })),
        "expected InvalidJson for {input:?}"
    );
}

fn assert_invalid_at(input: &str, offset: usize) {
    let result = parse(input, 512);
    assert!(
        matches!(&result, Err(CompressError::InvalidJson { byte_offset, .. }) if *byte_offset == offset),
        "expected InvalidJson at {offset} for {input:?}, got {result:?}"
    );
}

#[test]
fn empty_object() {
    let t = parse("{}", 512).unwrap();
    assert_eq!(
        kinds(&t),
        vec![NodeKind::ObjectStart { members: 0 }, NodeKind::ObjectEnd]
    );
    assert_eq!(t.len(), 2);
    assert!(!t.is_empty());
}

#[test]
fn empty_array() {
    let t = parse("[]", 512).unwrap();
    assert_eq!(
        kinds(&t),
        vec![NodeKind::ArrayStart { elements: 0 }, NodeKind::ArrayEnd]
    );
}

#[test]
fn nested_empties() {
    let t = parse("[{}]", 512).unwrap();
    assert_eq!(
        kinds(&t),
        vec![
            NodeKind::ArrayStart { elements: 1 },
            NodeKind::ObjectStart { members: 0 },
            NodeKind::ObjectEnd,
            NodeKind::ArrayEnd,
        ]
    );

    let t = parse("{\"a\":[]}", 512).unwrap();
    assert_eq!(
        kinds(&t),
        vec![
            NodeKind::ObjectStart { members: 1 },
            NodeKind::Key,
            NodeKind::ArrayStart { elements: 0 },
            NodeKind::ArrayEnd,
            NodeKind::ObjectEnd,
        ]
    );

    let t = parse("[[],[]]", 512).unwrap();
    assert_eq!(
        kinds(&t),
        vec![
            NodeKind::ArrayStart { elements: 2 },
            NodeKind::ArrayStart { elements: 0 },
            NodeKind::ArrayEnd,
            NodeKind::ArrayStart { elements: 0 },
            NodeKind::ArrayEnd,
            NodeKind::ArrayEnd,
        ]
    );
}

#[test]
fn container_node_spans_cover_exactly_their_bracket_byte() {
    let input = "[{}]";
    let t = parse(input, 512).unwrap();
    let spans: Vec<Span> = t.nodes().iter().map(|n| n.span).collect();
    assert_eq!(
        spans,
        vec![
            Span { start: 0, end: 1 },
            Span { start: 1, end: 2 },
            Span { start: 2, end: 3 },
            Span { start: 3, end: 4 },
        ]
    );
    let lexemes: Vec<&str> = t.nodes().iter().map(|n| lexeme(input, n.span)).collect();
    assert_eq!(lexemes, vec!["[", "{", "}", "]"]);
}

#[test]
fn container_spans_track_whitespace_offsets() {
    let input = "  [  ]  ";
    let t = parse(input, 512).unwrap();
    let spans: Vec<Span> = t.nodes().iter().map(|n| n.span).collect();
    assert_eq!(
        spans,
        vec![Span { start: 2, end: 3 }, Span { start: 5, end: 6 }]
    );
    assert_eq!(lexeme(input, spans[0]), "[");
    assert_eq!(lexeme(input, spans[1]), "]");
}

#[test]
fn array_element_count() {
    let t = parse("[1,2,3]", 512).unwrap();
    assert_eq!(t.nodes()[0].kind, NodeKind::ArrayStart { elements: 3 });
}

#[test]
fn object_member_count() {
    let t = parse("{\"a\":1,\"b\":2}", 512).unwrap();
    assert_eq!(t.nodes()[0].kind, NodeKind::ObjectStart { members: 2 });
}

#[test]
fn key_order_preserved() {
    let input = "{\"b\":1,\"a\":2}";
    let t = parse(input, 512).unwrap();
    let keys: Vec<&str> = t
        .nodes()
        .iter()
        .filter(|n| n.kind == NodeKind::Key)
        .map(|n| lexeme(input, n.span))
        .collect();
    assert_eq!(keys, vec!["\"b\"", "\"a\""]);
}

#[test]
fn duplicate_keys_preserved_in_order() {
    let input = "{\"a\":1,\"a\":2}";
    let t = parse(input, 512).unwrap();
    assert_eq!(t.nodes()[0].kind, NodeKind::ObjectStart { members: 2 });
    let keys: Vec<&str> = t
        .nodes()
        .iter()
        .filter(|n| n.kind == NodeKind::Key)
        .map(|n| lexeme(input, n.span))
        .collect();
    assert_eq!(keys, vec!["\"a\"", "\"a\""]);
    let numbers: Vec<&str> = t
        .nodes()
        .iter()
        .filter(|n| n.kind == NodeKind::Number)
        .map(|n| lexeme(input, n.span))
        .collect();
    assert_eq!(numbers, vec!["1", "2"]);
}

#[test]
fn duplicate_keys_at_nested_level() {
    let input = "{\"o\":{\"a\":1,\"a\":2}}";
    let t = parse(input, 512).unwrap();
    let keys: Vec<&str> = t
        .nodes()
        .iter()
        .filter(|n| n.kind == NodeKind::Key)
        .map(|n| lexeme(input, n.span))
        .collect();
    assert_eq!(keys, vec!["\"o\"", "\"a\"", "\"a\""]);
}

#[test]
fn tape_number_lexemes_survive_verbatim() {
    for raw in [
        "0",
        "-0",
        "1",
        "10",
        "1.0",
        "0.5",
        "-3.14",
        "1e3",
        "1E3",
        "1e+10",
        "1E-10",
        "2.5e10",
        "123456789012345678901234567890",
    ] {
        let t = parse(raw, 512).unwrap();
        assert_eq!(t.len(), 1, "unexpected node count for {raw}");
        assert_eq!(t.nodes()[0].kind, NodeKind::Number, "kind for {raw}");
        assert_eq!(lexeme(raw, t.nodes()[0].span), raw, "lexeme for {raw}");
    }
}

#[test]
fn hundred_digit_integer_survives() {
    let big = "9".repeat(100);
    let t = parse(&big, 512).unwrap();
    assert_eq!(t.nodes()[0].kind, NodeKind::Number);
    assert_eq!(lexeme(&big, t.nodes()[0].span), big.as_str());
}

#[test]
fn empty_string_value() {
    let t = parse("\"\"", 512).unwrap();
    assert_eq!(t.nodes()[0].kind, NodeKind::String);
    assert_eq!(t.nodes()[0].span, Span { start: 0, end: 2 });
}

#[test]
fn string_includes_quotes_in_span() {
    let input = "\"abc\"";
    let t = parse(input, 512).unwrap();
    assert_eq!(lexeme(input, t.nodes()[0].span), "\"abc\"");
}

#[test]
fn escaped_quote_in_string() {
    let input = "\"a\\\"b\"";
    let t = parse(input, 512).unwrap();
    assert_eq!(t.nodes()[0].kind, NodeKind::String);
    assert_eq!(lexeme(input, t.nodes()[0].span), input);
}

#[test]
fn unicode_string_and_escape() {
    let input = "\"héllo\"";
    let t = parse(input, 512).unwrap();
    assert_eq!(t.nodes()[0].kind, NodeKind::String);
    assert_eq!(lexeme(input, t.nodes()[0].span), input);

    let input = "\"\\u00e9\"";
    let t = parse(input, 512).unwrap();
    assert_eq!(t.nodes()[0].kind, NodeKind::String);
    assert_eq!(lexeme(input, t.nodes()[0].span), input);
}

#[test]
fn lone_surrogates_survive_as_raw_lexemes() {
    for input in [
        "\"\\ud834\"",
        "\"\\udc00\"",
        "\"\\ud834x\"",
        "\"a\\udeadb\"",
    ] {
        let t = parse(input, 512).unwrap();
        assert_eq!(t.nodes()[0].kind, NodeKind::String, "kind for {input}");
        assert_eq!(
            lexeme(input, t.nodes()[0].span),
            input,
            "lexeme for {input}"
        );
    }
}

#[test]
fn all_simple_escapes_accepted() {
    let input = "\"\\\"\\\\\\/\\b\\f\\n\\r\\t\"";
    let t = parse(input, 512).unwrap();
    assert_eq!(t.nodes()[0].kind, NodeKind::String);
}

#[test]
fn scalar_literals() {
    assert_eq!(kinds(&parse("null", 512).unwrap()), vec![NodeKind::Null]);
    assert_eq!(
        kinds(&parse("true", 512).unwrap()),
        vec![NodeKind::Bool(true)]
    );
    assert_eq!(
        kinds(&parse("false", 512).unwrap()),
        vec![NodeKind::Bool(false)]
    );
}

#[test]
fn tape_whitespace_is_ignored() {
    let t = parse("  { \"a\" : 1 , \"b\" : [ 2 ] }  ", 512).unwrap();
    assert_eq!(
        kinds(&t),
        vec![
            NodeKind::ObjectStart { members: 2 },
            NodeKind::Key,
            NodeKind::Number,
            NodeKind::Key,
            NodeKind::ArrayStart { elements: 1 },
            NodeKind::Number,
            NodeKind::ArrayEnd,
            NodeKind::ObjectEnd,
        ]
    );
}

#[test]
fn depth_field_reflects_nesting() {
    let t = parse("[[1]]", 512).unwrap();
    let nodes = t.nodes();
    assert_eq!(nodes[0].depth, 0);
    assert_eq!(nodes[1].depth, 1);
    assert_eq!(nodes[2].depth, 2);
    assert_eq!(nodes[3].depth, 1);
    assert_eq!(nodes[4].depth, 0);
}

#[test]
fn nesting_at_limit_is_accepted() {
    let depth = 64;
    let input = format!("{}{}", "[".repeat(depth), "]".repeat(depth));
    let t = parse(&input, depth).unwrap();
    assert_eq!(t.len(), depth * 2);
}

#[test]
fn nesting_one_past_limit_is_rejected() {
    let depth = 64;
    let input = format!("{}{}", "[".repeat(depth + 1), "]".repeat(depth + 1));
    let err = parse(&input, depth).unwrap_err();
    assert!(matches!(
        err,
        CompressError::DepthExceeded {
            depth: 65,
            limit: 64
        }
    ));
}

#[test]
fn deep_input_does_not_stack_overflow() {
    let input = "[".repeat(100_000);
    let err = parse(&input, 512).unwrap_err();
    assert!(matches!(err, CompressError::DepthExceeded { .. }));
}

#[test]
fn deep_valid_input_parses_iteratively() {
    let depth = 100_000;
    let input = format!("{}{}", "[".repeat(depth), "]".repeat(depth));
    let t = parse(&input, depth).unwrap();
    assert_eq!(t.len(), depth * 2);
    assert_eq!(t.nodes()[0].kind, NodeKind::ArrayStart { elements: 1 });
}

#[test]
fn rejects_nan_and_infinity() {
    assert_invalid("NaN");
    assert_invalid("Infinity");
    assert_invalid("-Infinity");
    assert_invalid("[NaN]");
    assert_invalid("[Infinity]");
}

#[test]
fn rejects_truncated_documents() {
    assert_invalid("");
    assert_invalid("   ");
    assert_invalid("{");
    assert_invalid("[");
    assert_invalid("{\"a\":");
    assert_invalid("{\"a\":1");
    assert_invalid("[1,");
    assert_invalid("[1");
    assert_invalid("\"abc");
    assert_invalid("tru");
    assert_invalid("nul");
    assert_invalid("{\"a\"");
}

#[test]
fn rejects_trailing_garbage() {
    assert_invalid_at("1 2", 2);
    assert_invalid_at("{} {}", 3);
    assert_invalid_at("[]x", 2);
    assert_invalid_at("null null", 5);
    assert_invalid_at("truefalse", 4);
}

#[test]
fn rejects_leading_zeros() {
    assert_invalid_at("01", 0);
    assert_invalid_at("-01", 1);
    assert_invalid("{\"a\":00}");
    assert_invalid("[012]");
}

#[test]
fn rejects_single_quoted_strings() {
    assert_invalid("'abc'");
    assert_invalid("{'a':1}");
    assert_invalid("['x']");
}

#[test]
fn rejects_unquoted_keys() {
    assert_invalid("{a:1}");
    assert_invalid("{ a : 1 }");
}

#[test]
fn rejects_trailing_commas() {
    assert_invalid("[1,]");
    assert_invalid("{\"a\":1,}");
    assert_invalid("[1,2,]");
    assert_invalid("[,]");
    assert_invalid("[,1]");
}

#[test]
fn rejects_unescaped_control_characters() {
    assert_invalid("\"a\u{01}b\"");
    assert_invalid("\"a\nb\"");
    assert_invalid("\"\t\"");
    assert_invalid("\"\u{00}\"");
}

#[test]
fn rejects_bad_escapes() {
    assert_invalid("\"\\x\"");
    assert_invalid("\"\\u12\"");
    assert_invalid("\"\\u12zz\"");
    assert_invalid("\"\\\"");
}

#[test]
fn rejects_bad_numbers() {
    assert_invalid("-");
    assert_invalid("1.");
    assert_invalid("1e");
    assert_invalid("1e+");
    assert_invalid(".5");
    assert_invalid("--1");
}

#[test]
fn rejects_missing_colon_and_value() {
    assert_invalid("{\"a\" 1}");
    assert_invalid("{\"a\":}");
    assert_invalid("{\"a\":,}");
}

#[test]
fn rejects_same_length_wrong_literals() {
    assert_invalid_at("nulx", 0);
    assert_invalid_at("trux", 0);
    assert_invalid_at("falsx", 0);
    assert_invalid_at("nxll", 0);
    assert_invalid_at("[nuxl]", 1);
    assert_invalid_at("{\"a\":truX}", 5);
}

#[test]
fn escape_error_offsets_are_exact() {
    assert_invalid_at("\"\\", 2);
    assert_invalid_at("\"\\x\"", 2);
    assert_invalid_at("\"a\\x\"", 3);
}

#[test]
fn unicode_escape_error_offsets_are_exact() {
    assert_invalid_at("\"\\uA", 4);
    assert_invalid_at("\"\\uAz\"", 4);
    assert_invalid_at("\"\\uABCz\"", 6);
    assert_invalid_at("\"\\uABC", 6);
}

#[test]
fn default_tape_is_empty_and_parsed_tapes_are_not() {
    let empty = Tape::default();
    assert!(empty.is_empty());
    assert_eq!(empty.len(), 0);
    assert!(empty.nodes().is_empty());

    assert!(!parse("null", 512).unwrap().is_empty());
    assert!(!parse("{}", 512).unwrap().is_empty());
}

#[test]
fn u32_max_as_usize_reports_the_input_size_limit() {
    assert_eq!(u32_max_as_usize(), 4_294_967_295_usize);
}
