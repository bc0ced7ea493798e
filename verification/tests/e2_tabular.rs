//! Tables, read back by splitting lines on tabs.

use tokfold_core::encoder::e2_tabular::{emit_compact, render};
use tokfold_core::tape::{self, Tape};

fn tape_of(input: &str) -> Tape {
    tape::parse(input, 512).unwrap()
}

fn e2(input: &str) -> Option<String> {
    render(&tape_of(input), input)
}

fn compact(input: &str) -> String {
    let t = tape_of(input);
    let nodes = t.nodes();
    let mut out = String::new();
    emit_compact(nodes, input, &mut out, 0, nodes.len() - 1).unwrap();
    out
}

fn reconstruct(body: &str) -> String {
    let lines: Vec<&str> = body.split('\n').collect();
    let mut out = String::new();
    let mut idx = 0;
    while idx < lines.len() {
        let line = lines[idx];
        if let Some(header) = line.strip_prefix('#') {
            let fields: Vec<&str> = header.split('\t').collect();
            let count: usize = fields[0].parse().unwrap();
            let keys = &fields[1..];
            idx += 1;
            out.push('[');
            for r in 0..count {
                if r > 0 {
                    out.push(',');
                }
                let row: Vec<&str> = lines[idx].split('\t').collect();
                idx += 1;
                out.push('{');
                match row[0] {
                    "+" => {
                        for (ki, key) in keys.iter().enumerate() {
                            if ki > 0 {
                                out.push(',');
                            }
                            out.push_str(key);
                            out.push(':');
                            out.push_str(row[1 + ki]);
                        }
                    }
                    "*" => {
                        let m: usize = row[1].parse().unwrap();
                        for j in 0..m {
                            if j > 0 {
                                out.push(',');
                            }
                            out.push_str(row[2 + 2 * j]);
                            out.push(':');
                            out.push_str(row[3 + 2 * j]);
                        }
                    }
                    other => panic!("unexpected row marker {other:?}"),
                }
                out.push('}');
            }
            out.push(']');
        } else {
            out.push_str(line);
            idx += 1;
        }
    }
    out
}

fn assert_roundtrip(input: &str) -> String {
    let body = e2(input).expect("E2 should apply");
    assert_eq!(
        reconstruct(&body),
        compact(input),
        "reconstruction mismatch for {input:?}\nbody: {body:?}"
    );
    body
}

#[test]
fn homogeneous_array_compresses_and_reconstructs() {
    let input = r#"[{"id":1,"name":"a"},{"id":2,"name":"b"},{"id":3,"name":"c"}]"#;
    let body = assert_roundtrip(input);
    assert_eq!(body.matches("\"id\"").count(), 1);
    assert_eq!(body.matches("\"name\"").count(), 1);
    assert!(body.contains("#3\t\"id\"\t\"name\""), "body: {body:?}");
    assert_eq!(body.matches('+').count(), 3);
}

#[test]
fn heterogeneous_shapes_are_annotated_and_reconstruct() {
    let input = r#"[{"a":1,"b":2},{"a":3,"b":4},{"a":5,"c":6}]"#;
    let body = assert_roundtrip(input);
    assert!(body.contains("#3\t\"a\"\t\"b\""), "body: {body:?}");
    assert_eq!(body.matches('+').count(), 2, "two plain rows");
    assert_eq!(body.matches('*').count(), 1, "one deviating row");
    assert!(body.contains("*\t2\t\"a\"\t5\t\"c\"\t6"), "body: {body:?}");
}

#[test]
fn array_of_scalars_is_declined() {
    assert_eq!(e2("[1,2,3]"), None);
    assert_eq!(e2(r#"["a","b","c"]"#), None);
    assert_eq!(e2("[true,false,null]"), None);
}

#[test]
fn single_element_array_is_declined() {
    assert_eq!(e2(r#"[{"a":1}]"#), None);
}

#[test]
fn no_array_is_declined() {
    assert_eq!(e2(r#"{"a":1,"b":2}"#), None);
    assert_eq!(e2("42"), None);
    assert_eq!(e2(r#""just a string""#), None);
}

#[test]
fn all_distinct_shapes_are_declined() {
    let input = r#"[{"a":1},{"b":2},{"c":3}]"#;
    assert_eq!(e2(input), None);
}

#[test]
fn e2_tabular_number_lexemes_survive_verbatim() {
    let input = r#"[{"x":1.0,"y":1e3},{"x":2.5e10,"y":-0}]"#;
    let body = assert_roundtrip(input);
    assert!(body.contains("1.0"), "body: {body:?}");
    assert!(body.contains("1e3"), "body: {body:?}");
    assert!(body.contains("2.5e10"), "body: {body:?}");
    assert!(body.contains("-0"), "body: {body:?}");
    let big = "9".repeat(100);
    let input = format!(r#"[{{"n":{big}}},{{"n":{big}}}]"#);
    let body = assert_roundtrip(&input);
    assert!(body.contains(&big));
}

#[test]
fn duplicate_keys_inside_element_are_preserved() {
    let input = r#"[{"a":1,"a":2},{"a":3,"a":4}]"#;
    let body = assert_roundtrip(input);
    assert!(body.contains("#2\t\"a\"\t\"a\""), "body: {body:?}");

    let input = r#"[{"a":1},{"a":2},{"a":3,"a":4}]"#;
    let body = assert_roundtrip(input);
    assert!(body.contains("*\t2\t\"a\"\t3\t\"a\"\t4"), "body: {body:?}");
}

#[test]
fn determinism_render_twice_is_byte_identical() {
    let input = r#"[{"k":"v","n":1},{"k":"w","n":2},{"k":"x","n":3}]"#;
    let a = e2(input).unwrap();
    let b = e2(input).unwrap();
    assert_eq!(a, b);
}

#[test]
fn nested_array_of_objects_in_a_cell_stays_compact() {
    let input = r#"[{"a":1,"items":[{"x":1},{"x":2}]},{"a":2,"items":[{"x":3},{"x":4}]}]"#;
    let body = assert_roundtrip(input);
    assert_eq!(body.matches('#').count(), 1, "body: {body:?}");
    assert!(body.contains(r#"[{"x":1},{"x":2}]"#), "body: {body:?}");
}

#[test]
fn sibling_arrays_of_objects_are_both_tabularized() {
    let input = r#"[[{"a":1},{"a":2}],[{"b":3},{"b":4}]]"#;
    let body = assert_roundtrip(input);
    assert_eq!(body.matches('#').count(), 2, "body: {body:?}");
}

#[test]
fn array_of_objects_under_a_key_reconstructs() {
    let input = r#"{"results":[{"a":1},{"a":2}],"ok":true}"#;
    assert_roundtrip(input);
}

#[test]
fn container_values_in_rows_reconstruct() {
    let input = r#"[{"a":{"p":1},"b":[1,2]},{"a":{"p":2},"b":[3,4]}]"#;
    assert_roundtrip(input);
}
