//! Minified JSON and the canonical spelling of strings.

use tokfold_core::encoder::e1_minify::{
    canonical_escape, canonical_unicode, canonicalize, render,
};
use tokfold_core::tape;

fn mini(input: &str) -> String {
    let t = tape::parse(input, 512).unwrap();
    render(&t, input).unwrap()
}

#[test]
fn strips_inter_token_whitespace() {
    assert_eq!(
        mini("{ \"a\" : 1 , \"b\" : [ 2 , 3 ] }"),
        "{\"a\":1,\"b\":[2,3]}"
    );
    assert_eq!(mini("[\n  1,\n  2\n]"), "[1,2]");
}

#[test]
fn preserves_key_order() {
    assert_eq!(mini("{\"b\":1,\"a\":2}"), "{\"b\":1,\"a\":2}");
}

#[test]
fn preserves_duplicate_keys() {
    assert_eq!(mini("{\"a\":1,\"a\":2}"), "{\"a\":1,\"a\":2}");
}

#[test]
fn preserves_number_lexemes_byte_for_byte() {
    assert_eq!(
        mini("[1.0,1e3,1E3,-0,2.5e10,0.5]"),
        "[1.0,1e3,1E3,-0,2.5e10,0.5]"
    );
    let big = "9".repeat(60);
    assert_eq!(mini(&format!("[{big}]")), format!("[{big}]"));
}

#[test]
fn scalar_literals_survive() {
    assert_eq!(mini("[null,true,false]"), "[null,true,false]");
}

#[test]
fn canonicalizes_redundant_escapes() {
    assert_eq!(mini("\"a\\/b\""), "\"a/b\"");
    assert_eq!(mini("\"\\u0041\""), "\"A\"");
    assert_eq!(mini("\"\\u00e9\""), "\"\u{e9}\"");
    assert_eq!(mini("\"\\u0022\""), "\"\\\"\"");
    assert_eq!(mini("\"\\u005c\""), "\"\\\\\"");
}

#[test]
fn keeps_canonical_short_escapes() {
    assert_eq!(mini("\"a\\nb\\tc\""), "\"a\\nb\\tc\"");
}

#[test]
fn combines_surrogate_pairs_into_scalars() {
    assert_eq!(mini("\"\\uD83D\\uDE00\""), "\"\u{1F600}\"");
}

#[test]
fn lone_surrogates_pass_through_verbatim() {
    assert_eq!(mini("\"\\ud834\""), "\"\\ud834\"");
    assert_eq!(mini("\"\\uDEAD\""), "\"\\uDEAD\"");
    assert_eq!(mini("\"a\\udeadb\""), "\"a\\udeadb\"");
}

#[test]
fn control_chars_use_short_or_u_escapes() {
    assert_eq!(mini("\"\\u0000\""), "\"\\u0000\"");
    assert_eq!(mini("\"\\u0008\""), "\"\\b\"");
    assert_eq!(mini("\"\\u001f\""), "\"\\u001f\"");
}

#[test]
fn protected_strings_survive_verbatim() {
    let input = "{\"msg\":\"error[E0308] a\\/b\"}";
    assert_eq!(mini(input), "{\"msg\":\"error[E0308] a\\/b\"}");
}

#[test]
fn nested_and_empty_containers() {
    assert_eq!(mini("{ }"), "{}");
    assert_eq!(mini("[ ]"), "[]");
    assert_eq!(mini("{\"a\":{},\"b\":[]}"), "{\"a\":{},\"b\":[]}");
    assert_eq!(mini("[{\"a\":[1,{\"b\":2}]}]"), "[{\"a\":[1,{\"b\":2}]}]");
}

#[test]
fn top_level_scalar_and_string() {
    assert_eq!(mini("  42  "), "42");
    assert_eq!(mini("\"plain\""), "\"plain\"");
}

#[test]
fn literal_multi_byte_scalars_survive() {
    assert_eq!(mini("\"\u{e9}\""), "\"\u{e9}\"");
    assert_eq!(mini("\"\u{65e5}\""), "\"\u{65e5}\"");
    assert_eq!(mini("\"\u{1f600}\""), "\"\u{1f600}\"");
    assert_eq!(
        mini("{\"k\u{e9}y\":\"a\u{65e5}b\u{1f600}c\"}"),
        "{\"k\u{e9}y\":\"a\u{65e5}b\u{1f600}c\"}"
    );
}

#[test]
fn control_escapes_stop_at_the_space_boundary() {
    assert_eq!(mini("\"\\u001f\""), "\"\\u001f\"");
    assert_eq!(mini("\"\\u0020\""), "\" \"");
    assert_eq!(mini("\"\\u0021\""), "\"!\"");
}

#[test]
fn escaped_backslash_shields_the_following_text() {
    assert_eq!(mini("\"\\\\u0041\""), "\"\\\\u0041\"");
    assert_eq!(mini("\"\\\\/\""), "\"\\\\/\"");
}

#[test]
fn lone_surrogate_exempts_the_rest_of_the_string() {
    assert_eq!(mini("\"a\\/b\\udead\""), "\"a\\/b\\udead\"");
    assert_eq!(mini("\"\\u0041\\udead\""), "\"\\u0041\\udead\"");
}

#[test]
fn surrogate_pair_folds_at_a_nonzero_offset() {
    assert_eq!(mini("\"a\\uD83D\\uDE00b\""), "\"a\u{1f600}b\"");
}

#[test]
fn high_surrogate_followed_by_another_escape_is_not_a_pair() {
    assert_eq!(mini("\"\\uD83D\\ndc00\""), "\"\\uD83D\\ndc00\"");
    assert_eq!(mini("\"\\uD83Ddc00\""), "\"\\uD83Ddc00\"");
}

#[test]
fn canonicalize_copies_an_unexpected_lexeme_verbatim() {
    for lexeme in ["abc", "\"ab", "ab\"", "\"", "", "ab"] {
        let mut out = String::new();
        canonicalize(lexeme, &mut out);
        assert_eq!(out, lexeme, "lexeme {lexeme:?} must be copied verbatim");
    }
}

#[test]
fn each_short_escape_renders_its_own_canonical_form() {
    const CASES: [(&str, &str); 8] = [
        ("\\\"", "\\\""),
        ("\\\\", "\\\\"),
        ("\\/", "/"),
        ("\\b", "\\b"),
        ("\\f", "\\f"),
        ("\\n", "\\n"),
        ("\\r", "\\r"),
        ("\\t", "\\t"),
    ];
    for (input, expected) in CASES {
        let mut out = String::new();
        let next = canonical_escape(input, input.as_bytes(), 0, &mut out);
        assert_eq!(out, expected, "escape {input:?} renders wrong");
        assert_eq!(next, 2, "escape {input:?} must consume both bytes");
    }
}

#[test]
fn unknown_escape_keeps_the_backslash_and_resumes_at_the_next_byte() {
    let body = "x\\z";
    let mut out = String::new();
    let next = canonical_escape(body, body.as_bytes(), 1, &mut out);
    assert_eq!(out, "\\");
    assert_eq!(next, 2);

    let tail = "x\\";
    let mut out = String::new();
    let next = canonical_escape(tail, tail.as_bytes(), 1, &mut out);
    assert_eq!(out, "\\");
    assert_eq!(next, 2);
}

#[test]
fn truncated_unicode_escape_copies_the_prefix() {
    let body = "abc\\uZ";
    let mut out = String::new();
    let next = canonical_unicode(body, body.as_bytes(), 3, &mut out);
    assert_eq!(out, "\\u");
    assert_eq!(next, 5);
}

#[test]
fn unpaired_surrogate_escape_is_emitted_raw() {
    let body = "ab\\uDEAD";
    let mut out = String::new();
    let next = canonical_unicode(body, body.as_bytes(), 2, &mut out);
    assert_eq!(out, "\\uDEAD");
    assert_eq!(next, 8);
}
