//! The rule table and what it protects.

use tokfold_core::encoder::{self, Encoder};
use tokfold_core::never_compress::{
    contains_ascii_case_insensitive, is_protected, rules, NeverCompressRule, LIST_VERSION,
};
use tokfold_core::tape;

fn minified(input: &str) -> String {
    let parsed = tape::parse(input, 512).unwrap();
    encoder::render(Encoder::E1Minify, &parsed, input).unwrap()
}

#[test]
fn each_class_matches_a_realistic_line() {
    let cases: &[(&str, &str)] = &[
        ("error[E0308]: mismatched types", "compiler"),
        ("HTTP/1.1 404 Not Found", "http-status"),
        ("open failed: EACCES", "errno"),
        ("thread 'main' panicked at src/main.rs:10:5", "panic"),
        ("Traceback (most recent call last):", "stack-trace"),
        ("bind: Permission denied", "denial"),
        ("access token unauthorized for this scope", "authz"),
        ("SSL certificate problem: unable to verify", "certificate"),
        ("warning: unused variable `x`", "warning"),
    ];
    for (line, expected_class) in cases {
        let hit = is_protected(line);
        assert!(hit.is_some(), "expected {line:?} to be protected");
        assert_eq!(
            hit.map(|r| r.class),
            Some(*expected_class),
            "wrong class for {line:?}"
        );
    }
}

#[test]
fn case_folding_matches_regardless_of_case() {
    assert!(is_protected("ACCESS DENIED").is_some());
    assert!(is_protected("Access Denied").is_some());
    assert!(is_protected("access denied").is_some());

    assert!(contains_ascii_case_insensitive("HELLO WORLD", "hello"));
    assert!(contains_ascii_case_insensitive("hello", "HELLO"));
    assert!(!contains_ascii_case_insensitive("abc", "abcd"));
    assert!(!contains_ascii_case_insensitive("", "x"));
    assert!(!contains_ascii_case_insensitive("é", "e"));
}

#[test]
fn substring_scan_covers_both_window_boundaries() {
    assert!(contains_ascii_case_insensitive("abcdef", "ABC"));
    assert!(contains_ascii_case_insensitive("abcdef", "DEF"));
    assert!(contains_ascii_case_insensitive("abc", "ABC"));
    assert!(!contains_ascii_case_insensitive("abc", "abcd"));
    assert!(!contains_ascii_case_insensitive("abcdef", "efg"));
    assert!(contains_ascii_case_insensitive("", ""));
    assert!(contains_ascii_case_insensitive("abc", ""));
}

#[test]
fn case_sensitive_rule_does_not_fold() {
    assert!(is_protected("open failed: EACCES").is_some());
    assert!(is_protected("open failed: eacces path").is_none());
}

#[test]
fn benign_line_is_not_protected() {
    assert!(is_protected("the quick brown fox jumps over the lazy dog").is_none());
    assert!(is_protected("{\"user\":\"alice\",\"count\":42}").is_none());
    assert!(is_protected("").is_none());
}

#[test]
fn first_rule_in_table_order_wins() {
    assert_eq!(
        is_protected("HTTP/1.1 401 Unauthorized").map(|r| r.class),
        Some("http-status")
    );
}

#[test]
fn matching_is_deterministic() {
    let line = "bind: Permission denied";
    let a = is_protected(line);
    let b = is_protected(line);
    assert_eq!(a, b);
    match (a, b) {
        (Some(ra), Some(rb)) => assert!(std::ptr::eq(ra, rb)),
        _ => panic!("expected {line:?} to match on both calls"),
    }
}

#[test]
fn list_version_is_pinned() {
    assert_eq!(LIST_VERSION, 1);
}

#[test]
fn no_rule_has_empty_fields() {
    for rule in rules() {
        let NeverCompressRule { class, literal, .. } = rule;
        assert!(!literal.is_empty(), "empty literal in class {class:?}");
        assert!(!class.is_empty(), "empty class for literal {literal:?}");
    }
}

#[test]
fn rules_exposes_the_populated_table() {
    let table = rules();
    assert!(!table.is_empty(), "the rule table must not be empty");

    let expected_counts: &[(&str, usize)] = &[
        ("compiler", 3),
        ("http-status", 15),
        ("errno", 3),
        ("panic", 2),
        ("stack-trace", 3),
        ("denial", 1),
        ("authz", 2),
        ("certificate", 10),
        ("warning", 1),
    ];
    for (class, count) in expected_counts {
        assert_eq!(
            table.iter().filter(|rule| rule.class == *class).count(),
            *count,
            "rule count changed for class {class:?}"
        );
    }
    assert_eq!(
        table.len(),
        expected_counts.iter().map(|&(_, n)| n).sum::<usize>(),
        "the table holds rules in a class this test does not know about"
    );

    let mut class_runs: Vec<&str> = table.iter().map(|rule| rule.class).collect();
    class_runs.dedup();
    assert_eq!(
        class_runs,
        [
            "compiler",
            "http-status",
            "errno",
            "panic",
            "stack-trace",
            "denial",
            "authz",
            "certificate",
            "warning",
        ]
    );

    for literal in [
        "error[",
        "404 Not Found",
        "EACCES",
        "panicked at",
        "stack backtrace:",
        "denied",
        "unauthorized",
        "x509: certificate",
        "warning:",
    ] {
        assert!(
            table.iter().any(|rule| rule.literal == literal),
            "literal {literal:?} is missing from the table"
        );
    }

    for rule in table {
        assert_eq!(
            rule.case_sensitive,
            rule.class == "errno",
            "case policy changed for literal {:?}",
            rule.literal
        );
    }
}

#[test]
fn every_exposed_literal_is_matched_by_the_same_table() {
    let table = rules();
    assert!(!table.is_empty(), "the rule table must not be empty");
    for rule in table {
        let hit = is_protected(rule.literal);
        assert!(
            hit.is_some(),
            "literal {:?} is in the table but matches nothing",
            rule.literal
        );
        let found = hit.unwrap();
        assert!(
            table.iter().any(|candidate| std::ptr::eq(candidate, found)),
            "matching {:?} returned a rule outside the exposed table",
            rule.literal
        );
    }
}

#[test]
fn protected_lexeme_is_copied_verbatim_by_e1() {
    let protected = "{\"m\":\"error[E0308] a\\/b\"}";
    let plain = "{\"m\":\"ok a\\/b\"}";

    assert!(is_protected("\"error[E0308] a\\/b\"").is_some());
    assert!(is_protected("\"ok a\\/b\"").is_none());

    let protected_out = minified(protected);
    assert!(
        protected_out.ends_with("{\"m\":\"error[E0308] a\\/b\"}"),
        "protected value was rewritten: {protected_out}"
    );

    let plain_out = minified(plain);
    assert!(
        plain_out.ends_with("{\"m\":\"ok a/b\"}"),
        "unprotected value was not canonicalized: {plain_out}"
    );
}
