//! What the command line answers.

use tokfold_core::commands::{compress_reply, expand_reply, measure};
use tokfold_core::report::format_stats;
use tokfold_core::Profile;

const COMPRESSIBLE_JSON: &[u8] = br#"[{"id":0,"name":"item0","active":true},{"id":1,"name":"item1","active":true},{"id":2,"name":"item2","active":true},{"id":3,"name":"item3","active":true}]"#;

const WHITESPACE_JSON: &[u8] = br#"{
    "service"     : "gateway",
    "version"     : "1.4.2",
    "healthy"     : true,
    "replicas"    : 3,
    "endpoints"   : [
        "https://example.invalid/a",
        "https://example.invalid/b"
    ],
    "limits"      : {
        "cpu"     : "500m",
        "memory"  : "512Mi",
        "timeout" : 30
    },
    "labels"      : {
        "tier"    : "edge",
        "owner"   : "platform"
    }
}"#;

const SENTINEL_PREFIX: &[u8] = "\u{27E6}tkfd:v1:".as_bytes();

fn ratio(after: usize, before: usize) -> String {
    if before == 0 {
        format!("{:.4}", 1.0)
    } else {
        format!("{:.4}", after as f64 / before as f64)
    }
}

fn stats_report(profile: Profile, input: &[u8]) -> String {
    let stats = match measure(input, profile) {
        Ok(stats) => stats,
        Err(reply) => panic!("nothing to report on: {:?}", reply.messages),
    };
    format_stats(
        &stats,
        &ratio(stats.bytes_after, stats.bytes_before),
        &ratio(stats.est_tokens_after, stats.est_tokens_before),
    )
}

#[test]
fn compress_expand_round_trip_via_stdin_stdout() {
    let compressed = compress_reply(COMPRESSIBLE_JSON, Profile::Balanced, true);
    assert_eq!(compressed.exit_code, 0, "compress failed: {:?}", compressed.messages);
    assert!(
        compressed.output.starts_with(SENTINEL_PREFIX),
        "rendering did not open with the tkfd sentinel"
    );
    let archive = compressed.archive.unwrap();
    let expanded = expand_reply(&archive);
    assert_eq!(expanded.exit_code, 0, "expand failed: {:?}", expanded.messages);
    assert_eq!(
        expanded.output, COMPRESSIBLE_JSON,
        "round trip did not reproduce the original bytes"
    );
}

#[test]
fn expand_of_corrupted_archive_exits_3_and_emits_nothing() {
    let compressed = compress_reply(COMPRESSIBLE_JSON, Profile::Balanced, true);
    assert_eq!(compressed.exit_code, 0);
    let mut archive = compressed.archive.unwrap();
    let last = archive.last_mut().unwrap();
    *last ^= 0x01;
    let expanded = expand_reply(&archive);
    assert_eq!(expanded.exit_code, 3, "corrupt archive must exit 3");
    assert!(
        expanded.output.is_empty(),
        "a corrupt expand must never emit best-effort bytes"
    );
    assert_eq!(
        expanded.messages,
        ["tokfold: cannot expand archive: integrity checksum mismatch"]
    );
}

#[test]
fn compress_passes_invalid_json_through_and_succeeds() {
    let input = b"this is not json at all";
    let out = compress_reply(input, Profile::Balanced, false);
    assert_eq!(out.exit_code, 0, "compress must not gate on a compression failure");
    assert_eq!(out.output, input, "the original bytes must pass through unmodified");
    assert_eq!(out.messages.len(), 1, "a passthrough should be explained on stderr");
    assert!(out.messages[0]
        .starts_with("tokfold: passing input through uncompressed: invalid JSON at byte 0: "));
    assert!(out.archive.is_none());

    let out = compress_reply(input, Profile::Balanced, true);
    assert!(out.archive.is_none());
    assert_eq!(
        out.messages[1],
        "tokfold: no recovery archive written (compression did not run)"
    );
}

#[test]
fn stats_reports_the_expected_fields() {
    let report = stats_report(Profile::Balanced, COMPRESSIBLE_JSON);
    for label in [
        "bytes before:",
        "bytes after:",
        "byte ratio:",
        "est tokens before:",
        "est tokens after:",
        "token ratio:",
        "encoder:",
        "tokenizer:",
    ] {
        assert!(report.contains(label), "stats report missing {label:?}");
    }
}

#[test]
fn stats_rejects_invalid_json_with_exit_2() {
    match measure(b"not json", Profile::Balanced) {
        Ok(_) => panic!("stats must not report on an error"),
        Err(reply) => {
            assert_eq!(reply.exit_code, 2, "invalid input to stats is exit 2");
            assert!(reply.output.is_empty(), "stats must not emit a report on error");
            assert!(reply.messages[0].starts_with("tokfold: cannot compute stats: "));
        }
    }
}

#[test]
fn the_profile_flag_selects_the_encoder_the_report_names() {
    let conservative = stats_report(Profile::Conservative, COMPRESSIBLE_JSON);
    assert!(
        conservative.contains("passthrough (id 0)"),
        "conservative may not use the tabular encoder: {conservative}"
    );

    let balanced = stats_report(Profile::Balanced, COMPRESSIBLE_JSON);
    assert!(
        balanced.contains("e2-tabular (id 2)"),
        "balanced must let the tabular encoder compete: {balanced}"
    );

    let aggressive = stats_report(Profile::Aggressive, COMPRESSIBLE_JSON);
    assert_eq!(
        aggressive, balanced,
        "aggressive and balanced are identical in v0.0.1"
    );
}

#[test]
fn stats_names_the_minifier_when_it_wins() {
    let report = stats_report(Profile::Conservative, WHITESPACE_JSON);
    assert!(
        report.contains("e1-minify (id 1)"),
        "the minifier must win on whitespace-heavy JSON: {report}"
    );
}

#[test]
fn stats_names_the_default_tokenizer() {
    let report = stats_report(Profile::Balanced, COMPRESSIBLE_JSON);
    assert!(
        report.contains("heuristic (id 0)"),
        "the default estimator is the heuristic one, id 0: {report}"
    );
}

#[test]
fn the_report_is_aligned() {
    let report = stats_report(Profile::Balanced, b"{\"a\":1}");
    assert_eq!(
        report,
        "bytes before:       7\n\
         bytes after:        7\n\
         byte ratio:         1.0000\n\
         est tokens before:  7\n\
         est tokens after:   7\n\
         token ratio:        1.0000\n\
         encoder:            passthrough (id 0)\n\
         tokenizer:          heuristic (id 0)\n"
    );
}
