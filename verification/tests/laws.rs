//! The library's laws on concrete values.

use std::sync::Arc;
use tokfold_core::encoder::{framed, render, select, Encoder};
use tokfold_core::encoder::e2_tabular::emit_compact;
use tokfold_core::estimator::exact::{can_count, O200K_LETTER_LIMIT, RUN_LIMIT};
use tokfold_core::estimator::{
    alphanumeric_run_tokens, non_ascii_run_tokens, whitespace_run_tokens,
};
use tokfold_core::format::{read_uleb128, sha256, write_uleb128, Flags, Header};
use tokfold_core::tape::parse;
use tokfold_core::{
    ByteLenEstimator, CheckedEstimator, Compressor, Config, DecompressError, EncoderId,
    HeuristicEstimator, O200kEstimator, Profile, TokenEstimator,
};

fn minified(input: &str) -> String {
    let tape = parse(input, 512).unwrap();
    let rendering = render(Encoder::E1Minify, &tape, input).unwrap();
    rendering.split_once('\n').unwrap().1.to_string()
}

fn tabulated(input: &str) -> Option<String> {
    let tape = parse(input, 512).unwrap();
    render(Encoder::E2Tabular, &tape, input)
}

#[test]
fn run_costs_are_exact() {
    assert_eq!(
        [0, 1, 3, 4, 7, 8, 37, 38].map(alphanumeric_run_tokens),
        [0, 1, 1, 2, 2, 3, 10, 11]
    );
    assert_eq!([0, 1, 2, 9].map(whitespace_run_tokens), [0, 0, 1, 1]);
    assert_eq!([0, 1, 2, 3, 4].map(non_ascii_run_tokens), [0, 1, 1, 2, 2]);
}

#[test]
fn the_heuristic_adds_up_its_runs() {
    for (text, tokens) in [
        ("hello world", 4),
        ("a b", 2),
        ("a  b", 3),
        ("{\"id\":1}", 7),
        ("\u{e9}\u{e9}", 2),
        ("\t\r\n\u{c} ", 1),
        ("\u{b}\u{b}", 2),
        ("x\u{1f600}y", 4),
    ] {
        assert_eq!(HeuristicEstimator.estimate(text), tokens, "{text:?}");
        assert!(tokens <= text.len());
    }
}

#[test]
fn a_sentinel_costs_ten_or_eleven_tokens() {
    for (body, cost) in [("", 10), ("x", 10), (" x", 11), ("  x", 10), (" ", 11), ("\t", 11)] {
        let rendering = framed(Encoder::Passthrough, body);
        assert_eq!(rendering.len(), body.len() + 18);
        assert_eq!(
            HeuristicEstimator.estimate(&rendering),
            HeuristicEstimator.estimate(body) + cost,
            "{body:?}"
        );
    }
}

#[test]
fn frames_of_different_encoders_differ() {
    let body = "[1,2]";
    let all = [Encoder::Passthrough, Encoder::E1Minify, Encoder::E2Tabular];
    assert_eq!(
        all.map(|enc| framed(enc, body)),
        [
            "\u{27E6}tkfd:v1:raw\u{27E7}\n[1,2]",
            "\u{27E6}tkfd:v1:min\u{27E7}\n[1,2]",
            "\u{27E6}tkfd:v1:tbl\u{27E7}\n[1,2]",
        ]
    );
}

#[test]
fn strings_that_say_the_same_are_minified_alike() {
    for (a, b) in [
        ("[\"\\u0041\\/\"]", "[ \"A/\" ]"),
        ("[\"\\u0008\\u000A\"]", "[\"\\b\\n\"]"),
        ("[\"\\u000B\"]", "[\"\\u000b\"]"),
        ("[\"\\uD83D\\uDE00\"]", "[\"\u{1f600}\"]"),
        ("{\"\\u00e9\":\"\\u0022\"}", "{\"\u{e9}\":\"\\\"\"}"),
    ] {
        assert_eq!(minified(a), minified(b));
    }
}

#[test]
fn protected_and_unpaired_strings_keep_their_spelling() {
    for text in ["[\"warning: a\\/b\"]", "[\"\\uD834 a\\/b\"]"] {
        assert_eq!(minified(text), text);
    }
}

#[test]
fn minifying_never_lengthens() {
    for text in ["[]", " [ ] ", "{\"a\" : [ 1 , \"\\u0041\" ] }", "\"\\u001F\\u007f\""] {
        assert!(minified(text).len() <= text.len(), "{text:?}");
        assert_eq!(minified(&minified(text)), minified(text));
    }
}

#[test]
fn tables_hoist_the_first_of_the_most_frequent_shapes() {
    let body = tabulated("[{\"a\":1},{\"b\":2},{\"b\":3},{\"a\":4}]").unwrap();
    assert_eq!(
        body,
        "\u{27E6}tkfd:v1:tbl\u{27E7}\n\n#4\t\"a\"\n+\t1\n*\t1\t\"b\"\t2\n*\t1\t\"b\"\t3\n+\t4\n"
    );
    let body = tabulated("[{\"a\":1},{\"b\":2},{\"b\":3}]").unwrap();
    assert_eq!(
        body,
        "\u{27E6}tkfd:v1:tbl\u{27E7}\n\n#3\t\"b\"\n*\t1\t\"a\"\t1\n+\t2\n+\t3\n"
    );
    assert_eq!(tabulated("[{},{}]"), None);
    let input = "[{},{},{\"a\":1}]";
    assert_eq!(tabulated(input), None);
}

#[test]
fn a_rendering_is_at_most_three_times_the_input_and_a_sentinel() {
    for input in [
        "[{\"\":1},{\"\":2}]",
        "[{},{\"\":0},{\"\":0}]",
        "{\"k\":[{\"a\":1},{\"a\":2}]}",
    ] {
        let rendering = tabulated(input).unwrap();
        assert!(rendering.len() <= 3 * input.len() + 18, "{rendering:?}");
    }
}

#[test]
fn a_listed_passthrough_is_no_candidate() {
    let input = "{\n    \"alpha\": 1\n}";
    let tape = parse(input, 512).unwrap();
    let enabled = [Encoder::Passthrough, Encoder::E1Minify, Encoder::E1Minify];
    let selection = select(&tape, input, &HeuristicEstimator, &enabled, 0);
    assert_eq!(selection.encoder, Encoder::Passthrough);
    assert_eq!(selection.est_tokens_after, selection.est_tokens_before);
    let selection = select(&tape, input, &ByteLenEstimator, &[], 0);
    assert_eq!(selection.encoder, Encoder::Passthrough);
    assert_eq!(selection.est_tokens_before, input.len());
}

#[test]
fn an_archive_is_the_header_and_the_input() {
    let input = "{\"a\":[1,2,3]}";
    for profile in [Profile::Conservative, Profile::Balanced, Profile::Aggressive] {
        let config = Config::builder().profile(profile).min_saving_bps(10_000).build();
        let artifact = Compressor::new(config.clone()).compress(input.as_bytes()).unwrap();
        let mut archive = Vec::new();
        Header::new(0, 0, Flags::default(), 13, sha256(input.as_bytes())).encode_into(&mut archive);
        archive.extend_from_slice(input.as_bytes());
        assert_eq!(artifact.archive, archive);
        assert_eq!(&artifact.archive[..11], b"TKFD\x01\0\0\0\0\0\x0D");
        assert_eq!(artifact.stats.encoder, EncoderId::passthrough());
        assert_eq!(artifact.stats.min_saving_bps, 10_000);
        assert_eq!(
            Compressor::new(config).decompress(&archive).unwrap(),
            input.as_bytes()
        );
    }
}

#[test]
fn whitespace_between_lexemes_leaves_the_tape_as_it_is() {
    let a = "{\"a b\":[1,-2.5e3,\"x\\\" y\"],\"c\":{},\"d\":null}";
    let b = "\r\n { \"a b\"\t:[ 1 ,-2.5e3\n,\"x\\\" y\" ] , \"c\" : { } ,\"d\":null }\t";
    let (ta, tb) = (parse(a, 2).unwrap(), parse(b, 2).unwrap());
    assert_eq!(ta.len(), tb.len());
    for (na, nb) in ta.nodes().iter().zip(tb.nodes()) {
        assert_eq!((na.kind, na.depth), (nb.kind, nb.depth));
        assert_eq!(
            &a[na.span.start as usize..na.span.end as usize],
            &b[nb.span.start as usize..nb.span.end as usize]
        );
    }
    assert!(parse(a, 1).is_err() && parse(b, 1).is_err());
    assert!(parse("12", 1).is_ok() && parse("1 2", 1).is_err());
}

#[test]
fn joining_texts_costs_at_most_one_token_more_or_less() {
    for (a, b, change) in [
        ("hello ", " world", 1),
        ("a  ", "  b", -1),
        ("w", "o", -1),
        ("wor", "ld", 0),
        ("{", "}", 0),
        ("\u{e9}", "\u{e9}", 0),
        ("x", " y", 0),
    ] {
        let joined = HeuristicEstimator.estimate(&format!("{a}{b}")) as i64;
        let apart = (HeuristicEstimator.estimate(a) + HeuristicEstimator.estimate(b)) as i64;
        assert_eq!(joined - apart, change, "{a:?} {b:?}");
    }
}

#[test]
fn long_runs_are_not_given_to_a_tokenizer() {
    let cl100k = |text: &str| can_count(text, RUN_LIMIT);
    let o200k = |text: &str| can_count(text, O200K_LETTER_LIMIT);
    assert!(cl100k("") && o200k(""));
    for unit in ["a", "\u{4e2d}", "Z"] {
        let letters = unit.repeat(O200K_LETTER_LIMIT - 1);
        assert!(o200k(&letters) && cl100k(&letters), "{unit:?}");
        let letters = unit.repeat(O200K_LETTER_LIMIT);
        assert!(!o200k(&letters) && cl100k(&letters), "{unit:?}");
        assert!(!cl100k(&unit.repeat(RUN_LIMIT)), "{unit:?}");
    }
    for unit in ["!", " ", "\n", "/\n", "\u{301}"] {
        let n = unit.chars().count();
        assert!(!cl100k(&unit.repeat(RUN_LIMIT / n)), "{unit:?}");
        assert!(!o200k(&unit.repeat(RUN_LIMIT / n)), "{unit:?}");
    }
    for unit in ["7", "c0ffee", "word, ", "\u{4e2d}\u{6587}\u{ff0c}", "\u{1f600}\u{430}"] {
        let text = unit.repeat(2 * RUN_LIMIT);
        assert!(cl100k(&text) && o200k(&text), "{unit:?}");
    }
    let run = "a".repeat(O200K_LETTER_LIMIT - 2);
    assert!(o200k(&format!("{run} {run} {run}")));
    assert!(!o200k(&format!("{run}aa {run}")));
}

#[test]
fn an_input_that_cannot_be_rated_is_not_compressed() {
    let exact = Compressor::new(
        Config::builder()
            .estimator(Arc::new(O200kEstimator::new().unwrap()))
            .build(),
    );
    let long = format!("\"{}\"", "A".repeat(O200K_LETTER_LIMIT));
    assert!(exact.compress_checked(long.as_bytes()).is_none());
    let short = "{\n  \"a\": [1, 2]\n}";
    let checked = exact.compress_checked(short.as_bytes()).unwrap().unwrap();
    let plain = exact.compress(short.as_bytes()).unwrap();
    assert_eq!(checked.rendering, plain.rendering);
    assert_eq!(checked.stats.tokenizer_id, 3);
    assert!(exact.compress_checked(b"[").unwrap().is_err());
    assert!(exact.compress_checked(&[0xFF]).unwrap().is_err());

    let heuristic = Compressor::new(Config::default());
    assert!(heuristic.compress_checked(long.as_bytes()).unwrap().is_ok());
    assert!(ByteLenEstimator.can_rate(&long));
}

#[test]
fn varints_read_back_exactly() {
    for value in [0, 127, 128, 300, u64::from(u32::MAX), u64::MAX] {
        let mut bytes = vec![9, 9];
        write_uleb128(value, &mut bytes);
        let end = bytes.len();
        assert_eq!(read_uleb128(&bytes, 2).unwrap(), (value, end));
        bytes.push(0x80);
        assert_eq!(read_uleb128(&bytes, 2).unwrap(), (value, end));
        assert_eq!(
            read_uleb128(&bytes, end).unwrap_err(),
            DecompressError::Corrupt { byte_offset: end + 1 }
        );
    }
    for refused in [&[0x80u8, 0x00][..], &[], &[0xFF; 10], &[0x80; 11]] {
        assert!(matches!(
            read_uleb128(refused, 0),
            Err(DecompressError::Corrupt { .. })
        ));
    }
}

#[test]
fn compact_output_stops_where_the_nodes_do() {
    let input = "[1, 2]";
    let tape = parse(input, 512).unwrap();
    let mut out = String::from(">");
    assert_eq!(emit_compact(tape.nodes(), input, &mut out, 1, 9), None);
    assert_eq!(out, ">12]");
    assert_eq!(emit_compact(tape.nodes(), input, &mut out, 9, 9), None);
    assert_eq!(out, ">12]");
    assert_eq!(emit_compact(tape.nodes(), input, &mut out, 2, 1), Some(()));
    assert_eq!(out, ">12]");
    assert_eq!(emit_compact(tape.nodes(), input, &mut out, 0, 3), Some(()));
    assert_eq!(out, ">12][1,2]");
}
