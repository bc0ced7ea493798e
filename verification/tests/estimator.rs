//! The cost models.

use tokfold_core::estimator::{
    ids, ByteLenEstimator, Cl100kEstimator, HeuristicEstimator, O200kEstimator, TokenEstimator,
};

#[test]
fn estimate_is_pure() {
    let estimator = HeuristicEstimator;
    let input = "{\"user\":\"alice\",\"count\":42,\"tags\":[\"a\",\"b\"]}";
    let first = estimator.estimate(input);
    let second = estimator.estimate(input);
    assert_eq!(first, second, "same input must yield the same estimate");
}

#[test]
fn estimator_empty_string_costs_nothing() {
    assert_eq!(HeuristicEstimator.estimate(""), 0);
    assert_eq!(ByteLenEstimator.estimate(""), 0);
    assert_eq!(Cl100kEstimator::new().unwrap().estimate(""), 0);
    assert_eq!(O200kEstimator::new().unwrap().estimate(""), 0);
}

#[test]
fn concatenation_is_monotone() {
    let estimator = HeuristicEstimator;
    let pairs = [
        ("hello world", "foo bar baz"),
        ("", "anything at all"),
        ("prefix", ""),
        ("    indented", "line\nwith breaks"),
        ("café", "über"),
    ];
    for (left, right) in pairs {
        let joined = format!("{left}{right}");
        let joined_est = estimator.estimate(&joined);
        assert!(
            joined_est >= estimator.estimate(left),
            "estimate({joined:?}) < estimate({left:?})"
        );
        assert!(
            joined_est >= estimator.estimate(right),
            "estimate({joined:?}) < estimate({right:?})"
        );
    }
}

#[test]
fn byte_len_estimator_returns_byte_length() {
    let estimator = ByteLenEstimator;
    assert_eq!(estimator.estimate("café"), "café".len());
    assert_eq!(estimator.estimate("café"), 5);
    assert_eq!(estimator.estimate("plain ascii"), "plain ascii".len());
}

#[test]
fn ascii_prose_lands_in_a_sane_band() {
    let prose = "the quick brown fox jumps over the lazy dog and then the dog runs \
         away into the deep dark forest";
    let len = prose.len();
    let est = HeuristicEstimator.estimate(prose);
    assert!(
        est >= len / 6,
        "estimate {est} implausibly low for {len} bytes"
    );
    assert!(
        est <= len / 2,
        "estimate {est} implausibly high for {len} bytes"
    );
}

#[test]
fn tokenizer_ids_are_stable() {
    assert_eq!(HeuristicEstimator.tokenizer_id(), 0);
    assert_eq!(ByteLenEstimator.tokenizer_id(), 1);

    assert_eq!(ids::HEURISTIC, 0);
    assert_eq!(ids::BYTE_LEN, 1);
    assert_eq!(ids::CL100K_BASE, 2);
    assert_eq!(ids::O200K_BASE, 3);
    assert_eq!(ids::HUGGING_FACE, 4);
}

#[test]
fn heuristic_is_the_default() {
    assert_eq!(HeuristicEstimator::default().tokenizer_id(), ids::HEURISTIC);
}

#[test]
fn exact_tokenizer_ids_are_stable() {
    let cl100k = Cl100kEstimator::new().expect("cl100k_base tables load");
    let o200k = O200kEstimator::new().expect("o200k_base tables load");
    assert_eq!(cl100k.tokenizer_id(), ids::CL100K_BASE);
    assert_eq!(o200k.tokenizer_id(), ids::O200K_BASE);
    assert_eq!(cl100k.tokenizer_id(), 2);
    assert_eq!(o200k.tokenizer_id(), 3);
}

#[test]
fn cl100k_matches_known_bpe_count() {
    assert_eq!(Cl100kEstimator::new().unwrap().estimate("hello world"), 2);
}

#[test]
fn o200k_matches_known_bpe_count() {
    assert_eq!(O200kEstimator::new().unwrap().estimate("hello world"), 2);
}

#[test]
fn o200k_and_cl100k_are_distinct_tokenizers() {
    let cl100k = Cl100kEstimator::new().unwrap();
    let o200k = O200kEstimator::new().unwrap();
    let battery = [
        "你好世界，这是一段中文测试文本",
        "🎉🎊✨🥳 emoji then prose",
        "supercalifragilisticexpialidocious antidisestablishmentarianism",
        "def foo(x):\n    return x + 1  # inline comment",
        "Ĉ Ĝ Ĥ Ĵ Ŝ Ŭ Esperanto diacritics",
    ];
    let diverges = battery
        .iter()
        .any(|s| cl100k.estimate(s) != o200k.estimate(s));
    assert!(
        diverges,
        "o200k and cl100k produced identical counts across the whole battery — \
         they appear to be the same tokenizer"
    );
}

#[test]
fn exact_estimate_is_pure() {
    let cl100k = Cl100kEstimator::new().unwrap();
    let input = "{\"user\":\"alice\",\"count\":42,\"tags\":[\"a\",\"b\"]}";
    assert_eq!(cl100k.estimate(input), cl100k.estimate(input));
}

#[test]
fn heuristic_over_counts_dense_json() {
    let json = "{\"user\":\"alice\",\"count\":42,\"tags\":[\"a\",\"b\"],\"ok\":true}";
    let exact = Cl100kEstimator::new().unwrap().estimate(json);
    let heuristic = HeuristicEstimator.estimate(json);
    assert!(
        exact <= heuristic,
        "exact cl100k {exact} unexpectedly above heuristic {heuristic} on dense JSON"
    );
}
