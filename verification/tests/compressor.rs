//! Both directions, under various configurations.

use std::sync::Arc;
use tokfold_core::compressor::{enabled_encoders, DEFAULT_MAX_DEPTH, MAX_SAVING_BPS};
use tokfold_core::encoder::{self, Encoder};
use tokfold_core::format::{
    ENCODER_ID_OFFSET, FLAGS_OFFSET, ORIGINAL_LEN_OFFSET, TOKENIZER_ID_OFFSET,
};
use tokfold_core::tape;
use tokfold_core::{
    ByteLenEstimator, Cl100kEstimator, CompressError, Compressor, Config, DecompressError,
    EncoderId, Fidelity, HeuristicEstimator, O200kEstimator, Profile, Stats, TokenEstimator,
};

fn byte_ratio(stats: &Stats) -> f64 {
    if stats.bytes_before == 0 {
        1.0
    } else {
        stats.bytes_after as f64 / stats.bytes_before as f64
    }
}

fn token_ratio(stats: &Stats) -> f64 {
    if stats.est_tokens_before == 0 {
        1.0
    } else {
        stats.est_tokens_after as f64 / stats.est_tokens_before as f64
    }
}

fn assert_send_sync<T: Send + Sync>() {}

#[derive(Debug)]
struct CautiousHeuristic;
impl TokenEstimator for CautiousHeuristic {
    fn estimate(&self, text: &str) -> usize {
        HeuristicEstimator.estimate(text)
    }
    fn tokenizer_id(&self) -> u16 {
        4242
    }
    fn over_claim_bps(&self) -> u32 {
        9_000
    }
}

fn engine(estimator: Arc<dyn TokenEstimator>) -> Compressor<dyn TokenEstimator> {
    Compressor::new(Config::builder().estimator(estimator).build())
}

fn compressor() -> Compressor {
    Compressor::new(Config::default())
}

fn homogeneous_array(n: usize) -> String {
    let mut s = String::from("[");
    for i in 0..n {
        if i > 0 {
            s.push(',');
        }
        s.push_str(&format!(
            "{{\"id\":{i},\"name\":\"item{i}\",\"active\":true}}"
        ));
    }
    s.push(']');
    s
}

fn pretty_object(n: usize) -> String {
    let mut s = String::from("{\n");
    for i in 0..n {
        s.push_str("    \"key");
        s.push_str(&i.to_string());
        s.push_str("\": ");
        s.push_str(&i.to_string());
        if i + 1 < n {
            s.push(',');
        }
        s.push('\n');
    }
    s.push('}');
    s
}

fn nested_arrays(depth: usize) -> String {
    let mut s = String::new();
    for _ in 0..depth {
        s.push('[');
    }
    s.push('1');
    for _ in 0..depth {
        s.push(']');
    }
    s
}

fn corpus() -> Vec<String> {
    vec![
        "{\"a\":1}".to_owned(),
        "42".to_owned(),
        "\"hello\"".to_owned(),
        "[1,2,3]".to_owned(),
        "null".to_owned(),
        "true".to_owned(),
        "{\"log\":\"error[E0308]: mismatched types\"}".to_owned(),
        "{\"x\":[1,2,{\"y\":3}],\"z\":{\"w\":[true,false,null]}}".to_owned(),
        "[1.0,1e3,-0.5,2.5e10]".to_owned(),
        pretty_object(30),
        homogeneous_array(12),
    ]
}

#[test]
fn passthrough_is_not_an_error_and_reports_ratio_one() {
    let c = compressor();
    for input in ["{\"a\":1}", "42", "\"hi\"", "[1,2,3]", "null", "true"] {
        let art = c.compress(input.as_bytes()).unwrap();
        assert_eq!(
            art.stats.encoder,
            EncoderId::passthrough(),
            "expected passthrough for {input:?}"
        );
        assert_eq!(byte_ratio(&art.stats), 1.0, "byte_ratio for {input:?}");
        assert_eq!(token_ratio(&art.stats), 1.0, "token_ratio for {input:?}");
        assert!(matches!(art.stats.fidelity, Fidelity::Lossless));
        assert_eq!(
            c.decompress(&art.archive).unwrap(),
            input.as_bytes(),
            "Lossless was reported but the archive did not reproduce {input:?}"
        );
    }
}

#[test]
fn do_no_harm_across_the_corpus() {
    let c = compressor();
    for input in corpus() {
        let art = c.compress(input.as_bytes()).unwrap();
        assert!(
            art.stats.est_tokens_after <= art.stats.est_tokens_before,
            "harm on {input:?}: {} > {}",
            art.stats.est_tokens_after,
            art.stats.est_tokens_before
        );
        assert!(token_ratio(&art.stats) <= 1.0, "ratio > 1 on {input:?}");
    }
}

#[test]
fn compress_then_decompress_reconstructs_every_sample() {
    let c = compressor();
    for input in corpus() {
        let art = c.compress(input.as_bytes()).unwrap();
        let restored = c.decompress(&art.archive).unwrap();
        assert_eq!(restored, input.as_bytes(), "roundtrip failed for {input:?}");
    }
}

#[test]
fn estimator_choice_does_not_change_recovery_archive() {
    let heuristic = Compressor::new(Config::default());
    let exact = Compressor::new(
        Config::builder()
            .estimator(Arc::new(Cl100kEstimator::new().unwrap()))
            .build(),
    );
    for input in corpus() {
        let bytes = input.as_bytes();
        let a = heuristic.compress(bytes).unwrap();
        let b = exact.compress(bytes).unwrap();
        assert_eq!(a.stats.tokenizer_id, 0, "heuristic id for {input:?}");
        assert_eq!(b.stats.tokenizer_id, 2, "cl100k id for {input:?}");
        assert_eq!(
            a.archive, b.archive,
            "recovery archive diverged by estimator for {input:?}"
        );
        assert_eq!(heuristic.decompress(&b.archive).unwrap(), bytes);
        assert_eq!(exact.decompress(&a.archive).unwrap(), bytes);
    }
}

#[test]
fn exact_estimator_changes_encoder_selection_in_both_directions() {
    let heuristic = engine(Arc::new(HeuristicEstimator));
    let cl100k = engine(Arc::new(Cl100kEstimator::new().unwrap()));
    let o200k = engine(Arc::new(O200kEstimator::new().unwrap()));

    let pos_input = "[{\"id\":0,\"name\":\"item0\",\"active\":true},{\"id\":1,\"name\":\"item1\",\"active\":true},{\"id\":2,\"name\":\"item2\",\"active\":true}]";
    let pos_heur = heuristic.compress(pos_input.as_bytes()).unwrap();
    let pos_cl = cl100k.compress(pos_input.as_bytes()).unwrap();
    let pos_o2 = o200k.compress(pos_input.as_bytes()).unwrap();
    assert_ne!(
        pos_heur.stats.encoder,
        EncoderId::passthrough(),
        "heuristic should pick a real encoder on the small array"
    );
    assert_eq!(
        pos_cl.stats.encoder,
        EncoderId::passthrough(),
        "cl100k should suppress it back to passthrough"
    );
    assert_eq!(
        pos_o2.stats.encoder,
        EncoderId::passthrough(),
        "o200k should suppress it back to passthrough"
    );
    assert_ne!(
        pos_heur.stats.encoder, pos_cl.stats.encoder,
        "the exact gate must change the winning encoder"
    );

    let neg_input = "{\n    \"enabled\": true,\n    \"retries\": 3,\n    \"timeout\": 30,\n    \"verbose\": false,\n    \"region\": \"us-east-1\"\n}";
    let neg_heur = heuristic.compress(neg_input.as_bytes()).unwrap();
    let neg_cl = cl100k.compress(neg_input.as_bytes()).unwrap();
    let neg_o2 = o200k.compress(neg_input.as_bytes()).unwrap();
    assert_eq!(
        neg_heur.stats.encoder,
        EncoderId::passthrough(),
        "heuristic should pass through the pretty config object"
    );
    assert_eq!(
        neg_cl.stats.encoder,
        EncoderId::e1_minify(),
        "cl100k should pick E1 minify"
    );
    assert_eq!(
        neg_o2.stats.encoder,
        EncoderId::e1_minify(),
        "o200k should pick E1 minify"
    );
    assert_ne!(
        neg_heur.stats.encoder, neg_cl.stats.encoder,
        "the exact gate must change the winning encoder"
    );

    for (input, artifacts) in [
        (pos_input, [&pos_heur, &pos_cl, &pos_o2]),
        (neg_input, [&neg_heur, &neg_cl, &neg_o2]),
    ] {
        for artifact in artifacts {
            assert!(
                token_ratio(&artifact.stats) <= 1.0,
                "do-no-harm violated for {input:?}"
            );
            for engine in [&heuristic, &cl100k, &o200k] {
                assert_eq!(
                    engine.decompress(&artifact.archive).unwrap(),
                    input.as_bytes(),
                    "recovery must be byte-exact and estimator-independent for {input:?}"
                );
            }
        }
    }

    assert_eq!(pos_heur.stats.tokenizer_id, 0);
    assert_eq!(pos_cl.stats.tokenizer_id, 2);
    assert_eq!(pos_o2.stats.tokenizer_id, 3);
}

#[test]
fn a_compressible_input_selects_an_encoder_and_still_reconstructs() {
    let c = compressor();
    let input = homogeneous_array(12);
    let art = c.compress(input.as_bytes()).unwrap();
    assert_ne!(
        art.stats.encoder,
        EncoderId::passthrough(),
        "expected a real encoder to win, got passthrough"
    );
    assert!(
        token_ratio(&art.stats) < 1.0,
        "expected a token win, ratio {}",
        token_ratio(&art.stats)
    );
    assert_eq!(c.decompress(&art.archive).unwrap(), input.as_bytes());
}

#[test]
fn minification_wins_on_pretty_printed_input() {
    let c = compressor();
    let input = pretty_object(30);
    let art = c.compress(input.as_bytes()).unwrap();
    assert_eq!(art.stats.encoder, EncoderId::e1_minify(), "expected E1 minify to win");
    assert!(art.rendering.starts_with("\u{27E6}tkfd:v1:min\u{27E7}\n"));
    assert_eq!(c.decompress(&art.archive).unwrap(), input.as_bytes());
}

#[test]
fn oversized_input_is_rejected() {
    let cfg = Config::builder().max_input_bytes(4).build();
    let c = Compressor::new(cfg);
    let err = c.compress(b"{\"a\":1}").unwrap_err();
    assert!(matches!(
        err,
        CompressError::InputTooLarge { size: 7, limit: 4 }
    ));
}

#[test]
fn compressor_non_utf8_input_is_rejected() {
    let c = compressor();
    let err = c.compress(&[0xFF, 0xFE, 0x00]).unwrap_err();
    assert!(matches!(err, CompressError::NotUtf8));
}

#[test]
fn too_deeply_nested_input_is_rejected() {
    let cfg = Config::builder().max_depth(3).build();
    let c = Compressor::new(cfg);
    let input = nested_arrays(8);
    let err = c.compress(input.as_bytes()).unwrap_err();
    assert!(
        matches!(err, CompressError::DepthExceeded { limit: 3, .. }),
        "got {err:?}"
    );
}

#[test]
fn invalid_json_is_rejected() {
    let c = compressor();
    let err = c.compress(b"{\"a\":").unwrap_err();
    assert!(
        matches!(err, CompressError::InvalidJson { .. }),
        "got {err:?}"
    );
}

#[test]
fn compression_is_deterministic() {
    let input = homogeneous_array(12);
    let a = compressor().compress(input.as_bytes()).unwrap();
    let b = compressor().compress(input.as_bytes()).unwrap();
    assert_eq!(a.archive, b.archive, "archive bytes are not deterministic");
    assert_eq!(a.rendering, b.rendering, "rendering is not deterministic");
    assert_eq!(a.stats.encoder, b.stats.encoder);
    assert_eq!(a.stats.est_tokens_after, b.stats.est_tokens_after);
}

#[test]
fn decompress_fails_closed_on_corruption() {
    let c = compressor();
    let input = homogeneous_array(6);
    let art = c.compress(input.as_bytes()).unwrap();
    assert_eq!(c.decompress(&art.archive).unwrap(), input.as_bytes());

    let mut flipped = art.archive.clone();
    if let Some(last) = flipped.last_mut() {
        *last ^= 0x01;
    }
    assert!(c.decompress(&flipped).is_err(), "flipped bit accepted");

    let truncated = &art.archive[..art.archive.len() - 1];
    assert!(
        c.decompress(truncated).is_err(),
        "truncated archive accepted"
    );

    assert!(matches!(
        c.decompress(b"NOPExxxxxxxx"),
        Err(DecompressError::BadMagic)
    ));
}

#[test]
fn conservative_profile_offers_minify_only() {
    let cfg = Config::builder().profile(Profile::Conservative).build();
    let c = Compressor::new(cfg);
    let input = homogeneous_array(12);
    let art = c.compress(input.as_bytes()).unwrap();
    assert_eq!(art.stats.encoder, EncoderId::passthrough());
    let balanced = compressor().compress(input.as_bytes()).unwrap();
    assert_ne!(balanced.stats.encoder, EncoderId::passthrough());
}

#[test]
fn config_defaults_match_the_spec() {
    let cfg = Config::default();
    assert_eq!(cfg.profile, Profile::Balanced);
    assert_eq!(cfg.max_input_bytes, 16 * 1024 * 1024);
    assert_eq!(cfg.max_depth, 512);
    assert_eq!(cfg.estimator.tokenizer_id(), 0);
}

#[test]
fn a_different_estimator_never_changes_the_archive() {
    let heuristic = compressor();
    let byte_len = Compressor::new(
        Config::builder()
            .estimator(Arc::new(ByteLenEstimator))
            .build(),
    );

    for input in corpus() {
        let h = heuristic.compress(input.as_bytes()).unwrap();
        let b = byte_len.compress(input.as_bytes()).unwrap();

        assert_eq!(
            h.archive, b.archive,
            "archive diverged under a different estimator for {input:?}"
        );

        assert_eq!(h.stats.tokenizer_id, 0, "heuristic id for {input:?}");
        assert_eq!(b.stats.tokenizer_id, 1, "byte-len id for {input:?}");

        assert_eq!(
            heuristic.decompress(&b.archive).unwrap(),
            input.as_bytes(),
            "heuristic could not expand the byte-len archive for {input:?}"
        );
        assert_eq!(
            byte_len.decompress(&h.archive).unwrap(),
            input.as_bytes(),
            "byte-len could not expand the heuristic archive for {input:?}"
        );
    }
}

#[test]
fn compressor_and_config_are_send_and_sync() {
    assert_send_sync::<Compressor>();
    assert_send_sync::<Config>();
}

#[test]
fn enabled_encoders_are_frozen_per_profile() {
    assert_eq!(
        enabled_encoders(Profile::Conservative),
        [Encoder::E1Minify].as_slice()
    );
    assert_eq!(
        enabled_encoders(Profile::Balanced),
        [Encoder::E1Minify, Encoder::E2Tabular].as_slice()
    );
    assert_eq!(
        enabled_encoders(Profile::Aggressive),
        enabled_encoders(Profile::Balanced),
        "Aggressive is documented as identical to Balanced until E3 lands"
    );
}

#[test]
fn selection_does_not_depend_on_candidate_order() {
    for input in corpus() {
        let parsed = tape::parse(&input, DEFAULT_MAX_DEPTH).unwrap();
        let estimator = HeuristicEstimator;
        let forward = encoder::select(
            &parsed,
            &input,
            &estimator,
            &[Encoder::E1Minify, Encoder::E2Tabular],
            0,
        );
        let reversed = encoder::select(
            &parsed,
            &input,
            &estimator,
            &[Encoder::E2Tabular, Encoder::E1Minify],
            0,
        );
        assert_eq!(forward.encoder, reversed.encoder, "on {input:?}");
        assert_eq!(forward.rendering, reversed.rendering, "on {input:?}");
    }
}

#[test]
fn aggressive_profile_matches_balanced_byte_for_byte() {
    let input = homogeneous_array(12);
    let cfg = Config::builder().profile(Profile::Aggressive).build();
    let aggressive = Compressor::new(cfg).compress(input.as_bytes()).unwrap();
    let balanced = compressor().compress(input.as_bytes()).unwrap();
    assert_eq!(aggressive.stats.encoder, EncoderId::e2_tabular());
    assert_eq!(aggressive.rendering, balanced.rendering);
    assert_eq!(aggressive.archive, balanced.archive);
}

#[test]
fn builder_seed_is_the_documented_default_config() {
    let built = Compressor::new(Config::builder().build());
    let defaulted = Compressor::new(Config::default());
    for input in corpus() {
        let a = built.compress(input.as_bytes()).unwrap();
        let b = defaulted.compress(input.as_bytes()).unwrap();
        assert_eq!(a.stats.encoder, b.stats.encoder, "encoder on {input:?}");
        assert_eq!(a.rendering, b.rendering, "rendering on {input:?}");
        assert_eq!(a.archive, b.archive, "archive on {input:?}");
    }

    let table = homogeneous_array(12);
    assert_eq!(
        built.compress(table.as_bytes()).unwrap().stats.encoder,
        EncoderId::e2_tabular(),
        "the default profile must offer the tabular encoder"
    );

    let over = vec![b' '; (16 * 1024 * 1024) + 1];
    let err = built.compress(&over).unwrap_err();
    assert!(
        matches!(
            err,
            CompressError::InputTooLarge {
                size: 16_777_217,
                limit: 16_777_216
            }
        ),
        "got {err:?}"
    );

    assert!(
        built.compress(nested_arrays(512).as_bytes()).is_ok(),
        "512 nested levels must be within the default ceiling"
    );
    let deep = built.compress(nested_arrays(513).as_bytes()).unwrap_err();
    assert!(
        matches!(
            deep,
            CompressError::DepthExceeded {
                depth: 513,
                limit: 512
            }
        ),
        "got {deep:?}"
    );
}

#[test]
fn encoder_id_constants_are_the_wire_ids() {
    assert_eq!(EncoderId::passthrough().0, 0);
    assert_eq!(EncoderId::e1_minify().0, 1);
    assert_eq!(EncoderId::e2_tabular().0, 2);

    let c = compressor();
    assert_eq!(
        c.compress(b"42").unwrap().stats.encoder,
        EncoderId::passthrough()
    );
    assert_eq!(
        c.compress(pretty_object(30).as_bytes())
            .unwrap()
            .stats
            .encoder,
        EncoderId::e1_minify()
    );
    assert_eq!(
        c.compress(homogeneous_array(12).as_bytes())
            .unwrap()
            .stats
            .encoder,
        EncoderId::e2_tabular()
    );
}

#[test]
fn the_applied_margin_is_reported_and_clamped_at_one_hundred_percent() {
    let input = pretty_object(30);
    let stats = |bps: u32| {
        Compressor::new(Config::builder().min_saving_bps(bps).build())
            .compress(input.as_bytes())
            .unwrap()
            .stats
    };
    assert_eq!(stats(600).min_saving_bps, 600);
    assert_eq!(MAX_SAVING_BPS, 10_000);
    assert_eq!(stats(50_000).min_saving_bps, MAX_SAVING_BPS);
    assert_eq!(stats(50_000).encoder, EncoderId::passthrough());
    let default_stats = compressor().compress(input.as_bytes()).unwrap().stats;
    assert_eq!(default_stats.min_saving_bps, 0);
    assert_eq!(default_stats.encoder, EncoderId::e1_minify());
}

#[test]
fn the_configured_estimator_drives_and_labels_selection() {
    let input = pretty_object(30);
    let cfg = Config::builder()
        .estimator(Arc::new(CautiousHeuristic))
        .build();
    let stats = Compressor::new(cfg)
        .compress(input.as_bytes())
        .unwrap()
        .stats;
    assert_eq!(
        stats.tokenizer_id, 4242,
        "Stats must report the configured estimator, not the default"
    );
    assert_eq!(
        stats.min_saving_bps, 9_000,
        "an unset margin must fall back to the estimator's declared over-claim"
    );
    assert_eq!(
        stats.encoder,
        EncoderId::passthrough(),
        "a 90% bar must refuse E1's ~11% win on this input"
    );
}

#[test]
fn input_of_exactly_the_ceiling_is_accepted() {
    let input = b"{\"a\":1}";
    let at_limit = Config::builder().max_input_bytes(input.len()).build();
    assert!(
        Compressor::new(at_limit).compress(input).is_ok(),
        "an input of exactly max_input_bytes must be accepted"
    );
    let below = Config::builder().max_input_bytes(input.len() - 1).build();
    assert!(matches!(
        Compressor::new(below).compress(input),
        Err(CompressError::InputTooLarge { size: 7, limit: 6 })
    ));
}

#[test]
fn decompress_names_the_header_field_it_rejected() {
    assert_eq!(ENCODER_ID_OFFSET, 5);
    assert_eq!(TOKENIZER_ID_OFFSET, 6);
    assert_eq!(FLAGS_OFFSET, 8);
    assert_eq!(ORIGINAL_LEN_OFFSET, 10);

    let c = compressor();
    let art = c.compress(b"{\"a\":1}").unwrap();
    let corrupt_at = |index: usize, value: u8| {
        let mut a = art.archive.clone();
        a[index] = value;
        c.decompress(&a)
    };
    assert!(
        matches!(
            corrupt_at(ENCODER_ID_OFFSET, 1),
            Err(DecompressError::Corrupt { byte_offset: 5 })
        ),
        "encoder_id"
    );
    assert!(
        matches!(
            corrupt_at(TOKENIZER_ID_OFFSET, 1),
            Err(DecompressError::Corrupt { byte_offset: 6 })
        ),
        "tokenizer_id, low byte"
    );
    assert!(
        matches!(
            corrupt_at(TOKENIZER_ID_OFFSET + 1, 1),
            Err(DecompressError::Corrupt { byte_offset: 6 })
        ),
        "tokenizer_id, high byte: the offset names the field, not the byte"
    );
    assert!(
        matches!(
            corrupt_at(FLAGS_OFFSET, 0b0001),
            Err(DecompressError::Corrupt { byte_offset: 8 })
        ),
        "flags"
    );
}

#[test]
fn a_payload_length_mismatch_is_reported_as_a_checksum_mismatch() {
    let c = compressor();
    let art = c.compress(homogeneous_array(6).as_bytes()).unwrap();

    let truncated = &art.archive[..art.archive.len() - 1];
    assert!(
        matches!(
            c.decompress(truncated),
            Err(DecompressError::ChecksumMismatch)
        ),
        "a short payload"
    );

    let mut overlong = art.archive.clone();
    overlong.push(0x00);
    assert!(
        matches!(
            c.decompress(&overlong),
            Err(DecompressError::ChecksumMismatch)
        ),
        "a long payload"
    );
}

#[test]
fn passthrough_framing_costs_tokens_the_stats_do_not_report() {
    let c = compressor();
    let est = HeuristicEstimator;
    for (input, extra_tokens) in [("{\"a\":1}", 10), (" {\"a\":1}", 11)] {
        let art = c.compress(input.as_bytes()).unwrap();
        assert_eq!(art.stats.encoder, EncoderId::passthrough(), "{input:?}");
        assert_eq!(
            art.rendering,
            format!("\u{27E6}tkfd:v1:raw\u{27E7}\n{input}")
        );
        assert_eq!(art.stats.est_tokens_after, art.stats.est_tokens_before);
        assert_eq!(token_ratio(&art.stats), 1.0);
        assert_eq!(byte_ratio(&art.stats), 1.0);
        assert_eq!(art.rendering.len(), input.len() + 18, "{input:?}");
        assert_eq!(
            est.estimate(&art.rendering),
            est.estimate(input) + extra_tokens,
            "framing cost for {input:?}"
        );
    }
}
