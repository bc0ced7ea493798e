//! Sentinels, and the candidate rule.

use tokfold_core::encoder::{clears_margin, prefers, render, select, Encoder};
use tokfold_core::estimator::{ByteLenEstimator, HeuristicEstimator};
use tokfold_core::tape;

const NO_MARGIN: u32 = 0;

fn tape_of(input: &str) -> tape::Tape {
    tape::parse(input, 512).unwrap()
}

fn pretty_object(n: usize) -> String {
    let mut s = String::from("{\n");
    for i in 0..n {
        s.push_str("    \"key");
        s.push_str(&i.to_string());
        s.push_str("\": ");
        s.push_str(&i.to_string());
        if i + 1 < n {
            s.push(',');
        }
        s.push('\n');
    }
    s.push('}');
    s
}

#[test]
fn encoder_ids_are_frozen() {
    assert_eq!(Encoder::Passthrough.id(), 0);
    assert_eq!(Encoder::E1Minify.id(), 1);
    assert_eq!(Encoder::E2Tabular.id(), 2);
}

#[test]
fn passthrough_rendering_carries_the_raw_sentinel() {
    let input = "{\"a\":1}";
    let t = tape_of(input);
    let r = render(Encoder::Passthrough, &t, input).unwrap();
    assert_eq!(r, format!("\u{27E6}tkfd:v1:raw\u{27E7}\n{input}"));
}

#[test]
fn minify_rendering_carries_the_min_sentinel() {
    let input = "{ \"a\" : 1 }";
    let t = tape_of(input);
    let r = render(Encoder::E1Minify, &t, input).unwrap();
    assert!(r.starts_with("\u{27E6}tkfd:v1:min\u{27E7}\n"), "got {r:?}");
    assert!(r.ends_with("{\"a\":1}"), "got {r:?}");
}

#[test]
fn select_passthrough_when_nothing_wins() {
    let input = "{\"a\":1}";
    let t = tape_of(input);
    let sel = select(
        &t,
        input,
        &ByteLenEstimator,
        &[Encoder::E1Minify, Encoder::E2Tabular],
        NO_MARGIN,
    );
    assert_eq!(sel.encoder, Encoder::Passthrough);
    assert_eq!(sel.est_tokens_after, sel.est_tokens_before);
    assert!(sel.rendering.starts_with("\u{27E6}tkfd:v1:raw\u{27E7}\n"));
}

#[test]
fn select_do_no_harm_holds() {
    let inputs = [
        "{\"a\":1}",
        "{ \"a\" : 1 , \"b\" : [ 2 , 3 ] }",
        "[\n  1,\n  2,\n  3\n]",
        "\"plain string\"",
    ];
    for input in inputs {
        let t = tape_of(input);
        for bps in MARGIN_LADDER {
            let sel = select(&t, input, &HeuristicEstimator, &[Encoder::E1Minify], bps);
            assert!(
                sel.est_tokens_after <= sel.est_tokens_before,
                "harm on {input:?} at {bps} bps"
            );
            if sel.encoder != Encoder::Passthrough {
                assert!(
                    clears_margin(sel.est_tokens_after, sel.est_tokens_before, bps),
                    "accepted a rendering that does not clear its own gate: \
                     {input:?} at {bps} bps"
                );
            }
        }
    }
}

const MARGIN_LADDER: [u32; 7] = [0, 100, 300, 600, 1200, 5000, 10_000];

#[test]
fn clears_margin_is_exact_at_the_boundary() {
    assert!(clears_margin(94, 100, 600));
    assert!(!clears_margin(94, 100, 601));
    assert!(clears_margin(99, 100, NO_MARGIN));
    assert!(!clears_margin(100, 100, NO_MARGIN));
    assert!(!clears_margin(101, 100, NO_MARGIN));
    assert!(!clears_margin(0, 0, NO_MARGIN));
    assert!(clears_margin(0, 100, 10_000));
    assert!(!clears_margin(1, 100, 10_000));
}

#[test]
fn a_margin_refuses_a_win_the_v0_0_1_rule_would_keep() {
    let input = pretty_object(20);
    let t = tape_of(&input);
    let kept = select(
        &t,
        &input,
        &HeuristicEstimator,
        &[Encoder::E1Minify],
        NO_MARGIN,
    );
    assert_eq!(kept.encoder, Encoder::E1Minify, "expected a win to refuse");

    let saved = kept.est_tokens_before - kept.est_tokens_after;
    let claimed_bps = u32::try_from(saved * 10_000 / kept.est_tokens_before).unwrap();
    let refused = select(
        &t,
        &input,
        &HeuristicEstimator,
        &[Encoder::E1Minify],
        claimed_bps + 1,
    );
    assert_eq!(refused.encoder, Encoder::Passthrough);
    assert_eq!(refused.est_tokens_after, refused.est_tokens_before);
    assert!(
        refused
            .rendering
            .starts_with("\u{27E6}tkfd:v1:raw\u{27E7}\n")
    );
}

#[test]
fn raising_the_margin_only_ever_removes_winners() {
    let inputs = [
        "{\"a\":1}".to_string(),
        pretty_object(2),
        pretty_object(20),
        pretty_object(60),
        "[\n  1,\n  2,\n  3\n]".to_string(),
    ];
    for input in inputs {
        let t = tape_of(&input);
        let mut still_winning = true;
        for bps in MARGIN_LADDER {
            let sel = select(
                &t,
                &input,
                &HeuristicEstimator,
                &[Encoder::E1Minify, Encoder::E2Tabular],
                bps,
            );
            let won = sel.encoder != Encoder::Passthrough;
            assert!(
                still_winning || !won,
                "raising the margin to {bps} bps re-enabled an encoder on {input:?}"
            );
            still_winning = won;
        }
    }
}

#[test]
fn select_minify_wins_on_pretty_printed_input() {
    let input = pretty_object(30);
    let t = tape_of(&input);
    let sel = select(
        &t,
        &input,
        &HeuristicEstimator,
        &[Encoder::E1Minify, Encoder::E2Tabular],
        NO_MARGIN,
    );
    assert_eq!(sel.encoder, Encoder::E1Minify);
    assert!(sel.est_tokens_after < sel.est_tokens_before);
    assert!(sel.rendering.starts_with("\u{27E6}tkfd:v1:min\u{27E7}\n"));
}

#[test]
fn select_small_input_stays_passthrough() {
    let input = "{\n    \"alpha\": 1,\n    \"beta\": 2\n}";
    let t = tape_of(input);
    let sel = select(
        &t,
        input,
        &HeuristicEstimator,
        &[Encoder::E1Minify],
        NO_MARGIN,
    );
    assert_eq!(sel.encoder, Encoder::Passthrough);
    assert_eq!(sel.est_tokens_after, sel.est_tokens_before);
}

#[test]
fn select_is_deterministic() {
    let input = "{\n  \"x\": [1, 2, 3],\n  \"y\": \"value\"\n}";
    let t = tape_of(input);
    let a = select(
        &t,
        input,
        &HeuristicEstimator,
        &[Encoder::E1Minify],
        NO_MARGIN,
    );
    let b = select(
        &t,
        input,
        &HeuristicEstimator,
        &[Encoder::E1Minify],
        NO_MARGIN,
    );
    assert_eq!(a.encoder, b.encoder);
    assert_eq!(a.rendering, b.rendering);
    assert_eq!(a.est_tokens_after, b.est_tokens_after);
}

#[test]
fn tie_breaks_to_the_lower_encoder_id() {
    assert!(prefers(5, 1, 5, 2));
    assert!(!prefers(5, 2, 5, 1));
    assert!(prefers(4, 2, 5, 1));
    assert!(!prefers(6, 1, 5, 2));
    assert!(!prefers(5, 1, 5, 1));
}
