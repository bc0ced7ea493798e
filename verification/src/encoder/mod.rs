//! The encoders, and the candidate rule that chooses one.
//!
//! The set of encoders is closed: an encoder from elsewhere could write a rendering that does
//! not say what the document says. A caller supplies a cost model ([`TokenEstimator`]), never
//! an encoder.
//!
//! # The candidate rule
//!
//! Every enabled encoder that applies puts a rendering forward. A rendering is kept only if
//! the estimator rates it strictly below the input, by at least a given margin. Of the kept
//! ones the lowest estimate wins, and of equal estimates the lower id. If none is kept, the
//! result is the input itself behind a sentinel: that nothing could be saved is never an
//! error. See [`selected`].

use crate::documents::{law_minified_reads_back, law_minified_twice, lemma_document_read};
use crate::encoder::e2_tabular::{lemma_same_nodes, lemma_size, tabulated_doc};
use crate::encoder::readback::{law_tabular_reconstructs, reconstruct};
use crate::encoder::tables::{
    all_objects, has_table, header, hoistable, key_lists, law_a_table_needs_an_array,
    law_any_array_makes_a_table, law_shared_keys_are_hoisted, machine_digest, part_of, tabular,
};
use crate::encoder::writer::written_doc;
use crate::estimator::{
    class_of, heuristic_tokens, lemma_runs_cost_step, runs_cost, CheckedEstimator, Class,
    TokenEstimator,
};
use crate::grammar::{document, Tree};
use crate::json::{doc, meaning, minified, recordable, resolvable, Json, Style};
use crate::tape::{is_tape, tree_nodes, Node, Tape};
use crate::text::{lemma_encode_ascii, lemma_encode_concat, lemma_encode_push, push_str};
use vstd::prelude::*;
use vstd::utf8::{
    encode_scalar, encode_utf8, is_ascii_chars_encode_utf8, is_char_boundary, valid_utf8,
};

pub mod e1_minify;
pub mod e2_tabular;
pub mod fx;
pub mod readback;
pub mod sizes;
pub mod tables;
pub mod writer;

verus! {

/// The encoders. Their ids are frozen.
#[derive(Copy, Clone, Debug, PartialEq, Eq, Structural)]
pub enum Encoder {
    /// The input as it stands, behind a `raw` sentinel. Id 0.
    Passthrough,
    /// Minified JSON. Id 1.
    E1Minify,
    /// Minified JSON in which arrays of like objects are tables. Id 2.
    E2Tabular,
}

impl Encoder {
    /// The frozen id.
    pub open spec fn number(self) -> u8 {
        match self {
            Encoder::Passthrough => 0,
            Encoder::E1Minify => 1,
            Encoder::E2Tabular => 2,
        }
    }

    /// The tag in the sentinel of a rendering.
    pub open spec fn label(self) -> Seq<char> {
        match self {
            Encoder::Passthrough => "raw"@,
            Encoder::E1Minify => "min"@,
            Encoder::E2Tabular => "tbl"@,
        }
    }

    /// The frozen id.
    pub fn id(self) -> (id: u8)
        ensures
            id == self.number(),
    {
        match self {
            Encoder::Passthrough => 0,
            Encoder::E1Minify => 1,
            Encoder::E2Tabular => 2,
        }
    }

    /// The tag in the sentinel of a rendering.
    pub fn tag(self) -> (tag: &'static str)
        ensures
            tag@ == self.label(),
    {
        match self {
            Encoder::Passthrough => "raw",
            Encoder::E1Minify => "min",
            Encoder::E2Tabular => "tbl",
        }
    }
}

/// What opens every sentinel, before the tag.
pub const SENTINEL_OPEN: &'static str = "\u{27E6}tkfd:v1:";

/// What closes a sentinel, before the newline.
pub const SENTINEL_CLOSE: char = '\u{27E7}';

/// The sentinel line of an encoder, as bytes.
pub open spec fn sentinel(enc: Encoder) -> Seq<u8> {
    encode_utf8((SENTINEL_OPEN@ + enc.label()).push(SENTINEL_CLOSE).push('\n'))
}

/// A rendering: the sentinel line and a body.
pub open spec fn frame(enc: Encoder, body: Seq<u8>) -> Seq<u8> {
    sentinel(enc) + body
}

/// Append the sentinel line of an encoder.
pub fn write_sentinel(enc: Encoder, out: &mut String)
    ensures
        encode_utf8(final(out)@) == encode_utf8(old(out)@) + sentinel(enc),
{
    let ghost before = out@;
    push_str(out, SENTINEL_OPEN);
    push_str(out, enc.tag());
    let ghost tagged = out@;
    out.push(SENTINEL_CLOSE);
    out.push('\n');
    proof {
        let line = SENTINEL_OPEN@ + enc.label();
        lemma_encode_push(tagged, SENTINEL_CLOSE);
        lemma_encode_push(tagged.push(SENTINEL_CLOSE), '\n');
        lemma_encode_push(line, SENTINEL_CLOSE);
        lemma_encode_push(line.push(SENTINEL_CLOSE), '\n');
        lemma_encode_concat(SENTINEL_OPEN@, enc.label());
        assert(encode_utf8(out@) =~= encode_utf8(before) + sentinel(enc));
    }
}

/// Put the sentinel line of an encoder in front of a body.
pub fn framed(enc: Encoder, body: &str) -> (rendering: String)
    ensures
        encode_utf8(rendering@) == frame(enc, encode_utf8(body@)),
{
    let mut out = String::new();
    write_sentinel(enc, &mut out);
    push_str(&mut out, body);
    proof {
        assert(encode_utf8(Seq::<char>::empty()) =~= Seq::<u8>::empty());
        assert(encode_utf8(out@) =~= frame(enc, encode_utf8(body@)));
    }
    out
}

/// Whether a tape's nodes record a tree, or, for no tree, are none.
pub open spec fn records(nodes: Seq<Node>, tree: Option<Tree>) -> bool {
    match tree {
        Some(t) => recordable(t) && nodes == tree_nodes(t, 0),
        None => nodes.len() == 0,
    }
}

/// What an encoder's body is for a tree read in the text `s`, if the encoder applies.
pub open spec fn encoded(enc: Encoder, tree: Option<Tree>, s: Seq<u8>) -> Option<Seq<u8>> {
    match enc {
        Encoder::Passthrough => Some(s),
        Encoder::E1Minify => match tree {
            Some(t) => written_doc(t, s, Style::Canonical),
            None => Some(Seq::empty()),
        },
        Encoder::E2Tabular => match tree {
            Some(t) => tabulated_doc(t, s),
            None => None,
        },
    }
}

/// The rendering that an encoder puts forward, if it applies.
pub open spec fn offer(enc: Encoder, tree: Option<Tree>, s: Seq<u8>) -> Option<Seq<u8>> {
    match encoded(enc, tree, s) {
        Some(body) => Some(frame(enc, body)),
        None => None,
    }
}

/// What is put forward depends on a tape's nodes alone.
pub proof fn lemma_offer(
    enc: Encoder,
    nodes: Seq<Node>,
    a: Option<Tree>,
    b: Option<Tree>,
    s: Seq<u8>,
)
    requires
        records(nodes, a),
        records(nodes, b),
    ensures
        offer(enc, a, s) == offer(enc, b, s),
{
    match (a, b) {
        (Some(ta), Some(tb)) => {
            assert(tree_nodes(ta, 0) + Seq::<Node>::empty() =~= nodes);
            assert(tree_nodes(tb, 0) + Seq::<Node>::empty() =~= nodes);
            lemma_same_nodes(ta, tb, 0, Seq::empty(), Seq::empty(), s);
        },
        (Some(t), None) => {
            lemma_size(t, 0);
        },
        (None, Some(t)) => {
            lemma_size(t, 0);
        },
        (None, None) => {},
    }
}

/// Render `input` with an encoder, or `None` if the encoder does not apply: E1 if a lexeme
/// cannot be cut out of `input`, E2 if moreover no array becomes a table. The input itself
/// always applies.
///
/// Nothing is measured here: a rendering may well cost more than the input.
pub fn render(enc: Encoder, tape: &Tape, input: &str) -> (r: Option<String>)
    ensures
        forall|tree: Option<Tree>|
            #[trigger] records(tape@, tree) ==> ({
                let wanted = offer(enc, tree, encode_utf8(input@));
                match r {
                    Some(text) => wanted == Some(encode_utf8(text@)),
                    None => wanted is None,
                }
            }),
{
    let body: Option<String> = match enc {
        Encoder::Passthrough => {
            return Some(framed(enc, input));
        },
        Encoder::E1Minify => e1_minify::render(tape, input),
        Encoder::E2Tabular => e2_tabular::render(tape, input),
    };
    proof {
        assert(encode_utf8(Seq::<char>::empty()) =~= Seq::<u8>::empty());
        assert forall|tree: Option<Tree>| #[trigger] records(tape@, tree) implies match body {
            Some(text) => encoded(enc, tree, encode_utf8(input@)) == Some(encode_utf8(text@)),
            None => encoded(enc, tree, encode_utf8(input@)) is None,
        } by {
            match tree {
                Some(t) => {
                    assert(tape@ == tree_nodes(t, 0));
                },
                None => {
                    if let Some(text) = body {
                        assert(text@ =~= Seq::<char>::empty());
                    }
                },
            }
        }
    }
    match body {
        Some(text) => Some(framed(enc, text.as_str())),
        None => None,
    }
}

/// What [`select`] decided: the winner, its rendering, and the estimates.
pub struct Selection {
    /// The winner, [`Encoder::Passthrough`] if nothing beat the input.
    pub encoder: Encoder,
    /// The whole rendering, sentinel line and all.
    pub rendering: String,
    /// Estimated tokens of the input.
    pub est_tokens_before: usize,
    /// Estimated tokens of the rendering; for [`Encoder::Passthrough`] those of the input,
    /// so that its sentinel does not count as harm.
    pub est_tokens_after: usize,
}

/// Basis points in a whole.
pub const BPS_SCALE: u64 = 10_000;

/// A number as a `u64`, which stops at its end.
pub open spec fn saturated(n: int) -> int {
    if n > u64::MAX {
        u64::MAX as int
    } else {
        n
    }
}

/// Whether going from `before` to `after` tokens saves something, and at least `bps` basis
/// points of `before`. Both products are counted in `u64`.
pub open spec fn clears(after: int, before: int, bps: int) -> bool {
    &&& after < before
    &&& saturated((before - after) * BPS_SCALE) >= saturated(before * bps)
}

/// Whether an estimate and an id go before another pair: fewer tokens, or as many and a lower
/// id.
pub open spec fn goes_before(est: int, id: int, other_est: int, other_id: int) -> bool {
    est < other_est || (est == other_est && id < other_id)
}

/// Whether a saving is large enough to keep a rendering.
///
/// The strict comparison is unconditional, so that no margin relaxes it; the margin is
/// compared by cross-multiplication, which stays exact.
pub fn clears_margin(est_after: usize, est_before: usize, bps: u32) -> (keep: bool)
    ensures
        keep == clears(est_after as int, est_before as int, bps as int),
{
    if est_after >= est_before {
        return false;
    }
    let saved: u64 = (est_before - est_after) as u64;
    let scaled: u64 = match saved.checked_mul(BPS_SCALE) {
        Some(product) => product,
        None => u64::MAX,
    };
    let wanted: u64 = match (est_before as u64).checked_mul(bps as u64) {
        Some(product) => product,
        None => u64::MAX,
    };
    scaled >= wanted
}

/// Whether a candidate replaces the best so far.
pub fn prefers(new_est: usize, new_id: u8, best_est: usize, best_id: u8) -> (better: bool)
    ensures
        better == goes_before(new_est as int, new_id as int, best_est as int, best_id as int),
{
    new_est < best_est || (new_est == best_est && new_id < best_id)
}

/// What a model charges for an encoder's rendering.
pub open spec fn price<E: TokenEstimator + ?Sized>(
    model: &E,
    enc: Encoder,
    tree: Option<Tree>,
    s: Seq<u8>,
) -> int {
    match offer(enc, tree, s) {
        Some(text) => model.tokens(text) as int,
        None => 0,
    }
}

/// Whether an encoder's rendering is kept by the candidate rule.
pub open spec fn kept<E: TokenEstimator + ?Sized>(
    model: &E,
    enc: Encoder,
    tree: Option<Tree>,
    s: Seq<u8>,
    bps: int,
) -> bool {
    &&& enc !is Passthrough
    &&& offer(enc, tree, s) is Some
    &&& clears(price(model, enc, tree, s), model.tokens(s) as int, bps)
}

/// Whether an encoder is the one that wins: its rendering is kept, and goes before every
/// other that is.
pub open spec fn wins<E: TokenEstimator + ?Sized>(
    model: &E,
    enc: Encoder,
    tree: Option<Tree>,
    s: Seq<u8>,
    enabled: Seq<Encoder>,
    bps: int,
) -> bool {
    &&& enabled.contains(enc)
    &&& kept(model, enc, tree, s, bps)
    &&& forall|other: Encoder|
        #![trigger enabled.contains(other)]
        enabled.contains(other) && kept(model, other, tree, s, bps) && other != enc
            ==> goes_before(
            price(model, enc, tree, s),
            enc.number() as int,
            price(model, other, tree, s),
            other.number() as int,
        )
}

/// The encoder that the candidate rule selects.
pub open spec fn selected<E: TokenEstimator + ?Sized>(
    model: &E,
    tree: Option<Tree>,
    s: Seq<u8>,
    enabled: Seq<Encoder>,
    bps: int,
) -> Encoder {
    if exists|enc: Encoder| wins(model, enc, tree, s, enabled, bps) {
        choose|enc: Encoder| wins(model, enc, tree, s, enabled, bps)
    } else {
        Encoder::Passthrough
    }
}

/// Whether a model can rate the input and every candidate.
pub open spec fn weighable<E: TokenEstimator + ?Sized>(
    model: &E,
    tree: Option<Tree>,
    s: Seq<u8>,
    enabled: Seq<Encoder>,
) -> bool {
    &&& model.rates(s)
    &&& forall|enc: Encoder|
        #![trigger enabled.contains(enc)]
        enabled.contains(enc) && enc !is Passthrough ==> match offer(enc, tree, s) {
            Some(text) => model.rates(text),
            None => true,
        }
}

/// Whether a model can rate the input and every candidate.
pub fn can_weigh<E: CheckedEstimator + ?Sized>(
    tape: &Tape,
    input: &str,
    estimator: &E,
    enabled: &[Encoder],
) -> (ok: bool)
    ensures
        forall|tree: Option<Tree>|
            #[trigger] records(tape@, tree) ==> ok == weighable(
                estimator,
                tree,
                encode_utf8(input@),
                enabled@,
            ),
{
    let ghost s = encode_utf8(input@);
    if !estimator.can_rate(input) {
        return false;
    }
    let n: usize = enabled.len();
    let mut i: usize = 0;
    while i < n
        invariant
            n == enabled@.len(),
            i <= n,
            s == encode_utf8(input@),
            estimator.rates(s),
            forall|tree: Option<Tree>, k: int|
                #![trigger records(tape@, tree), enabled@[k]]
                records(tape@, tree) && 0 <= k < i && enabled@[k] !is Passthrough ==> match offer(
                    enabled@[k],
                    tree,
                    s,
                ) {
                    Some(text) => estimator.rates(text),
                    None => true,
                },
        decreases n - i,
    {
        let enc: Encoder = enabled[i];
        match enc {
            Encoder::Passthrough => {},
            _ => {
                if let Some(text) = render(enc, tape, input) {
                    if !estimator.can_rate(text.as_str()) {
                        proof {
                            assert(enabled@.contains(enc));
                        }
                        return false;
                    }
                }
            },
        }
        i = i + 1;
    }
    proof {
        assert forall|tree: Option<Tree>| #[trigger] records(tape@, tree) implies weighable(
            estimator,
            tree,
            s,
            enabled@,
        ) by {
            assert forall|enc: Encoder|
                #![trigger enabled@.contains(enc)]
                enabled@.contains(enc) && enc !is Passthrough implies match offer(enc, tree, s) {
                Some(text) => estimator.rates(text),
                None => true,
            } by {
                let k = enabled@.index_of(enc);
                assert(enabled@[k] == enc);
            }
        }
    }
    true
}

/// Whether `r` is what the candidate rule decides.
pub open spec fn decides<E: TokenEstimator + ?Sized>(
    r: Selection,
    model: &E,
    tree: Option<Tree>,
    s: Seq<u8>,
    enabled: Seq<Encoder>,
    bps: int,
) -> bool {
    &&& r.encoder == selected(model, tree, s, enabled, bps)
    &&& offer(r.encoder, tree, s) == Some(encode_utf8(r.rendering@))
    &&& r.est_tokens_before == model.tokens(s)
    &&& r.est_tokens_after == (if r.encoder is Passthrough {
        model.tokens(s)
    } else {
        model.tokens(encode_utf8(r.rendering@))
    })
}

/// Apply the candidate rule.
///
/// `enabled` lists the encoders to try; [`Encoder::Passthrough`] in it is skipped, as it is
/// what the rule falls back to. `min_saving_bps` is the margin, in basis points of the input's
/// estimate; at `0` every strict win is kept.
pub fn select<E: TokenEstimator + ?Sized>(
    tape: &Tape,
    input: &str,
    estimator: &E,
    enabled: &[Encoder],
    min_saving_bps: u32,
) -> (r: Selection)
    requires
        forall|tree: Option<Tree>|
            #[trigger] records(tape@, tree) ==> weighable(
                estimator,
                tree,
                encode_utf8(input@),
                enabled@,
            ),
    ensures
        forall|tree: Option<Tree>|
            #[trigger] records(tape@, tree) ==> decides(
                r,
                estimator,
                tree,
                encode_utf8(input@),
                enabled@,
                min_saving_bps as int,
            ),
{
    let ghost s = encode_utf8(input@);
    let ghost bps = min_saving_bps as int;
    let nodes = tape.nodes();
    let ghost tree: Option<Tree> = if nodes@.len() == 0 {
        None
    } else {
        Some(choose|t: Tree| recordable(t) && nodes@ == #[trigger] tree_nodes(t, 0))
    };
    proof {
        assert(is_tape(nodes@));
        assert(records(tape@, tree));
    }
    let est_before: usize = estimator.estimate(input);
    let mut best: Option<(usize, Encoder, String)> = None;
    let n: usize = enabled.len();
    let mut i: usize = 0;
    while i < n
        invariant
            n == enabled@.len(),
            i <= n,
            s == encode_utf8(input@),
            bps == min_saving_bps,
            records(tape@, tree),
            weighable(estimator, tree, s, enabled@),
            est_before == estimator.tokens(s),
            best_so_far(best, estimator, tree, s, enabled@.take(i as int), bps),
        decreases n - i,
    {
        let enc: Encoder = enabled[i];
        let ghost seen = enabled@.take(i as int);
        let ghost now = enabled@.take(i + 1);
        proof {
            assert(now =~= seen.push(enc));
            assert(enabled@.contains(enc));
            lemma_seen(seen, enc);
        }
        i = i + 1;
        if let Encoder::Passthrough = enc {
            continue ;
        }
        let candidate = match render(enc, tape, input) {
            Some(text) => text,
            None => {
                continue ;
            },
        };
        let est: usize = estimator.estimate(candidate.as_str());
        if !clears_margin(est, est_before, min_saving_bps) {
            continue ;
        }
        let better = match &best {
            None => true,
            Some((best_est, best_enc, _)) => prefers(est, enc.id(), *best_est, best_enc.id()),
        };
        if better {
            best = Some((est, enc, candidate));
        }
    }
    let r = match best {
        Some((est_after, encoder, rendering)) => Selection {
            encoder,
            rendering,
            est_tokens_before: est_before,
            est_tokens_after: est_after,
        },
        None => Selection {
            encoder: Encoder::Passthrough,
            rendering: framed(Encoder::Passthrough, input),
            est_tokens_before: est_before,
            est_tokens_after: est_before,
        },
    };
    proof {
        assert(enabled@.take(n as int) =~= enabled@);
        if r.encoder is Passthrough {
            assert(forall|enc: Encoder| !wins(estimator, enc, tree, s, enabled@, bps));
        } else {
            lemma_selected(estimator, r.encoder, tree, s, enabled@, bps);
        }
        assert forall|t: Option<Tree>| #[trigger] records(tape@, t) implies decides(
            r,
            estimator,
            t,
            s,
            enabled@,
            bps,
        ) by {
            lemma_selected_same(estimator, tape@, tree, t, s, enabled@, bps);
            lemma_offer(r.encoder, tape@, tree, t, s);
        }
    }
    r
}

/// What is held after the encoders `seen`: the winner among them, or nothing if none is kept.
spec fn best_so_far<E: TokenEstimator + ?Sized>(
    best: Option<(usize, Encoder, String)>,
    model: &E,
    tree: Option<Tree>,
    s: Seq<u8>,
    seen: Seq<Encoder>,
    bps: int,
) -> bool {
    match best {
        None => forall|enc: Encoder|
            #![trigger seen.contains(enc)]
            seen.contains(enc) ==> !kept(model, enc, tree, s, bps),
        Some((est, enc, text)) => {
            &&& wins(model, enc, tree, s, seen, bps)
            &&& offer(enc, tree, s) == Some(encode_utf8(text@))
            &&& est == model.tokens(encode_utf8(text@))
        },
    }
}

proof fn lemma_seen(seen: Seq<Encoder>, enc: Encoder)
    ensures
        forall|other: Encoder|
            #![trigger seen.push(enc).contains(other)]
            seen.push(enc).contains(other) <==> seen.contains(other) || other == enc,
{
    assert forall|other: Encoder| #![trigger seen.push(enc).contains(other)] seen.contains(other)
        || other == enc implies seen.push(enc).contains(other) by {
        if seen.contains(other) {
            let k = seen.index_of(other);
            assert(seen.push(enc)[k] == other);
        } else {
            assert(seen.push(enc)[seen.len() as int] == enc);
        }
    }
    assert forall|other: Encoder| #![trigger seen.push(enc).contains(other)] seen.push(
        enc,
    ).contains(other) implies seen.contains(other) || other == enc by {
        let k = seen.push(enc).index_of(other);
        if k < seen.len() {
            assert(seen[k] == other);
        }
    }
}

/// An encoder that wins is the one that is selected.
pub proof fn lemma_selected<E: TokenEstimator + ?Sized>(
    model: &E,
    enc: Encoder,
    tree: Option<Tree>,
    s: Seq<u8>,
    enabled: Seq<Encoder>,
    bps: int,
)
    requires
        wins(model, enc, tree, s, enabled, bps),
    ensures
        selected(model, tree, s, enabled, bps) == enc,
{
    let other = choose|e: Encoder| wins(model, e, tree, s, enabled, bps);
    assert(wins(model, other, tree, s, enabled, bps));
    assert(enabled.contains(other));
    assert(enabled.contains(enc));
}

/// The selection depends on a tape's nodes alone.
proof fn lemma_selected_same<E: TokenEstimator + ?Sized>(
    model: &E,
    nodes: Seq<Node>,
    a: Option<Tree>,
    b: Option<Tree>,
    s: Seq<u8>,
    enabled: Seq<Encoder>,
    bps: int,
)
    requires
        records(nodes, a),
        records(nodes, b),
    ensures
        selected(model, a, s, enabled, bps) == selected(model, b, s, enabled, bps),
{
    assert forall|enc: Encoder| #[trigger] offer(enc, a, s) == offer(enc, b, s) by {
        lemma_offer(enc, nodes, a, b, s);
    }
    assert forall|enc: Encoder| #[trigger]
        wins(model, enc, a, s, enabled, bps) implies wins(model, enc, b, s, enabled, bps) by {}
    assert forall|enc: Encoder| #[trigger]
        wins(model, enc, b, s, enabled, bps) implies wins(model, enc, a, s, enabled, bps) by {}
    if exists|enc: Encoder| wins(model, enc, a, s, enabled, bps) {
        let enc = choose|enc: Encoder| wins(model, enc, a, s, enabled, bps);
        lemma_selected(model, enc, a, s, enabled, bps);
        lemma_selected(model, enc, b, s, enabled, bps);
    }
}

/// Do no harm: a rendering that is selected costs fewer tokens than the input, by the margin,
/// and the fallback is reported at the input's own cost.
pub proof fn law_do_no_harm<E: TokenEstimator + ?Sized>(
    r: Selection,
    model: &E,
    tree: Option<Tree>,
    s: Seq<u8>,
    enabled: Seq<Encoder>,
    bps: int,
)
    requires
        decides(r, model, tree, s, enabled, bps),
    ensures
        r.est_tokens_after <= r.est_tokens_before,
        r.encoder is Passthrough ==> r.est_tokens_after == r.est_tokens_before,
        r.encoder !is Passthrough ==> enabled.contains(r.encoder) && clears(
            r.est_tokens_after as int,
            r.est_tokens_before as int,
            bps,
        ),
{
    if exists|enc: Encoder| wins(model, enc, tree, s, enabled, bps) {
        assert(wins(model, r.encoder, tree, s, enabled, bps));
    }
}

/// The selection does not depend on the order in which the encoders are listed, nor on how
/// often one is.
pub proof fn law_selection_ignores_order<E: TokenEstimator + ?Sized>(
    model: &E,
    tree: Option<Tree>,
    s: Seq<u8>,
    a: Seq<Encoder>,
    b: Seq<Encoder>,
    bps: int,
)
    requires
        forall|enc: Encoder| a.contains(enc) == b.contains(enc),
    ensures
        selected(model, tree, s, a, bps) == selected(model, tree, s, b, bps),
{
    assert forall|enc: Encoder| #[trigger] wins(model, enc, tree, s, a, bps) implies wins(
        model,
        enc,
        tree,
        s,
        b,
        bps,
    ) by {
        assert(b.contains(enc));
    }
    assert forall|enc: Encoder| #[trigger] wins(model, enc, tree, s, b, bps) implies wins(
        model,
        enc,
        tree,
        s,
        a,
        bps,
    ) by {
        assert(a.contains(enc));
    }
    if exists|enc: Encoder| wins(model, enc, tree, s, a, bps) {
        let enc = choose|enc: Encoder| wins(model, enc, tree, s, a, bps);
        lemma_selected(model, enc, tree, s, a, bps);
        lemma_selected(model, enc, tree, s, b, bps);
    }
}

/// The tabular encoder puts a rendering forward for every document in which two elements of
/// some array of objects have the same keys, unless being empty is what most of the objects
/// share. Neither the length of the text nor the place of the array matters.
pub proof fn law_like_objects_are_tabulated(
    s: Seq<u8>,
    limit: int,
    items: Seq<Json>,
    i: int,
    k: int,
)
    requires
        valid_utf8(s),
        document(s, limit) is Ok,
        part_of(Json::Array(items), doc(document(s, limit)->Ok_0, s)),
        0 <= i < k < items.len(),
        forall|n: int| 0 <= n < items.len() ==> (#[trigger] items[n]) is Object,
        key_lists(items)[i] == key_lists(items)[k],
        key_lists(items)[i].len() > 0,
        hoistable(items, machine_digest()),
    ensures
        ({
            let tree = document(s, limit)->Ok_0;
            let j = doc(tree, s);
            &&& offer(Encoder::E2Tabular, Some(tree), s) == Some(
                sentinel(Encoder::E2Tabular) + tabular(j, machine_digest()),
            )
            &&& reconstruct(tabular(j, machine_digest())) == minified(j, Style::Verbatim)
        }),
{
    lemma_document_read(s, limit);
    assert(all_objects(items));
    law_shared_keys_are_hoisted(items, machine_digest(), i, k);
    law_any_array_makes_a_table(items, doc(document(s, limit)->Ok_0, s), machine_digest());
    law_tabular_reconstructs(doc(document(s, limit)->Ok_0, s), machine_digest());
}

/// The tabular encoder puts a rendering forward exactly if some array of the document has a
/// header, and then it is the tabular form.
pub proof fn law_tabular_encoder_applies(s: Seq<u8>, limit: int)
    requires
        valid_utf8(s),
        document(s, limit) is Ok,
    ensures
        ({
            let tree = document(s, limit)->Ok_0;
            let j = doc(tree, s);
            &&& offer(Encoder::E2Tabular, Some(tree), s) is Some <==> exists|items: Seq<Json>|
                #[trigger] part_of(Json::Array(items), j) && header(items, machine_digest()) is Some
            &&& offer(Encoder::E2Tabular, Some(tree), s) matches Some(text) ==> text == sentinel(
                Encoder::E2Tabular,
            ) + tabular(j, machine_digest())
        }),
{
    lemma_document_read(s, limit);
    let j = doc(document(s, limit)->Ok_0, s);
    if has_table(j, machine_digest()) {
        law_a_table_needs_an_array(j, machine_digest());
    }
    if exists|items: Seq<Json>|
        #[trigger] part_of(Json::Array(items), j) && header(items, machine_digest()) is Some {
        let items = choose|items: Seq<Json>|
            #[trigger] part_of(Json::Array(items), j) && header(items, machine_digest()) is Some;
        law_any_array_makes_a_table(items, j, machine_digest());
    }
}

/// The minifier puts a rendering forward for every document: a text of JSON that means the
/// same, and the same again if it is minified once more.
pub proof fn law_minifier_applies(s: Seq<u8>, limit: int)
    requires
        0 <= limit,
        valid_utf8(s),
        document(s, limit) is Ok,
    ensures
        ({
            let tree = document(s, limit)->Ok_0;
            let body = minified(doc(tree, s), Style::Canonical);
            &&& offer(Encoder::E1Minify, Some(tree), s) == Some(sentinel(Encoder::E1Minify) + body)
            &&& document(body, limit) matches Ok(again) && meaning(doc(again, body)) == meaning(
                doc(tree, s),
            ) && minified(doc(again, body), Style::Canonical) == body
        }),
{
    lemma_document_read(s, limit);
    let j = doc(document(s, limit)->Ok_0, s);
    law_minified_reads_back(j, Style::Canonical, limit);
    law_minified_twice(j, Style::Canonical, limit);
}

/// The fallback is the input itself behind its sentinel, whatever the input.
pub proof fn law_passthrough_applies(tree: Option<Tree>, s: Seq<u8>)
    ensures
        offer(Encoder::Passthrough, tree, s) == Some(sentinel(Encoder::Passthrough) + s),
{
}

/// A margin of nothing keeps every strict win; no margin keeps anything else.
pub proof fn law_zero_margin(after: int, before: int, bps: int)
    requires
        0 <= after,
        0 <= bps,
    ensures
        clears(after, before, 0) <==> after < before,
        clears(after, before, bps) ==> after < before,
{
}

/// A margin of everything keeps only what costs nothing, for estimates whose ten-thousandfold
/// a `u64` holds.
pub proof fn law_full_margin(after: int, before: int)
    requires
        0 <= after,
        before * BPS_SCALE <= u64::MAX,
    ensures
        clears(after, before, BPS_SCALE as int) <==> after == 0 < before,
{
}

/// What the margin asks for: in basis points of the estimate before, the saving is at least
/// the margin. This is exact for every margin up to everything, and estimates whose
/// ten-thousandfold a `u64` holds; whatever the margin, only a saving is kept.
pub proof fn law_margin_is_the_share_saved(after: int, before: int, bps: int)
    requires
        0 <= after,
        0 <= bps <= 10_000,
        before * 10_000 <= u64::MAX,
    ensures
        clears(after, before, bps) <==> after < before && (before - after) * 10_000 >= before * bps,
{
    if after < before {
        assert(before * bps <= before * 10_000) by (nonlinear_arith)
            requires
                0 <= before,
                bps <= 10_000,
        ;
    }
}

/// Past what a `u64` holds both products stop at its end: a saving that large is kept whatever
/// the margin, and one that is not is held to no more than the end.
pub proof fn law_margin_past_the_end(after: int, before: int, bps: int)
    requires
        0 <= after < before,
        0 <= bps,
    ensures
        (before - after) * 10_000 >= u64::MAX ==> clears(after, before, bps),
        (before - after) * 10_000 < u64::MAX && before * bps <= u64::MAX ==> (clears(
            after,
            before,
            bps,
        ) <==> (before - after) * 10_000 >= before * bps),
        (before - after) * 10_000 < u64::MAX < before * bps ==> !clears(after, before, bps),
{
}

/// The candidate rule, in numbers. What is selected saves the margin; nothing that was enabled
/// and saves the margin costs less, nor as much with a lower id; and only if nothing saves the
/// margin is the input itself the answer, behind its sentinel and at its own cost.
#[verifier::spinoff_prover]
#[verifier::rlimit(40)]
pub proof fn law_cheapest_saving_is_selected<E: TokenEstimator + ?Sized>(
    r: Selection,
    model: &E,
    tree: Option<Tree>,
    s: Seq<u8>,
    enabled: Seq<Encoder>,
    bps: int,
)
    requires
        decides(r, model, tree, s, enabled, bps),
        0 <= bps <= 10_000,
        model.tokens(s) * 10_000 <= u64::MAX,
    ensures
        r.est_tokens_before == model.tokens(s),
        r.encoder is Passthrough ==> {
            &&& encode_utf8(r.rendering@) == sentinel(Encoder::Passthrough) + s
            &&& r.est_tokens_after == model.tokens(s)
        },
        r.encoder !is Passthrough ==> {
            &&& enabled.contains(r.encoder)
            &&& offer(r.encoder, tree, s) == Some(encode_utf8(r.rendering@))
            &&& r.est_tokens_after == model.tokens(encode_utf8(r.rendering@))
            &&& r.est_tokens_after < r.est_tokens_before
            &&& (r.est_tokens_before - r.est_tokens_after) * 10_000 >= r.est_tokens_before * bps
        },
        forall|enc: Encoder, text: Seq<u8>|
            #![trigger enabled.contains(enc), model.tokens(text)]
            enabled.contains(enc) && enc !is Passthrough && offer(enc, tree, s) == Some(text)
                && model.tokens(text) < model.tokens(s) && (model.tokens(s) - model.tokens(text))
                * 10_000 >= model.tokens(s) * bps ==> {
                &&& r.encoder !is Passthrough
                &&& r.est_tokens_after <= model.tokens(text)
                &&& enc is E1Minify && r.encoder is E2Tabular ==> r.est_tokens_after
                    < model.tokens(text)
            },
{
    let before = model.tokens(s) as int;
    let some = exists|enc: Encoder| wins(model, enc, tree, s, enabled, bps);
    if some {
        assert(wins(model, r.encoder, tree, s, enabled, bps));
        law_margin_is_the_share_saved(price(model, r.encoder, tree, s), before, bps);
    }
    assert forall|enc: Encoder, text: Seq<u8>|
        #![trigger enabled.contains(enc), model.tokens(text)]
        enabled.contains(enc) && enc !is Passthrough && offer(enc, tree, s) == Some(text)
            && model.tokens(text) < model.tokens(s) && (model.tokens(s) - model.tokens(text))
            * 10_000 >= model.tokens(s) * bps implies {
        &&& r.encoder !is Passthrough
        &&& r.est_tokens_after <= model.tokens(text)
        &&& enc is E1Minify && r.encoder is E2Tabular ==> r.est_tokens_after < model.tokens(text)
    } by {
        law_margin_is_the_share_saved(model.tokens(text) as int, before, bps);
        assert(kept(model, enc, tree, s, bps));
        if !some {
            lemma_some_wins(model, enc, tree, s, enabled, bps);
        }
    }
}

/// If a rendering is kept, one wins.
proof fn lemma_some_wins<E: TokenEstimator + ?Sized>(
    model: &E,
    enc: Encoder,
    tree: Option<Tree>,
    s: Seq<u8>,
    enabled: Seq<Encoder>,
    bps: int,
)
    requires
        enabled.contains(enc),
        kept(model, enc, tree, s, bps),
    ensures
        exists|e: Encoder| wins(model, e, tree, s, enabled, bps),
{
    let other = if enc is E1Minify {
        Encoder::E2Tabular
    } else {
        Encoder::E1Minify
    };
    if enabled.contains(other) && kept(model, other, tree, s, bps) && goes_before(
        price(model, other, tree, s),
        other.number() as int,
        price(model, enc, tree, s),
        enc.number() as int,
    ) {
        assert(wins(model, other, tree, s, enabled, bps));
    } else {
        assert(wins(model, enc, tree, s, enabled, bps));
    }
}

proof fn lemma_clears_grows(after: int, before: int, low: int, high: int)
    requires
        low <= high,
        clears(after, before, high),
        0 <= after,
    ensures
        clears(after, before, low),
{
    assert(before * low <= before * high) by (nonlinear_arith)
        requires
            0 <= before,
            low <= high,
    ;
}

/// Raising the margin only removes winners: the selection stays as it is or becomes the
/// fallback.
pub proof fn law_margin_only_removes<E: TokenEstimator + ?Sized>(
    model: &E,
    tree: Option<Tree>,
    s: Seq<u8>,
    enabled: Seq<Encoder>,
    low: int,
    high: int,
)
    requires
        low <= high,
    ensures
        selected(model, tree, s, enabled, high) == selected(model, tree, s, enabled, low)
            || selected(model, tree, s, enabled, high) is Passthrough,
{
    if exists|enc: Encoder| wins(model, enc, tree, s, enabled, high) {
        let enc = choose|enc: Encoder| wins(model, enc, tree, s, enabled, high);
        lemma_clears_grows(price(model, enc, tree, s), model.tokens(s) as int, low, high);
        assert forall|other: Encoder|
            #![trigger enabled.contains(other)]
            enabled.contains(other) && kept(model, other, tree, s, low) && other
                != enc implies goes_before(
            price(model, enc, tree, s),
            enc.number() as int,
            price(model, other, tree, s),
            other.number() as int,
        ) by {
            if price(model, other, tree, s) <= price(model, enc, tree, s) {
                assert(kept(model, other, tree, s, high));
            }
        }
        assert(wins(model, enc, tree, s, enabled, low));
        lemma_selected(model, enc, tree, s, enabled, low);
        lemma_selected(model, enc, tree, s, enabled, high);
    }
}

/// The tag of an encoder, as bytes.
spec fn tag_bytes(enc: Encoder) -> Seq<u8> {
    match enc {
        Encoder::Passthrough => seq![0x72u8, 0x61, 0x77],
        Encoder::E1Minify => seq![0x6Du8, 0x69, 0x6E],
        Encoder::E2Tabular => seq![0x74u8, 0x62, 0x6C],
    }
}

/// The bytes of a sentinel line.
proof fn lemma_sentinel(enc: Encoder)
    ensures
        sentinel(enc) == seq![
            0xE2u8,
            0x9F,
            0xA6,
            0x74,
            0x6B,
            0x66,
            0x64,
            0x3A,
            0x76,
            0x31,
            0x3A,
        ] + tag_bytes(enc) + seq![0xE2u8, 0x9F, 0xA7, 0x0A],
{
    reveal_strlit("\u{27E6}tkfd:v1:");
    reveal_strlit("raw");
    reveal_strlit("min");
    reveal_strlit("tbl");
    let middle = SENTINEL_OPEN@.drop_first() + enc.label();
    let line = SENTINEL_OPEN@ + enc.label();
    assert(line =~= seq!['\u{27E6}'] + middle);
    lemma_encode_concat(seq!['\u{27E6}'], middle);
    lemma_encode_push(Seq::empty(), '\u{27E6}');
    assert(Seq::<char>::empty().push('\u{27E6}') =~= seq!['\u{27E6}']);
    lemma_encode_push(line, SENTINEL_CLOSE);
    lemma_encode_push(line.push(SENTINEL_CLOSE), '\n');
    is_ascii_chars_encode_utf8(middle);
    assert(encode_scalar(0x27E6) =~= seq![0xE2u8, 0x9F, 0xA6]) by {
        lemma_three_bytes(0x27E6);
    }
    assert(encode_scalar(0x27E7) =~= seq![0xE2u8, 0x9F, 0xA7]) by {
        lemma_three_bytes(0x27E7);
    }
    lemma_encode_ascii(0x0A);
    assert(encode_utf8(Seq::<char>::empty()) =~= Seq::<u8>::empty());
    assert(sentinel(enc) =~= encode_scalar(0x27E6) + encode_utf8(middle) + encode_scalar(0x27E7)
        + encode_scalar(0x0A));
}

/// The encoding of the two sentinel brackets.
proof fn lemma_three_bytes(v: u32)
    requires
        0x27C0 <= v <= 0x27FF,
    ensures
        encode_scalar(v) == seq![0xE2u8, 0x9F, (v - 0x2740) as u8],
{
    assert((0xE0u8 | ((v >> 12) & 0x0F) as u8) == 0xE2 && (0x80u8 | ((v >> 6) & 0x3F) as u8) == 0x9F
        && (0x80u8 | (v & 0x3F) as u8) == v - 0x2740) by (bit_vector)
        requires
            0x27C0 <= v <= 0x27FF,
    ;
}

/// Renderings of different encoders are different, and renderings of one encoder are equal
/// only if their bodies are.
pub proof fn law_frames_are_distinct(a: Encoder, b: Encoder, x: Seq<u8>, y: Seq<u8>)
    requires
        frame(a, x) == frame(b, y),
    ensures
        a == b,
        x == y,
{
    lemma_sentinel(a);
    lemma_sentinel(b);
    assert(frame(a, x)[11] == tag_bytes(a)[0]);
    assert(frame(b, y)[11] == tag_bytes(b)[0]);
    assert(x =~= frame(a, x).skip(18));
    assert(y =~= frame(b, y).skip(18));
}

/// The sentinel line of each encoder, byte for byte: an opening bracket, `tkfd:v1:`, the tag
/// `raw`, `min` or `tbl`, a closing bracket and a newline.
pub proof fn law_sentinel_lines()
    ensures
        sentinel(Encoder::Passthrough) == seq![
            0xE2u8, 0x9F, 0xA6, 0x74, 0x6B, 0x66, 0x64, 0x3A, 0x76, 0x31, 0x3A, 0x72, 0x61, 0x77,
            0xE2, 0x9F, 0xA7, 0x0A,
        ],
        sentinel(Encoder::E1Minify) == seq![
            0xE2u8, 0x9F, 0xA6, 0x74, 0x6B, 0x66, 0x64, 0x3A, 0x76, 0x31, 0x3A, 0x6D, 0x69, 0x6E,
            0xE2, 0x9F, 0xA7, 0x0A,
        ],
        sentinel(Encoder::E2Tabular) == seq![
            0xE2u8, 0x9F, 0xA6, 0x74, 0x6B, 0x66, 0x64, 0x3A, 0x76, 0x31, 0x3A, 0x74, 0x62, 0x6C,
            0xE2, 0x9F, 0xA7, 0x0A,
        ],
{
    lemma_sentinel(Encoder::Passthrough);
    lemma_sentinel(Encoder::E1Minify);
    lemma_sentinel(Encoder::E2Tabular);
}

/// A sentinel line has 18 bytes.
pub proof fn law_sentinel_length(enc: Encoder)
    ensures
        sentinel(enc).len() == 18,
{
    lemma_sentinel(enc);
}

/// What the fallback's sentinel costs by the heuristic: ten tokens, or eleven if the input
/// begins with exactly one whitespace byte, which then makes a run with the newline before
/// it.
#[verifier::spinoff_prover]
#[verifier::rlimit(30)]
pub proof fn law_sentinel_cost(body: Seq<u8>)
    ensures
        heuristic_tokens(frame(Encoder::Passthrough, body)) == heuristic_tokens(body) + (
        if body.len() > 0 && class_of(body[0]) is Blank && (body.len() == 1 || class_of(
            body[1],
        ) !is Blank) {
            11nat
        } else {
            10nat
        }),
{
    let text = frame(Encoder::Passthrough, body);
    lemma_sentinel(Encoder::Passthrough);
    assert(text.skip(0) =~= text);
    assert(text[0] == 0xE2 && text[1] == 0x9F && text[2] == 0xA6 && text[3] == 0x74 && text[4]
        == 0x6B && text[5] == 0x66 && text[6] == 0x64 && text[7] == 0x3A && text[8] == 0x76
        && text[9] == 0x31 && text[10] == 0x3A && text[11] == 0x72 && text[12] == 0x61 && text[13]
        == 0x77 && text[14] == 0xE2 && text[15] == 0x9F && text[16] == 0xA7 && text[17] == 0x0A);
    lemma_runs_cost_step(text, 0, Class::Mark, 0);
    lemma_runs_cost_step(text, 1, Class::Wide, 1);
    lemma_runs_cost_step(text, 2, Class::Wide, 2);
    lemma_runs_cost_step(text, 3, Class::Wide, 3);
    lemma_runs_cost_step(text, 4, Class::Word, 1);
    lemma_runs_cost_step(text, 5, Class::Word, 2);
    lemma_runs_cost_step(text, 6, Class::Word, 3);
    lemma_runs_cost_step(text, 7, Class::Word, 4);
    lemma_runs_cost_step(text, 8, Class::Mark, 1);
    lemma_runs_cost_step(text, 9, Class::Word, 1);
    lemma_runs_cost_step(text, 10, Class::Word, 2);
    lemma_runs_cost_step(text, 11, Class::Mark, 1);
    lemma_runs_cost_step(text, 12, Class::Word, 1);
    lemma_runs_cost_step(text, 13, Class::Word, 2);
    lemma_runs_cost_step(text, 14, Class::Word, 3);
    lemma_runs_cost_step(text, 15, Class::Wide, 1);
    lemma_runs_cost_step(text, 16, Class::Wide, 2);
    lemma_runs_cost_step(text, 17, Class::Wide, 3);
    assert(text.skip(18) =~= body);
    assert(heuristic_tokens(text) == 10 + runs_cost(body, Class::Blank, 1));
    assert(body.skip(0) =~= body);
    if body.len() > 0 {
        lemma_runs_cost_step(body, 0, Class::Mark, 0);
        lemma_runs_cost_step(body, 0, Class::Blank, 1);
        if class_of(body[0]) is Blank {
            lemma_blanks(body.skip(1), 1);
        }
    }
}

/// A run of blanks costs the same from two on, and nothing if it ends after one.
proof fn lemma_blanks(text: Seq<u8>, len: nat)
    requires
        len >= 1,
    ensures
        runs_cost(text, Class::Blank, len + 1) == runs_cost(text, Class::Blank, len) + (if len == 1
            && (text.len() == 0 || class_of(text[0]) !is Blank) {
            1nat
        } else {
            0nat
        }),
    decreases text.len(),
{
    if text.len() > 0 && class_of(text[0]) is Blank {
        lemma_blanks(text.drop_first(), len + 1);
    }
}

/// Fewer tokens go before more, whatever the ids; of equal costs the lower id does; and nothing
/// goes before itself.
pub proof fn law_preference(a: int, i: int, b: int, k: int)
    ensures
        a < b ==> goes_before(a, i, b, k) && !goes_before(b, k, a, i),
        a == b && i < k ==> goes_before(a, i, b, k) && !goes_before(b, k, a, i),
        !goes_before(a, i, a, i),
{
}

/// The frozen ids.
pub proof fn law_encoder_ids()
    ensures
        Encoder::Passthrough.number() == 0,
        Encoder::E1Minify.number() == 1,
        Encoder::E2Tabular.number() == 2,
{
}

/// Both encoders need every lexeme of the tree to lie in the text; the minifier nothing else.
/// Of no nodes the minifier makes nothing, and the tabular encoder does not apply.
pub proof fn law_lexemes_must_lie_in_the_text(tree: Tree, s: Seq<u8>)
    ensures
        offer(Encoder::E1Minify, Some(tree), s) is Some <==> resolvable(tree, s),
        offer(Encoder::E2Tabular, Some(tree), s) is Some ==> resolvable(tree, s),
        offer(Encoder::E1Minify, None, s) == Some(sentinel(Encoder::E1Minify)),
        offer(Encoder::E2Tabular, None, s) is None,
        tree matches Tree::Leaf { kind, place } ==> (resolvable(tree, s) <==> 0 <= place.start
            <= place.end <= s.len() && is_char_boundary(s, place.start) && is_char_boundary(
            s,
            place.end,
        )),
{
    assert(sentinel(Encoder::E1Minify) + Seq::<u8>::empty() =~= sentinel(Encoder::E1Minify));
}

} // verus!
