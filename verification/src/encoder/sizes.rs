//! How long a rendering can be.
//!
//! A minified document is no longer than the text it was read from, and its tables at most
//! triple it. A model that can rate every short text can therefore rate whatever the candidate
//! rule makes of a short input.

use crate::ascii::{COMMA, LBRACE, LBRACKET, QUOTE, RBRACKET};
use crate::encoder::tables::{
    codes_of, header, hoisted, is_leader, key_fields, keys_of, machine_digest, members_of,
    pair_fields, row, rows, tabular, tabular_items, tabular_members, value_fields,
};
use crate::encoder::{law_sentinel_length, offer, weighable, Encoder};
use crate::estimator::TokenEstimator;
use crate::grammar::{
    document, first_item, first_member, items, key, lemma_key, lemma_scalar, lemma_skip_space,
    lemma_value, members, more_items, more_members, next_member, skip_space, value,
};
use crate::json::{
    doc, item_docs, member_docs, minified, minified_items, minified_members, styled, Json, Style,
};
use crate::strings::{body, canonical_body, lemma_tail, quoted, tail};
use crate::text::decimal;
use vstd::prelude::*;

verus! {

// ---------------------------------------------------------------------------
// Minified documents
// ---------------------------------------------------------------------------

/// A value that is read between two offsets is written in no more bytes than lie between
/// them.
proof fn lemma_value_fits(s: Seq<u8>, i: int, depth: int, limit: int)
    requires
        0 <= i <= s.len(),
        value(s, i, depth, limit) is Ok,
    ensures
        ({
            let (tree, end) = value(s, i, depth, limit)->Ok_0;
            minified(doc(tree, s), Style::Verbatim).len() <= end - i
        }),
    decreases s.len() - i, 3int,
{
    lemma_skip_space(s, i);
    let p = skip_space(s, i);
    if s[p] == LBRACE {
        lemma_first_member_fits(s, p + 1, depth + 1, limit);
    } else if s[p] == LBRACKET {
        lemma_first_item_fits(s, p + 1, depth + 1, limit);
    } else {
        lemma_scalar(s, p);
    }
}

proof fn lemma_first_item_fits(s: Seq<u8>, i: int, depth: int, limit: int)
    requires
        0 <= i <= s.len(),
        first_item(s, i, depth, limit) is Ok,
    ensures
        ({
            let (ts, close) = first_item(s, i, depth, limit)->Ok_0;
            minified_items(item_docs(ts, s), Style::Verbatim, true).len() <= close - i
        }),
    decreases s.len() - i, 5int,
{
    lemma_skip_space(s, i);
    let p = skip_space(s, i);
    if s[p] != RBRACKET {
        lemma_items_fit(s, p, depth, limit);
    }
}

proof fn lemma_items_fit(s: Seq<u8>, i: int, depth: int, limit: int)
    requires
        0 <= i <= s.len(),
        items(s, i, depth, limit) is Ok,
    ensures
        ({
            let (ts, close) = items(s, i, depth, limit)->Ok_0;
            &&& minified_items(item_docs(ts, s), Style::Verbatim, true).len() <= close - i
            &&& minified_items(item_docs(ts, s), Style::Verbatim, false).len() <= close - i + 1
        }),
    decreases s.len() - i, 4int,
{
    lemma_value(s, i, depth, limit);
    lemma_value_fits(s, i, depth, limit);
    let (first, j) = value(s, i, depth, limit)->Ok_0;
    lemma_more_items_fit(s, j, depth, limit);
    let rest = more_items(s, j, depth, limit)->Ok_0.0;
    let all = seq![first] + rest;
    assert(all.drop_first() =~= rest);
    assert(item_docs(all, s).drop_first() =~= item_docs(rest, s));
}

proof fn lemma_more_items_fit(s: Seq<u8>, i: int, depth: int, limit: int)
    requires
        0 <= i <= s.len(),
        more_items(s, i, depth, limit) is Ok,
    ensures
        ({
            let (ts, close) = more_items(s, i, depth, limit)->Ok_0;
            minified_items(item_docs(ts, s), Style::Verbatim, false).len() <= close - i
        }),
    decreases s.len() - i, 2int,
{
    lemma_skip_space(s, i);
    let p = skip_space(s, i);
    if s[p] == COMMA {
        lemma_items_fit(s, p + 1, depth, limit);
    }
}

proof fn lemma_first_member_fits(s: Seq<u8>, i: int, depth: int, limit: int)
    requires
        0 <= i <= s.len(),
        first_member(s, i, depth, limit) is Ok,
    ensures
        ({
            let (ms, close) = first_member(s, i, depth, limit)->Ok_0;
            minified_members(member_docs(ms, s), Style::Verbatim, true).len() <= close - i
        }),
    decreases s.len() - i, 5int,
{
    lemma_skip_space(s, i);
    let p = skip_space(s, i);
    if s[p] == QUOTE {
        lemma_members_fit(s, p, depth, limit);
    }
}

proof fn lemma_members_fit(s: Seq<u8>, p: int, depth: int, limit: int)
    requires
        0 <= p < s.len(),
        s[p] == QUOTE,
        members(s, p, depth, limit) is Ok,
    ensures
        ({
            let (ms, close) = members(s, p, depth, limit)->Ok_0;
            &&& minified_members(member_docs(ms, s), Style::Verbatim, true).len() <= close - p
            &&& minified_members(member_docs(ms, s), Style::Verbatim, false).len() <= close - p + 1
        }),
    decreases s.len() - p, 4int,
{
    lemma_key(s, p);
    let (place, v) = key(s, p)->Ok_0;
    lemma_skip_space(s, place.end);
    lemma_value(s, v, depth, limit);
    lemma_value_fits(s, v, depth, limit);
    let (first, j) = value(s, v, depth, limit)->Ok_0;
    lemma_more_members_fit(s, j, depth, limit);
    let rest = more_members(s, j, depth, limit)->Ok_0.0;
    let all = seq![(place, first)] + rest;
    assert(all.drop_first() =~= rest);
    assert(member_docs(all, s).drop_first() =~= member_docs(rest, s));
}

proof fn lemma_next_member_fits(s: Seq<u8>, i: int, depth: int, limit: int)
    requires
        0 <= i <= s.len(),
        next_member(s, i, depth, limit) is Ok,
    ensures
        ({
            let (ms, close) = next_member(s, i, depth, limit)->Ok_0;
            minified_members(member_docs(ms, s), Style::Verbatim, false).len() <= close - i + 1
        }),
    decreases s.len() - i, 5int,
{
    lemma_skip_space(s, i);
    lemma_members_fit(s, skip_space(s, i), depth, limit);
}

proof fn lemma_more_members_fit(s: Seq<u8>, i: int, depth: int, limit: int)
    requires
        0 <= i <= s.len(),
        more_members(s, i, depth, limit) is Ok,
    ensures
        ({
            let (ms, close) = more_members(s, i, depth, limit)->Ok_0;
            minified_members(member_docs(ms, s), Style::Verbatim, false).len() <= close - i
        }),
    decreases s.len() - i, 2int,
{
    lemma_skip_space(s, i);
    let p = skip_space(s, i);
    if s[p] == COMMA {
        lemma_next_member_fits(s, p + 1, depth, limit);
    }
}

/// Canonical spelling never lengthens a string body.
proof fn lemma_canonical_body_fits(t: Seq<u8>)
    ensures
        canonical_body(t).len() <= t.len(),
    decreases t.len(),
{
    if t.len() > 0 {
        lemma_tail(t);
        lemma_canonical_body_fits(tail(t));
    }
}

proof fn lemma_styled_fits(l: Seq<u8>, style: Style)
    ensures
        styled(l, style).len() <= l.len(),
{
    if quoted(l) {
        lemma_canonical_body_fits(body(l));
    }
}

proof fn lemma_minified_fits(j: Json, style: Style)
    ensures
        minified(j, style).len() <= minified(j, Style::Verbatim).len(),
    decreases j,
{
    match j {
        Json::Scalar(_) => {},
        Json::String(l) => {
            lemma_styled_fits(l, style);
        },
        Json::Array(elements) => {
            lemma_minified_items_fit(elements, style, true);
        },
        Json::Object(pairs) => {
            lemma_minified_members_fit(pairs, style, true);
        },
    }
}

proof fn lemma_minified_items_fit(elements: Seq<Json>, style: Style, first: bool)
    ensures
        minified_items(elements, style, first).len() <= minified_items(
            elements,
            Style::Verbatim,
            first,
        ).len(),
    decreases elements,
{
    if elements.len() > 0 {
        lemma_minified_fits(elements[0], style);
        lemma_minified_items_fit(elements.drop_first(), style, false);
    }
}

proof fn lemma_minified_members_fit(pairs: Seq<(Seq<u8>, Json)>, style: Style, first: bool)
    ensures
        minified_members(pairs, style, first).len() <= minified_members(
            pairs,
            Style::Verbatim,
            first,
        ).len(),
    decreases pairs,
{
    if pairs.len() > 0 {
        lemma_styled_fits(pairs[0].0, style);
        lemma_minified_fits(pairs[0].1, style);
        lemma_minified_members_fit(pairs.drop_first(), style, false);
    }
}

/// A document is written without whitespace in no more bytes than it was read from.
pub proof fn law_minified_is_no_longer(s: Seq<u8>, limit: int, style: Style)
    requires
        document(s, limit) is Ok,
    ensures
        minified(doc(document(s, limit)->Ok_0, s), style).len() <= s.len(),
{
    lemma_value(s, 0, 0, limit);
    lemma_value_fits(s, 0, 0, limit);
    lemma_minified_fits(doc(document(s, limit)->Ok_0, s), style);
}

// ---------------------------------------------------------------------------
// Tables
// ---------------------------------------------------------------------------

/// The digits of a number are no more than the number, and one for nothing.
proof fn lemma_decimal_fits(n: nat)
    ensures
        decimal(n).len() == 1 || decimal(n).len() <= n,
    decreases n,
{
    if n >= 10 {
        lemma_decimal_fits(n / 10);
    }
}

/// The fields of a row, against the members of the object that it stands for.
proof fn lemma_fields_fit(pairs: Seq<(Seq<u8>, Json)>)
    ensures
        ({
            let len = minified_members(pairs, Style::Verbatim, false).len();
            &&& pair_fields(pairs).len() == len
            &&& value_fields(pairs).len() <= len
            &&& key_fields(keys_of(pairs)).len() <= len
            &&& 2 * pairs.len() <= len
        }),
    decreases pairs,
{
    if pairs.len() > 0 {
        lemma_fields_fit(pairs.drop_first());
        assert(keys_of(pairs).drop_first() =~= keys_of(pairs.drop_first()));
    }
}

proof fn lemma_row_fits(pairs: Seq<(Seq<u8>, Json)>, keys: Seq<Seq<u8>>)
    ensures
        row(pairs, keys).len() <= 2 * minified(Json::Object(pairs), Style::Verbatim).len(),
        key_fields(keys_of(pairs)).len() <= minified(Json::Object(pairs), Style::Verbatim).len(),
{
    lemma_fields_fit(pairs);
    lemma_decimal_fits(pairs.len());
}

proof fn lemma_rows_fit(elements: Seq<Json>, keys: Seq<Seq<u8>>)
    requires
        forall|i: int| 0 <= i < elements.len() ==> (#[trigger] elements[i]) is Object,
    ensures
        rows(elements, keys).len() <= 2 * minified_items(elements, Style::Verbatim, false).len(),
    decreases elements,
{
    if elements.len() > 0 {
        lemma_row_fits(members_of(elements[0]), keys);
        assert(elements[0] == Json::Object(members_of(elements[0])));
        assert forall|i: int| 0 <= i < elements.drop_first().len() implies (
        #[trigger] elements.drop_first()[i]) is Object by {
            assert(elements.drop_first()[i] == elements[i + 1]);
        }
        lemma_rows_fit(elements.drop_first(), keys);
    }
}

/// Every element has its place in an array beside a byte for each.
proof fn lemma_element_fits(elements: Seq<Json>, k: int)
    requires
        0 <= k < elements.len(),
    ensures
        elements.len() + minified(elements[k], Style::Verbatim).len() <= minified_items(
            elements,
            Style::Verbatim,
            false,
        ).len(),
    decreases elements,
{
    let rest = elements.drop_first();
    if k == 0 {
        lemma_elements_fit(rest);
    } else {
        assert(rest[k - 1] == elements[k]);
        lemma_element_fits(rest, k - 1);
    }
}

proof fn lemma_elements_fit(elements: Seq<Json>)
    ensures
        elements.len() <= minified_items(elements, Style::Verbatim, false).len(),
    decreases elements,
{
    if elements.len() > 0 {
        lemma_elements_fit(elements.drop_first());
    }
}

proof fn lemma_tabular_fits(j: Json, digest: spec_fn(Seq<Seq<u8>>) -> u64)
    ensures
        tabular(j, digest).len() <= 3 * minified(j, Style::Verbatim).len(),
    decreases j,
{
    match j {
        Json::Array(elements) => {
            match header(elements, digest) {
                Some(keys) => {
                    let k = hoisted(codes_of(elements, digest))->Some_0;
                    assert(is_leader(codes_of(elements, digest), k));
                    lemma_rows_fit(elements, keys);
                    lemma_row_fits(members_of(elements[k]), keys);
                    assert(elements[k] == Json::Object(members_of(elements[k])));
                    lemma_element_fits(elements, k);
                    lemma_decimal_fits(elements.len());
                },
                None => {
                    lemma_tabular_items_fit(elements, digest, true);
                },
            }
        },
        Json::Object(pairs) => {
            lemma_tabular_members_fit(pairs, digest, true);
        },
        _ => {},
    }
}

proof fn lemma_tabular_items_fit(
    elements: Seq<Json>,
    digest: spec_fn(Seq<Seq<u8>>) -> u64,
    first: bool,
)
    ensures
        tabular_items(elements, digest, first).len() <= 3 * minified_items(
            elements,
            Style::Verbatim,
            first,
        ).len(),
    decreases elements,
{
    if elements.len() > 0 {
        lemma_tabular_fits(elements[0], digest);
        lemma_tabular_items_fit(elements.drop_first(), digest, false);
    }
}

proof fn lemma_tabular_members_fit(
    pairs: Seq<(Seq<u8>, Json)>,
    digest: spec_fn(Seq<Seq<u8>>) -> u64,
    first: bool,
)
    ensures
        tabular_members(pairs, digest, first).len() <= 3 * minified_members(
            pairs,
            Style::Verbatim,
            first,
        ).len(),
    decreases pairs,
{
    if pairs.len() > 0 {
        lemma_tabular_fits(pairs[0].1, digest);
        lemma_tabular_members_fit(pairs.drop_first(), digest, false);
    }
}

/// A rendering has at most three bytes for each of the input's, and 18 for the sentinel.
pub proof fn law_rendering_length(enc: Encoder, s: Seq<u8>, limit: int)
    requires
        document(s, limit) is Ok,
    ensures
        offer(enc, Some(document(s, limit)->Ok_0), s) matches Some(text) ==> text.len() <= 3
            * s.len() + 18,
{
    let tree = document(s, limit)->Ok_0;
    law_sentinel_length(enc);
    law_minified_is_no_longer(s, limit, Style::Canonical);
    law_minified_is_no_longer(s, limit, Style::Verbatim);
    lemma_tabular_fits(doc(tree, s), machine_digest());
}

/// A model that can rate every text of less than `bound` bytes can rate what the candidate
/// rule asks it to, if three times the input and 18 bytes are less.
pub proof fn law_short_inputs_are_weighable<E: TokenEstimator + ?Sized>(
    model: &E,
    s: Seq<u8>,
    limit: int,
    enabled: Seq<Encoder>,
    bound: int,
)
    requires
        document(s, limit) is Ok,
        3 * s.len() + 18 < bound,
        forall|text: Seq<u8>| text.len() < bound ==> #[trigger] model.rates(text),
    ensures
        weighable(model, Some(document(s, limit)->Ok_0), s, enabled),
{
    assert forall|enc: Encoder|
        #![trigger enabled.contains(enc)]
        enabled.contains(enc) && enc !is Passthrough implies match offer(
        enc,
        Some(document(s, limit)->Ok_0),
        s,
    ) {
        Some(text) => model.rates(text),
        None => true,
    } by {
        law_rendering_length(enc, s, limit);
    }
}

} // verus!
