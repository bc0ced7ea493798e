//! Reading a tabular body back: from the body alone the minified document is recovered.
//!
//! [`reconstruct`] is the reader that the body grammar calls for. A body is lines. A line
//! that starts with `#` is a table header: the number of rows, then the hoisted keys, between
//! tabs. The rows follow, one to a line: `+` and the values under the header's keys, or `*`,
//! the number of members, and each key and value. Any other line is a piece of minified JSON.

use crate::ascii::{
    COLON, COMMA, HASH, LBRACE, LBRACKET, LF, MINUS, PLUS, RBRACE, RBRACKET, STAR, TAB,
};
use crate::documents::{
    law_minified_injective, lemma_verbatim, number_lexeme, proper, proper_items, proper_members,
    scalar_lexeme,
};
use crate::encoder::tables::{
    all_objects, header, key_fields, keys_of, members_of, pair_fields, row, rows, table, tabular,
    tabular_items, tabular_members, value_fields,
};
use crate::grammar::{
    false_word, fraction_part, integer_part, lemma_skip_digits, null_word, true_word,
};
use crate::json::{gap, minified, minified_items, minified_members, Json, Style};
use crate::strings::{body, head, lemma_tail, sound, string_lexeme, tail, width};
use crate::text::decimal;
use vstd::prelude::*;

verus! {

/// The offset of the first `b` in `t`, or the length of `t` if there is none.
pub open spec fn first_of(t: Seq<u8>, b: u8) -> int
    decreases t.len(),
{
    if t.len() == 0 || t[0] == b {
        0
    } else {
        1 + first_of(t.drop_first(), b)
    }
}

/// What follows the first `b` in `t`.
pub open spec fn past(t: Seq<u8>, b: u8) -> Seq<u8> {
    if first_of(t, b) < t.len() {
        t.skip(first_of(t, b) + 1)
    } else {
        Seq::empty()
    }
}

pub proof fn lemma_first_of(t: Seq<u8>, b: u8)
    ensures
        0 <= first_of(t, b) <= t.len(),
        t.len() > 0 ==> past(t, b).len() < t.len(),
        past(t, b).len() <= t.len(),
    decreases t.len(),
{
    if t.len() > 0 && t[0] != b {
        lemma_first_of(t.drop_first(), b);
    }
}

/// The fields of a line, between tabs.
pub open spec fn fields(t: Seq<u8>) -> Seq<Seq<u8>>
    decreases t.len(),
{
    if 0 <= first_of(t, TAB) < t.len() {
        seq![t.take(first_of(t, TAB))] + fields(t.skip(first_of(t, TAB) + 1))
    } else {
        seq![t]
    }
}

/// The number that decimal digits stand for.
pub open spec fn number_of(digits: Seq<u8>) -> nat
    decreases digits.len(),
{
    if digits.len() == 0 {
        0
    } else {
        (10 * number_of(digits.drop_last()) + (digits.last() - 0x30)) as nat
    }
}

/// Members, from their keys and values.
pub open spec fn zipped(keys: Seq<Seq<u8>>, values: Seq<Seq<u8>>, first: bool) -> Seq<u8>
    decreases keys.len(),
{
    if keys.len() == 0 {
        Seq::empty()
    } else {
        gap(first) + keys[0] + seq![COLON] + values[0] + zipped(
            keys.drop_first(),
            values.drop_first(),
            false,
        )
    }
}

/// `m` members, from the fields that list a key and a value each.
pub open spec fn listed(cells: Seq<Seq<u8>>, m: nat, first: bool) -> Seq<u8>
    decreases m,
{
    if m == 0 {
        Seq::empty()
    } else {
        gap(first) + cells[0] + seq![COLON] + cells[1] + listed(
            cells.skip(2),
            (m - 1) as nat,
            false,
        )
    }
}

/// The object of a row.
pub open spec fn row_object(line: Seq<u8>, keys: Seq<Seq<u8>>) -> Seq<u8> {
    let cells = fields(line);
    seq![LBRACE] + (if cells[0] == seq![PLUS] {
        zipped(keys, cells.drop_first(), true)
    } else {
        listed(cells.skip(2), number_of(cells[1]), true)
    }) + seq![RBRACE]
}

/// The rest of a body in the middle of a piece of JSON.
pub open spec fn piece(t: Seq<u8>) -> Seq<u8>
    decreases t.len(), 0nat, 0nat,
{
    if t.len() == 0 {
        Seq::empty()
    } else if t[0] == LF {
        line(t.drop_first())
    } else {
        seq![t[0]] + piece(t.drop_first())
    }
}

/// The rest of a body at the start of a line.
pub open spec fn line(t: Seq<u8>) -> Seq<u8>
    decreases t.len(), 0nat, 1nat,
{
    if t.len() > 0 && t[0] == HASH {
        let cells = fields(t.take(first_of(t, LF)).drop_first());
        if past(t, LF).len() < t.len() {
            seq![LBRACKET] + row_lines(
                past(t, LF),
                cells.drop_first(),
                number_of(cells[0]),
                true,
            )
        } else {
            Seq::empty()
        }
    } else {
        piece(t)
    }
}

/// The rest of a body in a table with `n` rows to come.
pub open spec fn row_lines(t: Seq<u8>, keys: Seq<Seq<u8>>, n: nat, first: bool) -> Seq<u8>
    decreases t.len(), n, 2nat,
{
    if n == 0 {
        seq![RBRACKET] + line(t)
    } else if past(t, LF).len() <= t.len() {
        gap(first) + row_object(t.take(first_of(t, LF)), keys) + row_lines(
            past(t, LF),
            keys,
            (n - 1) as nat,
            false,
        )
    } else {
        Seq::empty()
    }
}

/// The minified JSON that a tabular body stands for.
pub open spec fn reconstruct(t: Seq<u8>) -> Seq<u8> {
    line(t)
}

// ---------------------------------------------------------------------------
// No tab and no newline inside JSON
// ---------------------------------------------------------------------------

/// Bytes without tab and newline.
pub open spec fn clean(t: Seq<u8>) -> bool {
    forall|k: int| 0 <= k < t.len() ==> #[trigger] t[k] != TAB && t[k] != LF
}

proof fn lemma_clean_body(t: Seq<u8>)
    requires
        sound(t),
    ensures
        clean(t),
    decreases t.len(),
{
    if t.len() > 0 {
        lemma_tail(t);
        let w = width(head(t));
        lemma_clean_body(tail(t));
        assert forall|k: int| 0 <= k < t.len() implies #[trigger] t[k] != TAB && t[k] != LF by {
            if k >= w {
                assert(t[k] == tail(t)[k - w]);
            }
        }
    }
}

proof fn lemma_clean_string(l: Seq<u8>)
    requires
        string_lexeme(l),
    ensures
        clean(l),
{
    let t = body(l);
    lemma_clean_body(t);
    assert forall|k: int| 0 <= k < l.len() implies #[trigger] l[k] != TAB && l[k] != LF by {
        if 0 < k < l.len() - 1 {
            assert(l[k] == t[k - 1]);
        }
    }
}

proof fn lemma_clean_scalar(l: Seq<u8>)
    requires
        scalar_lexeme(l),
    ensures
        clean(l),
{
    if number_lexeme(l) {
        let n = l.len() as int;
        let a = if l[0] == MINUS {
            1int
        } else {
            0int
        };
        let f = integer_part(l, a)->Ok_0;
        if a + 1 <= n {
            lemma_skip_digits(l, a + 1);
        }
        let x = fraction_part(l, f)->Ok_0;
        if f + 1 <= n {
            lemma_skip_digits(l, f + 1);
        }
        if x + 1 <= n {
            lemma_skip_digits(l, x + 1);
        }
        if x + 2 <= n {
            lemma_skip_digits(l, x + 2);
        }
        assert forall|k: int| 0 <= k < n implies #[trigger] l[k] != TAB && l[k] != LF by {
            if k < a {
            } else if k < f {
            } else if k < x {
            } else {
            }
        }
    }
}

/// A minified document holds no tab and no newline.
pub proof fn lemma_clean_minified(j: Json)
    requires
        proper(j),
    ensures
        clean(minified(j, Style::Verbatim)),
    decreases j,
{
    match j {
        Json::Scalar(l) => {
            lemma_clean_scalar(l);
        },
        Json::String(l) => {
            lemma_clean_string(l);
        },
        Json::Array(items) => {
            lemma_clean_items(items, true);
        },
        Json::Object(members) => {
            lemma_clean_members(members, true);
        },
    }
}

proof fn lemma_clean_items(items: Seq<Json>, first: bool)
    requires
        proper_items(items),
    ensures
        clean(minified_items(items, Style::Verbatim, first)),
    decreases items,
{
    if items.len() > 0 {
        lemma_clean_minified(items[0]);
        lemma_clean_items(items.drop_first(), false);
    }
}

proof fn lemma_clean_members(members: Seq<(Seq<u8>, Json)>, first: bool)
    requires
        proper_members(members),
    ensures
        clean(minified_members(members, Style::Verbatim, first)),
    decreases members,
{
    if members.len() > 0 {
        lemma_clean_string(members[0].0);
        lemma_clean_minified(members[0].1);
        lemma_clean_members(members.drop_first(), false);
    }
}

proof fn lemma_clean_decimal(n: nat)
    ensures
        clean(decimal(n)),
        number_of(decimal(n)) == n,
        decimal(n).len() > 0,
    decreases n,
{
    if n >= 10 {
        lemma_clean_decimal(n / 10);
        assert(decimal(n).drop_last() =~= decimal(n / 10));
    } else {
        assert(decimal(n).drop_last() =~= Seq::<u8>::empty());
        assert(number_of(Seq::<u8>::empty()) == 0);
    }
}

// ---------------------------------------------------------------------------
// Lines and fields
// ---------------------------------------------------------------------------

/// The first `b` after bytes that are no `b`.
proof fn lemma_first_after(a: Seq<u8>, b: u8, rest: Seq<u8>)
    requires
        forall|k: int| 0 <= k < a.len() ==> #[trigger] a[k] != b,
    ensures
        first_of(a + seq![b] + rest, b) == a.len(),
        past(a + seq![b] + rest, b) == rest,
        (a + seq![b] + rest).take(a.len() as int) == a,
    decreases a.len(),
{
    let t = a + seq![b] + rest;
    if a.len() > 0 {
        let shorter = a.drop_first();
        assert forall|k: int| 0 <= k < shorter.len() implies #[trigger] shorter[k] != b by {
            assert(shorter[k] == a[k + 1]);
        }
        lemma_first_after(shorter, b, rest);
        assert(t.drop_first() =~= shorter + seq![b] + rest);
    }
    assert(t.skip(1 + a.len() as int) =~= rest);
    assert(t.take(a.len() as int) =~= a);
}

proof fn lemma_none_of(a: Seq<u8>, b: u8)
    requires
        forall|k: int| 0 <= k < a.len() ==> #[trigger] a[k] != b,
    ensures
        first_of(a, b) == a.len(),
    decreases a.len(),
{
    if a.len() > 0 {
        let shorter = a.drop_first();
        assert forall|k: int| 0 <= k < shorter.len() implies #[trigger] shorter[k] != b by {
            assert(shorter[k] == a[k + 1]);
        }
        lemma_none_of(shorter, b);
    }
}

/// A clean text is one field; a tab ends it.
proof fn lemma_fields(a: Seq<u8>, rest: Seq<u8>)
    requires
        clean(a),
    ensures
        fields(a) == seq![a],
        fields(a + seq![TAB] + rest) == seq![a] + fields(rest),
{
    lemma_none_of(a, TAB);
    lemma_first_after(a, TAB, rest);
    let t = a + seq![TAB] + rest;
    assert(t.skip(1 + a.len() as int) =~= rest);
}

/// The fields of a text followed by keys, a tab before each.
proof fn lemma_key_fields(a: Seq<u8>, keys: Seq<Seq<u8>>)
    requires
        clean(a),
        forall|i: int| 0 <= i < keys.len() ==> clean(#[trigger] keys[i]),
    ensures
        fields(a + key_fields(keys)) == seq![a] + keys,
        forall|k: int| 0 <= k < key_fields(keys).len() ==> #[trigger] key_fields(keys)[k] != LF,
    decreases keys.len(),
{
    if keys.len() == 0 {
        lemma_fields(a, Seq::empty());
        assert(a + key_fields(keys) =~= a);
        assert(seq![a] + keys =~= seq![a]);
    } else {
        let others = keys.drop_first();
        assert forall|i: int| 0 <= i < others.len() implies clean(#[trigger] others[i]) by {
            assert(others[i] == keys[i + 1]);
        }
        assert(clean(keys[0]));
        lemma_key_fields(keys[0], others);
        lemma_fields(a, keys[0] + key_fields(others));
        assert(a + key_fields(keys) =~= a + seq![TAB] + (keys[0] + key_fields(others)));
        assert(seq![a] + (seq![keys[0]] + others) =~= seq![a] + keys);
    }
}

/// The values of members, minified.
pub open spec fn cells_of(members: Seq<(Seq<u8>, Json)>) -> Seq<Seq<u8>> {
    Seq::new(members.len(), |i: int| minified(members[i].1, Style::Verbatim))
}

proof fn lemma_value_fields(a: Seq<u8>, members: Seq<(Seq<u8>, Json)>)
    requires
        clean(a),
        proper_members(members),
    ensures
        fields(a + value_fields(members)) == seq![a] + cells_of(members),
        forall|k: int|
            0 <= k < value_fields(members).len() ==> #[trigger] value_fields(members)[k] != LF,
    decreases members.len(),
{
    if members.len() == 0 {
        lemma_fields(a, Seq::empty());
        assert(a + value_fields(members) =~= a);
        assert(seq![a] + cells_of(members) =~= seq![a]);
    } else {
        let others = members.drop_first();
        let m = minified(members[0].1, Style::Verbatim);
        lemma_clean_minified(members[0].1);
        lemma_value_fields(m, others);
        lemma_fields(a, m + value_fields(others));
        assert(a + value_fields(members) =~= a + seq![TAB] + (m + value_fields(others)));
        assert(seq![a] + (seq![m] + cells_of(others)) =~= seq![a] + cells_of(members));
    }
}

/// The keys and values of members, in turn.
pub open spec fn both_of(members: Seq<(Seq<u8>, Json)>) -> Seq<Seq<u8>>
    decreases members.len(),
{
    if members.len() == 0 {
        Seq::empty()
    } else {
        seq![members[0].0, minified(members[0].1, Style::Verbatim)] + both_of(members.drop_first())
    }
}

proof fn lemma_pair_fields(a: Seq<u8>, members: Seq<(Seq<u8>, Json)>)
    requires
        clean(a),
        proper_members(members),
    ensures
        fields(a + pair_fields(members)) == seq![a] + both_of(members),
        forall|k: int|
            0 <= k < pair_fields(members).len() ==> #[trigger] pair_fields(members)[k] != LF,
    decreases members.len(),
{
    if members.len() == 0 {
        lemma_fields(a, Seq::empty());
        assert(a + pair_fields(members) =~= a);
        assert(seq![a] + both_of(members) =~= seq![a]);
    } else {
        let others = members.drop_first();
        let k = members[0].0;
        let m = minified(members[0].1, Style::Verbatim);
        lemma_clean_string(k);
        lemma_clean_minified(members[0].1);
        lemma_pair_fields(m, others);
        lemma_fields(k, m + pair_fields(others));
        lemma_fields(a, k + seq![TAB] + (m + pair_fields(others)));
        assert(a + pair_fields(members) =~= a + seq![TAB] + (k + seq![TAB] + (m + pair_fields(
            others,
        ))));
        assert(seq![a] + (seq![k] + (seq![m] + both_of(others))) =~= seq![a] + both_of(members));
    }
}

// ---------------------------------------------------------------------------
// Rows
// ---------------------------------------------------------------------------

proof fn lemma_zipped(members: Seq<(Seq<u8>, Json)>, first: bool)
    ensures
        zipped(keys_of(members), cells_of(members), first) == minified_members(
            members,
            Style::Verbatim,
            first,
        ),
    decreases members.len(),
{
    if members.len() > 0 {
        let others = members.drop_first();
        lemma_zipped(others, false);
        assert(keys_of(members).drop_first() =~= keys_of(others));
        assert(cells_of(members).drop_first() =~= cells_of(others));
    }
}

proof fn lemma_listed(members: Seq<(Seq<u8>, Json)>, first: bool)
    ensures
        listed(both_of(members), members.len(), first) == minified_members(
            members,
            Style::Verbatim,
            first,
        ),
    decreases members.len(),
{
    if members.len() > 0 {
        let others = members.drop_first();
        lemma_listed(others, false);
        assert(both_of(members).skip(2) =~= both_of(others));
    }
}

/// A row, read under its table's keys, is the object it was written for.
proof fn lemma_row(members: Seq<(Seq<u8>, Json)>, keys: Seq<Seq<u8>>, rest: Seq<u8>)
    requires
        proper_members(members),
    ensures
        ({
            let t = row(members, keys) + rest;
            &&& past(t, LF) == rest
            &&& row_object(t.take(first_of(t, LF)), keys) == minified(
                Json::Object(members),
                Style::Verbatim,
            )
        }),
{
    let t = row(members, keys) + rest;
    if keys_of(members) == keys {
        let text = seq![PLUS] + value_fields(members);
        lemma_value_fields(seq![PLUS], members);
        assert forall|k: int| 0 <= k < text.len() implies #[trigger] text[k] != LF by {
            if k > 0 {
                assert(text[k] == value_fields(members)[k - 1]);
            }
        }
        lemma_first_after(text, LF, rest);
        lemma_zipped(members, true);
        assert((seq![seq![PLUS]] + cells_of(members)).drop_first() =~= cells_of(members));
    } else {
        let count = decimal(members.len());
        lemma_clean_decimal(members.len());
        let tail_text = count + pair_fields(members);
        let text = seq![STAR, TAB] + count + pair_fields(members);
        lemma_pair_fields(count, members);
        lemma_fields(seq![STAR], tail_text);
        assert(text =~= seq![STAR] + seq![TAB] + tail_text);
        assert forall|k: int| 0 <= k < text.len() implies #[trigger] text[k] != LF by {
            if k >= 2 + count.len() {
                assert(text[k] == pair_fields(members)[k - 2 - count.len()]);
            } else if k >= 2 {
                assert(text[k] == count[k - 2]);
            }
        }
        lemma_first_after(text, LF, rest);
        let cells = seq![seq![STAR]] + (seq![count] + both_of(members));
        assert(fields(text) == cells);
        assert(cells[0] == seq![STAR]);
        assert(seq![STAR][0] != seq![PLUS][0]);
        assert(cells[1] == count);
        assert(cells.skip(2) =~= both_of(members));
        lemma_listed(members, true);
    }
}

/// The rows of a table are read back as the elements they were written for.
proof fn lemma_rows(items: Seq<Json>, keys: Seq<Seq<u8>>, rest: Seq<u8>, first: bool)
    requires
        proper_items(items),
        all_objects(items),
    ensures
        row_lines(rows(items, keys) + rest, keys, items.len(), first) == minified_items(
            items,
            Style::Verbatim,
            first,
        ) + seq![RBRACKET] + line(rest),
    decreases items.len(),
{
    let t = rows(items, keys) + rest;
    lemma_first_of(t, LF);
    if items.len() == 0 {
        assert(t =~= rest);
        assert(Seq::<u8>::empty() + seq![RBRACKET] + line(rest) =~= seq![RBRACKET] + line(rest));
    } else {
        let others = items.drop_first();
        let members = members_of(items[0]);
        assert(items[0] is Object);
        assert(proper(items[0]));
        assert(all_objects(others)) by {
            assert forall|i: int| 0 <= i < others.len() implies (#[trigger] others[i]) is Object by {
                assert(others[i] == items[i + 1]);
            }
        }
        let after = rows(others, keys) + rest;
        assert(t =~= row(members, keys) + after);
        lemma_row(members, keys, after);
        lemma_rows(others, keys, rest, false);
        let m = minified(items[0], Style::Verbatim);
        let r = minified_items(others, Style::Verbatim, false);
        assert(gap(first) + m + (r + seq![RBRACKET] + line(rest)) =~= gap(first) + m + r + seq![
            RBRACKET,
        ] + line(rest));
    }
}

// ---------------------------------------------------------------------------
// Bodies
// ---------------------------------------------------------------------------

/// Clean bytes of a piece of JSON are read as they stand.
proof fn lemma_piece_clean(a: Seq<u8>, rest: Seq<u8>)
    requires
        clean(a),
    ensures
        piece(a + rest) == a + piece(rest),
    decreases a.len(),
{
    if a.len() == 0 {
        assert(a + rest =~= rest);
        assert(a + piece(rest) =~= piece(rest));
    } else {
        let shorter = a.drop_first();
        assert(clean(shorter)) by {
            assert forall|k: int| 0 <= k < shorter.len() implies #[trigger] shorter[k] != TAB
                && shorter[k] != LF by {
                assert(shorter[k] == a[k + 1]);
            }
        }
        assert((a + rest)[0] == a[0]);
        assert(a[0] != LF);
        lemma_piece_clean(shorter, rest);
        assert((a + rest).drop_first() =~= shorter + rest);
        assert(seq![a[0]] + (shorter + piece(rest)) =~= a + piece(rest));
    }
}

/// What may follow a value: not a table header.
pub open spec fn no_header(t: Seq<u8>) -> bool {
    t.len() == 0 || t[0] != HASH
}

proof fn lemma_member_keys_clean(members: Seq<(Seq<u8>, Json)>)
    requires
        proper_members(members),
    ensures
        forall|i: int| 0 <= i < members.len() ==> clean(#[trigger] keys_of(members)[i]),
    decreases members.len(),
{
    if members.len() > 0 {
        let others = members.drop_first();
        lemma_clean_string(members[0].0);
        lemma_member_keys_clean(others);
        assert forall|i: int| 0 <= i < members.len() implies clean(#[trigger] keys_of(members)[i]) by {
            if i > 0 {
                assert(keys_of(members)[i] == keys_of(others)[i - 1]);
            }
        }
    }
}

proof fn lemma_proper_item(items: Seq<Json>, k: int)
    requires
        proper_items(items),
        0 <= k < items.len(),
    ensures
        proper(items[k]),
    decreases k,
{
    if k > 0 {
        lemma_proper_item(items.drop_first(), k - 1);
    }
}

/// A table in a body is read back as its array.
proof fn lemma_table(
    items: Seq<Json>,
    digest: spec_fn(Seq<Seq<u8>>) -> u64,
    keys: Seq<Seq<u8>>,
    rest: Seq<u8>,
)
    requires
        proper_items(items),
        header(items, digest) == Some(keys),
        no_header(rest),
    ensures
        piece(table(items, keys) + rest) == minified(Json::Array(items), Style::Verbatim) + piece(
            rest,
        ),
{
    let codes = crate::encoder::tables::codes_of(items, digest);
    let k = crate::encoder::tables::hoisted(codes)->0;
    assert(crate::encoder::tables::is_leader(codes, k));
    assert(items[k] is Object);
    lemma_proper_item(items, k);
    lemma_member_keys_clean(members_of(items[k]));
    let count = decimal(items.len());
    lemma_clean_decimal(items.len());
    lemma_key_fields(count, keys);
    let head_line = seq![HASH] + count + key_fields(keys);
    let t = head_line + seq![LF] + (rows(items, keys) + rest);
    let whole = table(items, keys) + rest;
    assert(whole =~= seq![LF] + t);
    assert(whole.drop_first() =~= t);
    assert forall|i: int| 0 <= i < head_line.len() implies #[trigger] head_line[i] != LF by {
        if i >= 1 + count.len() {
            assert(head_line[i] == key_fields(keys)[i - 1 - count.len()]);
        } else if i >= 1 {
            assert(head_line[i] == count[i - 1]);
        }
    }
    lemma_first_after(head_line, LF, rows(items, keys) + rest);
    assert(head_line.drop_first() =~= count + key_fields(keys));
    assert((seq![count] + keys).drop_first() =~= keys);
    assert(t[0] == HASH);
    lemma_first_of(t, LF);
    lemma_rows(items, keys, rest, true);
    let list = minified_items(items, Style::Verbatim, true);
    assert(piece(whole) == line(t));
    assert(fields(t.take(first_of(t, LF)).drop_first()) == seq![count] + keys);
    assert(line(t) == seq![LBRACKET] + row_lines(rows(items, keys) + rest, keys, items.len(), true));
    assert(line(rest) == piece(rest));
    assert(seq![LBRACKET] + (list + seq![RBRACKET] + piece(rest)) =~= seq![LBRACKET] + list + seq![
        RBRACKET,
    ] + piece(rest));
}

/// A document in tabular form, in a body, is read back as the minified document.
proof fn lemma_piece_tabular(j: Json, digest: spec_fn(Seq<Seq<u8>>) -> u64, rest: Seq<u8>)
    requires
        proper(j),
        no_header(rest),
    ensures
        piece(tabular(j, digest) + rest) == minified(j, Style::Verbatim) + piece(rest),
    decreases j,
{
    match j {
        Json::Scalar(l) => {
            lemma_clean_scalar(l);
            lemma_piece_clean(l, rest);
        },
        Json::String(l) => {
            lemma_clean_string(l);
            lemma_piece_clean(l, rest);
        },
        Json::Array(items) => match header(items, digest) {
            Some(keys) => {
                lemma_table(items, digest, keys, rest);
            },
            None => {
                let inner = tabular_items(items, digest, true);
                let after = seq![RBRACKET] + rest;
                assert(tabular(j, digest) + rest =~= seq![LBRACKET] + (inner + after));
                lemma_piece_clean(seq![LBRACKET], inner + after);
                lemma_piece_items(items, digest, after, true);
                lemma_piece_clean(seq![RBRACKET], rest);
                let list = minified_items(items, Style::Verbatim, true);
                assert(seq![LBRACKET] + (list + (seq![RBRACKET] + piece(rest))) =~= seq![LBRACKET]
                    + list + seq![RBRACKET] + piece(rest));
            },
        },
        Json::Object(members) => {
            let inner = tabular_members(members, digest, true);
            let after = seq![RBRACE] + rest;
            assert(tabular(j, digest) + rest =~= seq![LBRACE] + (inner + after));
            lemma_piece_clean(seq![LBRACE], inner + after);
            lemma_piece_members(members, digest, after, true);
            lemma_piece_clean(seq![RBRACE], rest);
            let list = minified_members(members, Style::Verbatim, true);
            assert(seq![LBRACE] + (list + (seq![RBRACE] + piece(rest))) =~= seq![LBRACE] + list
                + seq![RBRACE] + piece(rest));
        },
    }
}

proof fn lemma_piece_items(
    items: Seq<Json>,
    digest: spec_fn(Seq<Seq<u8>>) -> u64,
    rest: Seq<u8>,
    first: bool,
)
    requires
        proper_items(items),
        no_header(rest),
    ensures
        piece(tabular_items(items, digest, first) + rest) == minified_items(
            items,
            Style::Verbatim,
            first,
        ) + piece(rest),
    decreases items,
{
    if items.len() == 0 {
        assert(tabular_items(items, digest, first) + rest =~= rest);
        assert(minified_items(items, Style::Verbatim, first) + piece(rest) =~= piece(rest));
    } else {
        let others = items.drop_first();
        let t = tabular(items[0], digest);
        let more = tabular_items(others, digest, false) + rest;
        assert(tabular_items(items, digest, first) + rest =~= gap(first) + (t + more));
        lemma_piece_clean(gap(first), t + more);
        assert(no_header(more)) by {
            if others.len() > 0 {
                assert(more[0] == COMMA);
            } else {
                assert(more =~= rest);
            }
        }
        lemma_piece_tabular(items[0], digest, more);
        lemma_piece_items(others, digest, rest, false);
        let m = minified(items[0], Style::Verbatim);
        let r = minified_items(others, Style::Verbatim, false);
        assert(gap(first) + (m + (r + piece(rest))) =~= gap(first) + m + r + piece(rest));
    }
}

proof fn lemma_piece_members(
    members: Seq<(Seq<u8>, Json)>,
    digest: spec_fn(Seq<Seq<u8>>) -> u64,
    rest: Seq<u8>,
    first: bool,
)
    requires
        proper_members(members),
        no_header(rest),
    ensures
        piece(tabular_members(members, digest, first) + rest) == minified_members(
            members,
            Style::Verbatim,
            first,
        ) + piece(rest),
    decreases members,
{
    if members.len() == 0 {
        assert(tabular_members(members, digest, first) + rest =~= rest);
        assert(minified_members(members, Style::Verbatim, first) + piece(rest) =~= piece(rest));
    } else {
        let others = members.drop_first();
        let k = members[0].0;
        let t = tabular(members[0].1, digest);
        let more = tabular_members(others, digest, false) + rest;
        let start = gap(first) + k + seq![COLON];
        assert(tabular_members(members, digest, first) + rest =~= start + (t + more));
        lemma_clean_string(k);
        lemma_piece_clean(start, t + more);
        assert(no_header(more)) by {
            if others.len() > 0 {
                assert(more[0] == COMMA);
            } else {
                assert(more =~= rest);
            }
        }
        lemma_piece_tabular(members[0].1, digest, more);
        lemma_piece_members(others, digest, rest, false);
        let m = minified(members[0].1, Style::Verbatim);
        let r = minified_members(others, Style::Verbatim, false);
        assert(start + (m + (r + piece(rest))) =~= start + m + r + piece(rest));
    }
}

// ---------------------------------------------------------------------------
// Laws
// ---------------------------------------------------------------------------

/// From a tabular body alone the minified document is recovered, byte for byte, whatever
/// digest sorted the elements into shapes.
pub proof fn law_tabular_reconstructs(j: Json, digest: spec_fn(Seq<Seq<u8>>) -> u64)
    requires
        proper(j),
    ensures
        reconstruct(tabular(j, digest)) == minified(j, Style::Verbatim),
{
    let t = tabular(j, digest);
    assert(t + Seq::<u8>::empty() =~= t);
    lemma_piece_tabular(j, digest, Seq::empty());
    assert(minified(j, Style::Verbatim) + Seq::<u8>::empty() =~= minified(j, Style::Verbatim));
    assert(no_header(t)) by {
        match j {
            Json::Scalar(l) => {
                assert(null_word()[0] == 0x6E && true_word()[0] == 0x74 && false_word()[0] == 0x66);
            },
            Json::Array(items) => {},
            _ => {},
        }
    }
}

/// Documents with the same tabular form are the same document, lexeme for lexeme.
pub proof fn law_tabular_injective(
    a: Json,
    b: Json,
    digest_a: spec_fn(Seq<Seq<u8>>) -> u64,
    digest_b: spec_fn(Seq<Seq<u8>>) -> u64,
)
    requires
        proper(a),
        proper(b),
        tabular(a, digest_a) == tabular(b, digest_b),
    ensures
        a == b,
{
    law_tabular_reconstructs(a, digest_a);
    law_tabular_reconstructs(b, digest_b);
    law_minified_injective(a, b, Style::Verbatim);
    lemma_verbatim(a);
    lemma_verbatim(b);
}

/// The lines of a text, between line feeds.
pub open spec fn lines(t: Seq<u8>) -> Seq<Seq<u8>>
    decreases t.len(),
{
    if 0 <= first_of(t, LF) < t.len() {
        seq![t.take(first_of(t, LF))] + lines(t.skip(first_of(t, LF) + 1))
    } else {
        seq![t]
    }
}

proof fn lemma_lines(a: Seq<u8>, rest: Seq<u8>)
    requires
        forall|k: int| 0 <= k < a.len() ==> #[trigger] a[k] != LF,
    ensures
        lines(a) == seq![a],
        lines(a + seq![LF] + rest) == seq![a] + lines(rest),
{
    lemma_none_of(a, LF);
    lemma_first_after(a, LF, rest);
    let t = a + seq![LF] + rest;
    assert(t.skip(1 + a.len() as int) =~= rest);
}

/// What the fields of a row are, between tabs: of an element with the header's keys a plus and
/// its values; of any other a star, the number of its members, and each key and value.
pub open spec fn row_cells(members: Seq<(Seq<u8>, Json)>, keys: Seq<Seq<u8>>) -> Seq<Seq<u8>> {
    if keys_of(members) == keys {
        seq![seq![0x2Bu8]] + cells_of(members)
    } else {
        seq![seq![0x2Au8], decimal(members.len())] + both_of(members)
    }
}

proof fn lemma_row_line(members: Seq<(Seq<u8>, Json)>, keys: Seq<Seq<u8>>) -> (text: Seq<u8>)
    requires
        proper_members(members),
    ensures
        row(members, keys) == text + seq![LF],
        forall|k: int| 0 <= k < text.len() ==> #[trigger] text[k] != LF,
        fields(text) == row_cells(members, keys),
{
    if keys_of(members) == keys {
        let text = seq![PLUS] + value_fields(members);
        lemma_value_fields(seq![PLUS], members);
        assert forall|k: int| 0 <= k < text.len() implies #[trigger] text[k] != LF by {
            if k > 0 {
                assert(text[k] == value_fields(members)[k - 1]);
            }
        }
        text
    } else {
        let count = decimal(members.len());
        lemma_clean_decimal(members.len());
        let tail_text = count + pair_fields(members);
        let text = seq![STAR, TAB] + count + pair_fields(members);
        lemma_pair_fields(count, members);
        lemma_fields(seq![STAR], tail_text);
        assert(text =~= seq![STAR] + seq![TAB] + tail_text);
        assert forall|k: int| 0 <= k < text.len() implies #[trigger] text[k] != LF by {
            if k >= 2 + count.len() {
                assert(text[k] == pair_fields(members)[k - 2 - count.len()]);
            } else if k >= 2 {
                assert(text[k] == count[k - 2]);
            }
        }
        assert(seq![seq![STAR]] + (seq![count] + both_of(members)) =~= row_cells(members, keys));
        text
    }
}

#[verifier::spinoff_prover]
#[verifier::rlimit(40)]
proof fn lemma_rows_lines(items: Seq<Json>, keys: Seq<Seq<u8>>)
    requires
        proper_items(items),
        all_objects(items),
    ensures
        ({
            let ls = lines(rows(items, keys));
            &&& ls.len() == items.len() + 1
            &&& ls.last().len() == 0
            &&& forall|i: int|
                0 <= i < items.len() ==> fields(#[trigger] ls[i]) == row_cells(
                    members_of(items[i]),
                    keys,
                )
        }),
    decreases items.len(),
{
    let ls = lines(rows(items, keys));
    if items.len() == 0 {
        lemma_lines(Seq::empty(), Seq::empty());
        assert(rows(items, keys) =~= Seq::<u8>::empty());
    } else {
        let others = items.drop_first();
        assert(items[0] is Object);
        assert(proper(items[0]));
        assert(all_objects(others)) by {
            assert forall|i: int| 0 <= i < others.len() implies (#[trigger] others[i]) is Object by {
                assert(others[i] == items[i + 1]);
            }
        }
        let text = lemma_row_line(members_of(items[0]), keys);
        let more = rows(others, keys);
        lemma_lines(text, more);
        assert(rows(items, keys) =~= text + seq![LF] + more);
        lemma_rows_lines(others, keys);
        assert forall|i: int| 0 <= i < items.len() implies fields(#[trigger] ls[i]) == row_cells(
            members_of(items[i]),
            keys,
        ) by {
            if i > 0 {
                assert(ls[i] == lines(more)[i - 1]);
                assert(others[i - 1] == items[i]);
            }
        }
        assert(ls.last() == lines(more).last());
    }
}

/// A table states each hoisted key once. It is a line feed; a line with a hash, the number of
/// elements and the keys between tabs; and a line for each element, in order: of one with
/// these keys a plus and its values, without a key; of any other a star, the number of its
/// members, and its keys and values.
#[verifier::spinoff_prover]
#[verifier::rlimit(40)]
pub proof fn law_table_lines(
    items: Seq<Json>,
    digest: spec_fn(Seq<Seq<u8>>) -> u64,
    keys: Seq<Seq<u8>>,
)
    requires
        proper_items(items),
        header(items, digest) == Some(keys),
    ensures
        ({
            let ls = lines(tabular(Json::Array(items), digest));
            &&& ls.len() == items.len() + 3
            &&& ls[0].len() == 0
            &&& ls.last().len() == 0
            &&& fields(ls[1]) == seq![seq![0x23u8] + decimal(items.len())] + keys
            &&& forall|i: int|
                0 <= i < items.len() && keys_of(members_of(items[i])) == keys ==> {
                    let cells = fields(#[trigger] ls[i + 2]);
                    &&& cells.len() == keys.len() + 1
                    &&& cells[0] == seq![0x2Bu8]
                    &&& forall|c: int|
                        0 <= c < keys.len() ==> #[trigger] cells[c + 1] == minified(
                            members_of(items[i])[c].1,
                            Style::Verbatim,
                        )
                }
            &&& forall|i: int|
                0 <= i < items.len() && keys_of(members_of(items[i])) != keys ==> {
                    let cells = fields(#[trigger] ls[i + 2]);
                    let m = members_of(items[i]);
                    &&& cells.len() == 2 * m.len() + 2
                    &&& cells[0] == seq![0x2Au8]
                    &&& cells[1] == decimal(m.len())
                    &&& forall|c: int|
                        #![trigger m[c]]
                        0 <= c < m.len() ==> cells[2 * c + 2] == m[c].0 && cells[2 * c + 3]
                            == minified(m[c].1, Style::Verbatim)
                }
        }),
{
    let codes = crate::encoder::tables::codes_of(items, digest);
    let k = crate::encoder::tables::hoisted(codes)->0;
    assert(crate::encoder::tables::is_leader(codes, k));
    assert(items[k] is Object);
    lemma_proper_item(items, k);
    lemma_member_keys_clean(members_of(items[k]));
    let count = decimal(items.len());
    lemma_clean_decimal(items.len());
    let marked = seq![HASH] + count;
    assert(clean(marked)) by {
        assert forall|n: int| 0 <= n < marked.len() implies #[trigger] marked[n] != TAB && marked[n]
            != LF by {
            if n > 0 {
                assert(marked[n] == count[n - 1]);
            }
        }
    }
    lemma_key_fields(marked, keys);
    let head_line = marked + key_fields(keys);
    assert forall|n: int| 0 <= n < head_line.len() implies #[trigger] head_line[n] != LF by {
        if n >= marked.len() {
            assert(head_line[n] == key_fields(keys)[n - marked.len()]);
        } else {
            assert(head_line[n] == marked[n]);
        }
    }
    let more = rows(items, keys);
    let t = tabular(Json::Array(items), digest);
    lemma_lines(head_line, more);
    lemma_lines(Seq::empty(), head_line + seq![LF] + more);
    assert(t =~= Seq::<u8>::empty() + seq![LF] + (head_line + seq![LF] + more));
    lemma_rows_lines(items, keys);
    let ls = lines(t);
    assert(ls == seq![Seq::<u8>::empty()] + (seq![head_line] + lines(more)));
    assert forall|i: int| 0 <= i < items.len() implies fields(#[trigger] ls[i + 2]) == row_cells(
        members_of(items[i]),
        keys,
    ) by {
        assert(ls[i + 2] == lines(more)[i]);
    }
    assert forall|i: int|
        0 <= i < items.len() && keys_of(members_of(items[i])) != keys implies {
        let cells = fields(#[trigger] ls[i + 2]);
        let m = members_of(items[i]);
        &&& cells.len() == 2 * m.len() + 2
        &&& cells[0] == seq![0x2Au8]
        &&& cells[1] == decimal(m.len())
        &&& forall|c: int|
            #![trigger m[c]]
            0 <= c < m.len() ==> cells[2 * c + 2] == m[c].0 && cells[2 * c + 3] == minified(
                m[c].1,
                Style::Verbatim,
            )
    } by {
        lemma_both(members_of(items[i]));
    }
    assert(ls.last() == lines(more).last());
}

proof fn lemma_both(members: Seq<(Seq<u8>, Json)>)
    ensures
        both_of(members).len() == 2 * members.len(),
        forall|c: int|
            #![trigger members[c]]
            0 <= c < members.len() ==> both_of(members)[2 * c] == members[c].0 && both_of(
                members,
            )[2 * c + 1] == minified(members[c].1, Style::Verbatim),
    decreases members.len(),
{
    if members.len() > 0 {
        let others = members.drop_first();
        lemma_both(others);
        assert forall|c: int| #![trigger members[c]] 0 <= c < members.len() implies both_of(
            members,
        )[2 * c] == members[c].0 && both_of(members)[2 * c + 1] == minified(
            members[c].1,
            Style::Verbatim,
        ) by {
            if c > 0 {
                assert(others[c - 1] == members[c]);
            }
        }
    }
}

/// Numbers in a body are decimal digits without a leading zero, and read back as they are.
pub proof fn law_decimal_digits(n: nat)
    ensures
        number_of(decimal(n)) == n,
        decimal(n).len() > 0,
        forall|k: int| 0 <= k < decimal(n).len() ==> 0x30 <= #[trigger] decimal(n)[k] <= 0x39,
        decimal(n).len() > 1 ==> decimal(n)[0] != 0x30,
    decreases n,
{
    lemma_clean_decimal(n);
    if n >= 10 {
        law_decimal_digits(n / 10);
        assert forall|k: int| 0 <= k < decimal(n).len() implies 0x30 <= #[trigger] decimal(n)[k]
            <= 0x39 by {
            if k < decimal(n).len() - 1 {
                assert(decimal(n)[k] == decimal(n / 10)[k]);
            }
        }
        assert(decimal(n)[0] == decimal(n / 10)[0]);
        if decimal(n / 10).len() == 1 {
            assert(decimal(n / 10).drop_last() =~= Seq::<u8>::empty());
            assert(number_of(Seq::<u8>::empty()) == 0);
        }
    }
}

} // verus!
