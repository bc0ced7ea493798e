//! Lexemes: a text without the whitespace between them.
//!
//! A text is cut into brackets, braces, colons and commas, strings, and words, which are all
//! the rest up to the next of these or to whitespace. Cutting needs no grammar: any text has
//! lexemes. What a document says, and the tape that records it, depend on the lexemes alone.

use crate::ascii::{BACKSLASH, COLON, COMMA, LBRACE, LBRACKET, MINUS, QUOTE, RBRACE, RBRACKET};
use crate::documents::{
    holds, lemma_document_read, lemma_lexeme_start, lemma_nesting_rest, lemma_number_within,
    lemma_scalar_read, lemma_string_back, nesting, nesting_items, nesting_members, number_lexeme,
    proper, proper_items, proper_members, scalar_lexeme,
};
use crate::grammar::{
    document, false_word, first_item, first_member, fraction_part, hex_digits, holds_at,
    integer_part, is_short_escape, is_space, items, key, lemma_first_item, lemma_first_member,
    lemma_key, lemma_scalar, lemma_skip_digits, lemma_skip_space, lemma_string_char,
    lemma_string_rest, lemma_value, members, more_items, more_members, next_member, null_word,
    scalar, skip_space, string_char, string_rest, true_word, value, Fault, Place, Tree,
};
use crate::json::{doc, item_docs, lemma_item_docs, lemma_member_docs, member_docs, Json};
use crate::strings::string_lexeme;
use crate::tape::{item_nodes, member_nodes, node, recorded_depth, tree_nodes, Node, NodeKind};
use vstd::prelude::*;

verus! {

/// A byte that is a lexeme of its own.
pub open spec fn structural(b: u8) -> bool {
    b == LBRACE || b == RBRACE || b == LBRACKET || b == RBRACKET || b == COLON || b == COMMA
}

/// A byte of a word.
pub open spec fn word_byte(b: u8) -> bool {
    !is_space(b) && !structural(b) && b != QUOTE
}

/// The first offset at or after `i` that does not hold a byte of a word.
pub open spec fn word_end(t: Seq<u8>, i: int) -> int
    decreases t.len() - i,
{
    if 0 <= i < t.len() && word_byte(t[i]) {
        word_end(t, i + 1)
    } else {
        i
    }
}

/// The offset just past the quote that closes a string whose body goes on at `i`; `None` if
/// none does. A backslash keeps the byte after it from closing the string.
pub open spec fn string_end(t: Seq<u8>, i: int) -> Option<int>
    decreases t.len() + 1 - i,
{
    if i < 0 || i >= t.len() {
        None
    } else if t[i] == QUOTE {
        Some(i + 1)
    } else if t[i] == BACKSLASH {
        string_end(t, i + 2)
    } else {
        string_end(t, i + 1)
    }
}

/// The length of the lexeme that opens a text which does not begin with whitespace. A string
/// that is not closed goes on to the end.
pub open spec fn lexeme_len(t: Seq<u8>) -> int {
    if t[0] == QUOTE {
        match string_end(t, 1) {
            Some(end) => end,
            None => t.len() as int,
        }
    } else if structural(t[0]) {
        1
    } else {
        word_end(t, 1)
    }
}

/// A text from its first byte on that is no whitespace.
pub open spec fn trimmed(t: Seq<u8>) -> Seq<u8> {
    t.skip(skip_space(t, 0))
}

/// The lexemes of a text.
pub open spec fn lexemes(t: Seq<u8>) -> Seq<Seq<u8>>
    decreases t.len(),
{
    let u = trimmed(t);
    if u.len() == 0 {
        Seq::empty()
    } else if u.len() <= t.len() && 0 < lexeme_len(u) <= u.len() {
        seq![u.take(lexeme_len(u))] + lexemes(u.skip(lexeme_len(u)))
    } else {
        arbitrary()
    }
}

/// Whether every string of a text is closed.
pub open spec fn closed(t: Seq<u8>) -> bool
    decreases t.len(),
{
    let u = trimmed(t);
    if u.len() == 0 {
        true
    } else if u.len() <= t.len() && 0 < lexeme_len(u) <= u.len() {
        (u[0] == QUOTE ==> string_end(u, 1) is Some) && closed(u.skip(lexeme_len(u)))
    } else {
        arbitrary()
    }
}

/// Whether bytes are whitespace.
pub open spec fn blank(w: Seq<u8>) -> bool {
    forall|k: int| 0 <= k < w.len() ==> is_space(#[trigger] w[k])
}

// ---------------------------------------------------------------------------
// Cutting
// ---------------------------------------------------------------------------

pub proof fn lemma_word_end(t: Seq<u8>, i: int)
    requires
        0 <= i <= t.len(),
    ensures
        i <= word_end(t, i) <= t.len(),
        word_end(t, i) < t.len() ==> !word_byte(t[word_end(t, i)]),
        forall|k: int| i <= k < word_end(t, i) ==> word_byte(t[k]),
    decreases t.len() - i,
{
    if i < t.len() && word_byte(t[i]) {
        lemma_word_end(t, i + 1);
    }
}

/// Bytes of a word up to a byte that is none, or to the end, are the word.
proof fn lemma_word_upto(t: Seq<u8>, i: int, end: int)
    requires
        0 <= i <= end <= t.len(),
        forall|k: int| i <= k < end ==> word_byte(t[k]),
        end < t.len() ==> !word_byte(t[end]),
    ensures
        word_end(t, i) == end,
    decreases end - i,
{
    if i < end {
        lemma_word_upto(t, i + 1, end);
    }
}

pub proof fn lemma_string_end(t: Seq<u8>, i: int)
    requires
        0 <= i,
    ensures
        string_end(t, i) matches Some(end) ==> i < end <= t.len(),
    decreases t.len() + 1 - i,
{
    if i < t.len() && t[i] != QUOTE {
        if t[i] == BACKSLASH {
            lemma_string_end(t, i + 2);
        } else {
            lemma_string_end(t, i + 1);
        }
    }
}

/// What stands before a text or behind a string does not move the string's end.
proof fn lemma_string_end_within(t: Seq<u8>, i: int, before: Seq<u8>, after: Seq<u8>)
    requires
        0 <= i,
        string_end(t, i) is Some,
    ensures
        string_end(before + t + after, before.len() + i) == Some(
            before.len() + string_end(t, i)->0,
        ),
    decreases t.len() + 1 - i,
{
    let s = before + t + after;
    assert(s[before.len() + i] == t[i]);
    if t[i] != QUOTE {
        if t[i] == BACKSLASH {
            lemma_string_end_within(t, i + 2, before, after);
        } else {
            lemma_string_end_within(t, i + 1, before, after);
        }
    }
}

/// The lexeme that opens a text lies within it.
pub proof fn lemma_lexeme_len(t: Seq<u8>)
    requires
        t.len() > 0,
        !is_space(t[0]),
    ensures
        0 < lexeme_len(t) <= t.len(),
{
    lemma_string_end(t, 1);
    lemma_word_end(t, 1);
}

/// The lexemes of a text from offset `i` on: none, or the one that stands after the whitespace
/// and those after it.
pub proof fn lemma_cut(s: Seq<u8>, i: int)
    requires
        0 <= i <= s.len(),
    ensures
        ({
            let p = skip_space(s, i);
            let u = s.skip(p);
            &&& i <= p <= s.len()
            &&& lexemes(s.skip(i)) == lexemes(u)
            &&& p == s.len() ==> lexemes(s.skip(i)).len() == 0
            &&& p < s.len() ==> {
                &&& !is_space(s[p])
                &&& 0 < lexeme_len(u) <= s.len() - p
                &&& lexemes(s.skip(i)) == seq![s.subrange(p, p + lexeme_len(u))] + lexemes(
                    s.skip(p + lexeme_len(u)),
                )
            }
        }),
{
    lemma_skip_space(s, i);
    let p = skip_space(s, i);
    let t = s.skip(i);
    let u = s.skip(p);
    lemma_space_shift(s, i, 0);
    assert(trimmed(t) =~= u);
    lemma_space_shift(s, p, 0);
    assert(trimmed(u) =~= u) by {
        assert(skip_space(s, p) == p);
    }
    if p < s.len() {
        assert(u[0] == s[p]);
        lemma_lexeme_len(u);
        let n = lexeme_len(u);
        assert(u.take(n) =~= s.subrange(p, p + n));
        assert(u.skip(n) =~= s.skip(p + n));
    }
}

proof fn lemma_space_shift(s: Seq<u8>, i: int, k: int)
    requires
        0 <= i,
        0 <= k,
        i + k <= s.len(),
    ensures
        skip_space(s.skip(i), k) + i == skip_space(s, i + k),
    decreases s.len() - i - k,
{
    if i + k < s.len() {
        assert(s.skip(i)[k] == s[i + k]);
        if is_space(s[i + k]) {
            lemma_space_shift(s, i, k + 1);
        }
    }
}

/// Whitespace in front of a text is no lexeme.
proof fn lemma_blank_prefix(w: Seq<u8>, y: Seq<u8>)
    requires
        blank(w),
    ensures
        lexemes(w + y) == lexemes(y),
{
    let t = w + y;
    lemma_cut(t, 0);
    lemma_cut(t, w.len() as int);
    assert(t.skip(0) =~= t);
    assert(t.skip(w.len() as int) =~= y);
    lemma_blank_skipped(w, y, 0);
}

proof fn lemma_blank_skipped(w: Seq<u8>, y: Seq<u8>, i: int)
    requires
        blank(w),
        0 <= i <= w.len(),
    ensures
        skip_space(w + y, i) == skip_space(w + y, w.len() as int),
    decreases w.len() - i,
{
    if i < w.len() {
        assert((w + y)[i] == w[i]);
        lemma_blank_skipped(w, y, i + 1);
    }
}

/// The lexeme that opens a text is not moved by whitespace behind the text, nor by what
/// follows the whitespace, if it is no open string.
proof fn lemma_lexeme_parted(u: Seq<u8>, w: Seq<u8>, y: Seq<u8>)
    requires
        u.len() > 0,
        !is_space(u[0]),
        u[0] == QUOTE ==> string_end(u, 1) is Some,
        blank(w),
        w.len() > 0,
    ensures
        0 < lexeme_len(u) <= u.len(),
        lexemes(u + w + y) == seq![u.take(lexeme_len(u))] + lexemes(
            u.skip(lexeme_len(u)) + w + y,
        ),
{
    let v = u + w + y;
    lemma_lexeme_len(u);
    let n = lexeme_len(u);
    assert(v[0] == u[0]);
    assert(lexeme_len(v) == n) by {
        if u[0] == QUOTE {
            lemma_string_end_within(u, 1, Seq::empty(), w + y);
            assert(Seq::<u8>::empty() + u + (w + y) =~= v);
        } else if !structural(u[0]) {
            lemma_word_end(u, 1);
            assert forall|k: int| 1 <= k < n implies word_byte(v[k]) by {
                assert(v[k] == u[k]);
            }
            if n == u.len() {
                assert(v[n] == w[0]);
            } else {
                assert(v[n] == u[n]);
            }
            lemma_word_upto(v, 1, n);
        }
    }
    lemma_cut(v, 0);
    assert(v.skip(0) =~= v);
    assert(skip_space(v, 0) == 0);
    assert(v.subrange(0, n) =~= u.take(n));
    assert(v.skip(n) =~= u.skip(n) + w + y);
}

/// Whitespace, at least one byte, parts what stands before it from what stands behind, if it
/// does not stand in a string.
proof fn lemma_parted(x: Seq<u8>, w: Seq<u8>, y: Seq<u8>)
    requires
        closed(x),
        blank(w),
        w.len() > 0,
    ensures
        lexemes(x + w + y) == lexemes(x) + lexemes(y),
    decreases x.len(),
{
    lemma_skip_space(x, 0);
    let p = skip_space(x, 0);
    let u = trimmed(x);
    assert(x + w + y =~= x.take(p) + (u + w + y));
    lemma_blank_prefix(x.take(p), u + w + y);
    if u.len() == 0 {
        assert(u + w + y =~= w + y);
        lemma_blank_prefix(w, y);
        assert(lexemes(x) + lexemes(y) =~= lexemes(y));
    } else {
        lemma_lexeme_parted(u, w, y);
        let first = u.take(lexeme_len(u));
        let rest = u.skip(lexeme_len(u));
        lemma_parted(rest, w, y);
        assert(seq![first] + (lexemes(rest) + lexemes(y)) =~= seq![first] + lexemes(rest)
            + lexemes(y));
    }
}

/// Whitespace that is put between two lexemes, or taken away from between them, changes no
/// lexeme. The place lies between two lexemes if the parts on both sides have the lexemes of
/// the whole, and no string is open there.
pub proof fn law_space_between_lexemes(x: Seq<u8>, w: Seq<u8>, y: Seq<u8>)
    requires
        closed(x),
        lexemes(x + y) == lexemes(x) + lexemes(y),
        blank(w),
    ensures
        lexemes(x + w + y) == lexemes(x + y),
{
    if w.len() == 0 {
        assert(x + w + y =~= x + y);
    } else {
        lemma_parted(x, w, y);
    }
}

// ---------------------------------------------------------------------------
// Documents
// ---------------------------------------------------------------------------

/// The comma that precedes every child but the first, as a lexeme.
pub open spec fn comma(first: bool) -> Seq<Seq<u8>> {
    if first {
        Seq::empty()
    } else {
        seq![seq![COMMA]]
    }
}

/// The lexemes that a document is written with.
pub open spec fn doc_lexemes(j: Json) -> Seq<Seq<u8>>
    decreases j,
{
    match j {
        Json::Scalar(l) => seq![l],
        Json::String(l) => seq![l],
        Json::Array(elements) => seq![seq![LBRACKET]] + item_lexemes(elements, true) + seq![
            seq![RBRACKET],
        ],
        Json::Object(fields) => seq![seq![LBRACE]] + member_lexemes(fields, true) + seq![
            seq![RBRACE],
        ],
    }
}

pub open spec fn item_lexemes(elements: Seq<Json>, first: bool) -> Seq<Seq<u8>>
    decreases elements,
{
    if elements.len() == 0 {
        Seq::empty()
    } else {
        comma(first) + doc_lexemes(elements[0]) + item_lexemes(elements.drop_first(), false)
    }
}

pub open spec fn member_lexemes(fields: Seq<(Seq<u8>, Json)>, first: bool) -> Seq<Seq<u8>>
    decreases fields,
{
    if fields.len() == 0 {
        Seq::empty()
    } else {
        comma(first) + seq![fields[0].0, seq![COLON]] + doc_lexemes(fields[0].1) + member_lexemes(
            fields.drop_first(),
            false,
        )
    }
}

/// The kind of a node that records a literal or a number.
pub open spec fn scalar_kind(l: Seq<u8>) -> NodeKind {
    if l == null_word() {
        NodeKind::Null
    } else if l == true_word() {
        NodeKind::Bool(true)
    } else if l == false_word() {
        NodeKind::Bool(false)
    } else {
        NodeKind::Number
    }
}

/// What a node says besides where it stands: its kind, its depth and its lexeme.
pub open spec fn entry(n: Node, s: Seq<u8>) -> (NodeKind, u16, Seq<u8>) {
    (n.kind, n.depth, s.subrange(n.span.start as int, n.span.end as int))
}

/// What the nodes of a tape say besides where they stand.
pub open spec fn entries(nodes: Seq<Node>, s: Seq<u8>) -> Seq<(NodeKind, u16, Seq<u8>)> {
    Seq::new(nodes.len(), |i: int| entry(nodes[i], s))
}

/// What the tape of a document says inside `depth` containers.
pub open spec fn doc_entries(j: Json, depth: int) -> Seq<(NodeKind, u16, Seq<u8>)>
    decreases j,
{
    let d = recorded_depth(depth);
    match j {
        Json::Scalar(l) => seq![(scalar_kind(l), d, l)],
        Json::String(l) => seq![(NodeKind::String, d, l)],
        Json::Array(elements) => seq![
            (NodeKind::ArrayStart { elements: elements.len() as u32 }, d, seq![LBRACKET]),
        ] + element_entries(elements, depth + 1) + seq![(NodeKind::ArrayEnd, d, seq![RBRACKET])],
        Json::Object(fields) => seq![
            (NodeKind::ObjectStart { members: fields.len() as u32 }, d, seq![LBRACE]),
        ] + field_entries(fields, depth + 1) + seq![(NodeKind::ObjectEnd, d, seq![RBRACE])],
    }
}

pub open spec fn element_entries(elements: Seq<Json>, depth: int) -> Seq<(NodeKind, u16, Seq<u8>)>
    decreases elements,
{
    if elements.len() == 0 {
        Seq::empty()
    } else {
        doc_entries(elements[0], depth) + element_entries(elements.drop_first(), depth)
    }
}

pub open spec fn field_entries(fields: Seq<(Seq<u8>, Json)>, depth: int) -> Seq<
    (NodeKind, u16, Seq<u8>),
>
    decreases fields,
{
    if fields.len() == 0 {
        Seq::empty()
    } else {
        seq![(NodeKind::Key, recorded_depth(depth), fields[0].0)] + doc_entries(
            fields[0].1,
            depth,
        ) + field_entries(fields.drop_first(), depth)
    }
}

/// Whether no word goes on at offset `end`.
pub open spec fn word_stops(s: Seq<u8>, end: int) -> bool {
    end >= s.len() || !word_byte(s[end])
}

/// A structural byte is cut off by itself.
proof fn lemma_cut_structural(s: Seq<u8>, i: int)
    requires
        0 <= i <= s.len(),
        skip_space(s, i) < s.len(),
        structural(s[skip_space(s, i)]),
    ensures
        ({
            let p = skip_space(s, i);
            i <= p && lexemes(s.skip(i)) == seq![seq![s[p]]] + lexemes(s.skip(p + 1))
        }),
{
    lemma_cut(s, i);
    let p = skip_space(s, i);
    assert(s.skip(p)[0] == s[p]);
    assert(s.subrange(p, p + 1) =~= seq![s[p]]);
}

/// A string that the grammar reads is closed where the grammar says.
proof fn lemma_string_rest_end(s: Seq<u8>, i: int, end: int)
    requires
        0 <= i <= s.len(),
        string_rest(s, i) == Ok::<int, Fault>(end),
    ensures
        string_end(s, i) == Some(end),
    decreases s.len() - i,
{
    if s[i] != QUOTE {
        lemma_string_char(s, i);
        let j = string_char(s, i)->Ok_0;
        lemma_string_rest_end(s, j, end);
        if s[i] == BACKSLASH && !is_short_escape(s[i + 1]) {
            reveal_with_fuel(hex_digits, 5);
            assert(j == i + 6);
            reveal_with_fuel(string_end, 6);
        }
    }
}

/// A string that the grammar reads is cut off whole.
proof fn lemma_cut_string(s: Seq<u8>, i: int, end: int)
    requires
        0 <= i <= s.len(),
        skip_space(s, i) < s.len(),
        s[skip_space(s, i)] == QUOTE,
        string_rest(s, skip_space(s, i) + 1) == Ok::<int, Fault>(end),
    ensures
        ({
            let p = skip_space(s, i);
            &&& i <= p < end <= s.len()
            &&& lexemes(s.skip(i)) == seq![s.subrange(p, end)] + lexemes(s.skip(end))
        }),
{
    lemma_cut(s, i);
    let p = skip_space(s, i);
    let u = s.skip(p);
    lemma_string_rest(s, p + 1);
    lemma_string_rest_end(s, p + 1, end);
    lemma_string_end_shift(s, p, 1);
    assert(u[0] == s[p]);
}

proof fn lemma_string_end_shift(s: Seq<u8>, p: int, k: int)
    requires
        0 <= p <= s.len(),
        0 <= k,
    ensures
        match string_end(s, p + k) {
            Some(end) => string_end(s.skip(p), k) == Some(end - p),
            None => string_end(s.skip(p), k) is None,
        },
    decreases s.len() + 1 - p - k,
{
    if p + k < s.len() {
        assert(s.skip(p)[k] == s[p + k]);
        if s[p + k] != QUOTE {
            if s[p + k] == BACKSLASH {
                lemma_string_end_shift(s, p, k + 2);
            } else {
                lemma_string_end_shift(s, p, k + 1);
            }
        }
    }
}

/// The lexeme of a literal or a number is a word.
proof fn lemma_scalar_word(l: Seq<u8>)
    requires
        scalar_lexeme(l),
    ensures
        l.len() > 0,
        forall|k: int| 0 <= k < l.len() ==> word_byte(#[trigger] l[k]),
{
    if number_lexeme(l) {
        let n = l.len() as int;
        let a = if l[0] == MINUS {
            1int
        } else {
            0int
        };
        let f = integer_part(l, a)->Ok_0;
        if a + 1 <= n {
            lemma_skip_digits(l, a + 1);
        }
        let x = fraction_part(l, f)->Ok_0;
        if f + 1 <= n {
            lemma_skip_digits(l, f + 1);
        }
        if x + 1 <= n {
            lemma_skip_digits(l, x + 1);
        }
        if x + 2 <= n {
            lemma_skip_digits(l, x + 2);
        }
        assert forall|k: int| 0 <= k < n implies word_byte(#[trigger] l[k]) by {
            if k < a {
            } else if k < f {
            } else if k < x {
            } else {
            }
        }
    }
}

/// A word that stands at `p` and does not go on is cut off whole.
proof fn lemma_cut_word(s: Seq<u8>, i: int, end: int)
    requires
        0 <= i <= s.len(),
        skip_space(s, i) < end <= s.len(),
        forall|k: int| skip_space(s, i) <= k < end ==> word_byte(s[k]),
        word_stops(s, end),
    ensures
        ({
            let p = skip_space(s, i);
            i <= p && lexemes(s.skip(i)) == seq![s.subrange(p, end)] + lexemes(s.skip(end))
        }),
{
    lemma_cut(s, i);
    let p = skip_space(s, i);
    let u = s.skip(p);
    assert(u[0] == s[p]);
    assert forall|k: int| 1 <= k < end - p implies word_byte(u[k]) by {
        assert(u[k] == s[p + k]);
    }
    if end < s.len() {
        assert(u[end - p] == s[end]);
    }
    lemma_word_upto(u, 1, end - p);
}

// ---------------------------------------------------------------------------
// A document has the lexemes that it is written with
// ---------------------------------------------------------------------------

proof fn lemma_entries_concat(a: Seq<Node>, b: Seq<Node>, s: Seq<u8>)
    ensures
        entries(a + b, s) == entries(a, s) + entries(b, s),
{
    assert(entries(a + b, s) =~= entries(a, s) + entries(b, s));
}

/// What is said of a value that the grammar reads from `i` to `end`.
spec fn value_cut(tree: Tree, s: Seq<u8>, i: int, end: int, depth: int) -> bool {
    &&& lexemes(s.skip(i)) == doc_lexemes(doc(tree, s)) + lexemes(s.skip(end))
    &&& s.len() <= u32::MAX ==> entries(tree_nodes(tree, depth), s) == doc_entries(
        doc(tree, s),
        depth,
    )
}

/// What is said of elements that the grammar reads from `i` to the closing bracket.
spec fn items_cut(
    ts: Seq<Tree>,
    s: Seq<u8>,
    i: int,
    close: int,
    depth: int,
    first: bool,
) -> bool {
    &&& lexemes(s.skip(i)) == item_lexemes(item_docs(ts, s), first) + lexemes(s.skip(close))
    &&& s.len() <= u32::MAX ==> entries(item_nodes(ts, depth), s) == element_entries(
        item_docs(ts, s),
        depth,
    )
}

/// What is said of members that the grammar reads from `i` to the closing brace.
spec fn members_cut(
    ms: Seq<(Place, Tree)>,
    s: Seq<u8>,
    i: int,
    close: int,
    depth: int,
    first: bool,
) -> bool {
    &&& lexemes(s.skip(i)) == member_lexemes(member_docs(ms, s), first) + lexemes(s.skip(close))
    &&& s.len() <= u32::MAX ==> entries(member_nodes(ms, depth), s) == field_entries(
        member_docs(ms, s),
        depth,
    )
}

proof fn lemma_scalar_cut(s: Seq<u8>, i: int, depth: int)
    requires
        0 <= i <= s.len(),
        skip_space(s, i) < s.len(),
        scalar(s, skip_space(s, i)) is Ok,
        word_stops(s, scalar(s, skip_space(s, i))->Ok_0.1),
    ensures
        ({
            let (tree, end) = scalar(s, skip_space(s, i))->Ok_0;
            value_cut(tree, s, i, end, depth)
        }),
{
    let p = skip_space(s, i);
    lemma_skip_space(s, i);
    lemma_scalar(s, p);
    lemma_scalar_read(s, p, 0, 0);
    let (tree, end) = scalar(s, p)->Ok_0;
    let l = s.subrange(p, end);
    if s[p] == QUOTE {
        lemma_cut_string(s, i, end);
    } else {
        lemma_scalar_word(l);
        assert forall|k: int| p <= k < end implies word_byte(s[k]) by {
            assert(l[k - p] == s[k]);
        }
        lemma_cut_word(s, i, end);
        assert(l[0] == s[p]);
        assert(null_word()[0] == 0x6E && true_word()[0] == 0x74 && false_word()[0] == 0x66);
    }
    assert(entries(tree_nodes(tree, depth), s) =~= doc_entries(doc(tree, s), depth) || s.len()
        > u32::MAX);
}

proof fn lemma_value_cut(s: Seq<u8>, i: int, depth: int, limit: int)
    requires
        0 <= i <= s.len(),
        value(s, i, depth, limit) is Ok,
        word_stops(s, value(s, i, depth, limit)->Ok_0.1),
    ensures
        ({
            let (tree, end) = value(s, i, depth, limit)->Ok_0;
            value_cut(tree, s, i, end, depth)
        }),
    decreases s.len() - i, 3int,
{
    lemma_skip_space(s, i);
    let p = skip_space(s, i);
    if s[p] == LBRACE {
        lemma_first_member(s, p + 1, depth + 1, limit);
        lemma_first_member_cut(s, p + 1, depth + 1, limit);
        let (ms, close) = first_member(s, p + 1, depth + 1, limit)->Ok_0;
        lemma_cut_structural(s, i);
        assert(skip_space(s, close) == close);
        lemma_cut_structural(s, close);
        lemma_around(
            Tree::Object { open: p, members: ms, close },
            s,
            member_lexemes(member_docs(ms, s), true),
            lexemes(s.skip(close + 1)),
            depth,
        );
    } else if s[p] == LBRACKET {
        lemma_first_item(s, p + 1, depth + 1, limit);
        lemma_first_item_cut(s, p + 1, depth + 1, limit);
        let (ts, close) = first_item(s, p + 1, depth + 1, limit)->Ok_0;
        lemma_cut_structural(s, i);
        assert(skip_space(s, close) == close);
        lemma_cut_structural(s, close);
        lemma_around(
            Tree::Array { open: p, items: ts, close },
            s,
            item_lexemes(item_docs(ts, s), true),
            lexemes(s.skip(close + 1)),
            depth,
        );
    } else {
        lemma_scalar_cut(s, i, depth);
    }
}

/// The brackets around what a container holds.
proof fn lemma_around(tree: Tree, s: Seq<u8>, inner: Seq<Seq<u8>>, after: Seq<Seq<u8>>, depth: int)
    requires
        match tree {
            Tree::Leaf { .. } => false,
            Tree::Array { open, items, close } => {
                &&& 0 <= open < close < s.len()
                &&& s[open] == LBRACKET
                &&& s[close] == RBRACKET
                &&& inner == item_lexemes(item_docs(items, s), true)
                &&& s.len() <= u32::MAX ==> entries(item_nodes(items, depth + 1), s)
                    == element_entries(item_docs(items, s), depth + 1)
            },
            Tree::Object { open, members, close } => {
                &&& 0 <= open < close < s.len()
                &&& s[open] == LBRACE
                &&& s[close] == RBRACE
                &&& inner == member_lexemes(member_docs(members, s), true)
                &&& s.len() <= u32::MAX ==> entries(member_nodes(members, depth + 1), s)
                    == field_entries(member_docs(members, s), depth + 1)
            },
        },
    ensures
        match tree {
            Tree::Leaf { .. } => true,
            Tree::Array { .. } => seq![seq![LBRACKET]] + (inner + (seq![seq![RBRACKET]] + after))
                == doc_lexemes(doc(tree, s)) + after,
            Tree::Object { .. } => seq![seq![LBRACE]] + (inner + (seq![seq![RBRACE]] + after))
                == doc_lexemes(doc(tree, s)) + after,
        },
        s.len() <= u32::MAX ==> entries(tree_nodes(tree, depth), s) == doc_entries(
            doc(tree, s),
            depth,
        ),
{
    match tree {
        Tree::Array { open, items, close } => {
            assert(seq![seq![LBRACKET]] + (inner + (seq![seq![RBRACKET]] + after))
                =~= doc_lexemes(doc(tree, s)) + after);
            let start = node(
                NodeKind::ArrayStart { elements: items.len() as u32 },
                open,
                open + 1,
                depth,
            );
            let end = node(NodeKind::ArrayEnd, close, close + 1, depth);
            lemma_item_docs(items, s);
            lemma_entries_concat(seq![start], item_nodes(items, depth + 1), s);
            lemma_entries_concat(seq![start] + item_nodes(items, depth + 1), seq![end], s);
            if s.len() <= u32::MAX {
                assert(s.subrange(open, open + 1) =~= seq![LBRACKET]);
                assert(s.subrange(close, close + 1) =~= seq![RBRACKET]);
                assert(entries(seq![start], s) =~= seq![entry(start, s)]);
                assert(entries(seq![end], s) =~= seq![entry(end, s)]);
            }
        },
        Tree::Object { open, members, close } => {
            assert(seq![seq![LBRACE]] + (inner + (seq![seq![RBRACE]] + after)) =~= doc_lexemes(
                doc(tree, s),
            ) + after);
            let start = node(
                NodeKind::ObjectStart { members: members.len() as u32 },
                open,
                open + 1,
                depth,
            );
            let end = node(NodeKind::ObjectEnd, close, close + 1, depth);
            lemma_member_docs(members, s);
            lemma_entries_concat(seq![start], member_nodes(members, depth + 1), s);
            lemma_entries_concat(seq![start] + member_nodes(members, depth + 1), seq![end], s);
            if s.len() <= u32::MAX {
                assert(s.subrange(open, open + 1) =~= seq![LBRACE]);
                assert(s.subrange(close, close + 1) =~= seq![RBRACE]);
                assert(entries(seq![start], s) =~= seq![entry(start, s)]);
                assert(entries(seq![end], s) =~= seq![entry(end, s)]);
            }
        },
        _ => {},
    }
}

proof fn lemma_first_item_cut(s: Seq<u8>, i: int, depth: int, limit: int)
    requires
        0 <= i <= s.len(),
        first_item(s, i, depth, limit) is Ok,
    ensures
        ({
            let (ts, close) = first_item(s, i, depth, limit)->Ok_0;
            items_cut(ts, s, i, close, depth, true)
        }),
    decreases s.len() - i, 5int,
{
    lemma_cut(s, i);
    let p = skip_space(s, i);
    if s[p] != RBRACKET {
        lemma_items_cut(s, p, depth, limit);
    } else {
        assert(item_docs(Seq::empty(), s) =~= Seq::empty());
        assert(entries(Seq::empty(), s) =~= Seq::empty());
        assert(Seq::<Seq<u8>>::empty() + lexemes(s.skip(p)) =~= lexemes(s.skip(p)));
    }
}

proof fn lemma_items_cut(s: Seq<u8>, i: int, depth: int, limit: int)
    requires
        0 <= i <= s.len(),
        items(s, i, depth, limit) is Ok,
    ensures
        ({
            let (ts, close) = items(s, i, depth, limit)->Ok_0;
            &&& ts.len() > 0
            &&& items_cut(ts, s, i, close, depth, true)
        }),
    decreases s.len() - i, 4int,
{
    lemma_value(s, i, depth, limit);
    let (first, j) = value(s, i, depth, limit)->Ok_0;
    lemma_skip_space(s, j);
    assert(word_stops(s, j)) by {
        if !is_space(s[j]) {
            assert(skip_space(s, j) == j);
        }
    }
    lemma_value_cut(s, i, depth, limit);
    lemma_more_items_cut(s, j, depth, limit);
    let (rest, close) = more_items(s, j, depth, limit)->Ok_0;
    let all = seq![first] + rest;
    assert(all.drop_first() =~= rest);
    assert(item_docs(all, s).drop_first() =~= item_docs(rest, s));
    let a = doc_lexemes(doc(first, s));
    let b = item_lexemes(item_docs(rest, s), false);
    let c = lexemes(s.skip(close));
    assert(a + (b + c) =~= Seq::<Seq<u8>>::empty() + a + b + c);
    lemma_entries_concat(tree_nodes(first, depth), item_nodes(rest, depth), s);
}

proof fn lemma_more_items_cut(s: Seq<u8>, i: int, depth: int, limit: int)
    requires
        0 <= i <= s.len(),
        more_items(s, i, depth, limit) is Ok,
    ensures
        ({
            let (ts, close) = more_items(s, i, depth, limit)->Ok_0;
            items_cut(ts, s, i, close, depth, false)
        }),
    decreases s.len() - i, 2int,
{
    lemma_cut(s, i);
    let p = skip_space(s, i);
    if s[p] == COMMA {
        lemma_items_cut(s, p + 1, depth, limit);
        lemma_cut_structural(s, i);
        let (ts, close) = more_items(s, i, depth, limit)->Ok_0;
        let js = item_docs(ts, s);
        lemma_item_docs(ts, s);
        let a = doc_lexemes(js[0]);
        let b = item_lexemes(js.drop_first(), false);
        let c = lexemes(s.skip(close));
        assert(seq![seq![COMMA]] + (Seq::<Seq<u8>>::empty() + a + b + c) =~= seq![seq![COMMA]] + a
            + b + c);
    } else {
        assert(item_docs(Seq::empty(), s) =~= Seq::empty());
        assert(entries(Seq::empty(), s) =~= Seq::empty());
        assert(Seq::<Seq<u8>>::empty() + lexemes(s.skip(p)) =~= lexemes(s.skip(p)));
    }
}

proof fn lemma_first_member_cut(s: Seq<u8>, i: int, depth: int, limit: int)
    requires
        0 <= i <= s.len(),
        first_member(s, i, depth, limit) is Ok,
    ensures
        ({
            let (ms, close) = first_member(s, i, depth, limit)->Ok_0;
            members_cut(ms, s, i, close, depth, true)
        }),
    decreases s.len() - i, 5int,
{
    lemma_cut(s, i);
    let p = skip_space(s, i);
    if s[p] == QUOTE {
        lemma_members_cut(s, p, depth, limit);
    } else {
        assert(member_docs(Seq::empty(), s) =~= Seq::empty());
        assert(entries(Seq::empty(), s) =~= Seq::empty());
        assert(Seq::<Seq<u8>>::empty() + lexemes(s.skip(p)) =~= lexemes(s.skip(p)));
    }
}

proof fn lemma_members_cut(s: Seq<u8>, p: int, depth: int, limit: int)
    requires
        0 <= p < s.len(),
        s[p] == QUOTE,
        members(s, p, depth, limit) is Ok,
    ensures
        ({
            let (ms, close) = members(s, p, depth, limit)->Ok_0;
            &&& ms.len() > 0
            &&& members_cut(ms, s, p, close, depth, true)
        }),
    decreases s.len() - p, 4int,
{
    lemma_key(s, p);
    let (place, v) = key(s, p)->Ok_0;
    assert(skip_space(s, p) == p);
    lemma_cut_string(s, p, place.end);
    lemma_skip_space(s, place.end);
    lemma_cut_structural(s, place.end);
    lemma_value(s, v, depth, limit);
    let (first, j) = value(s, v, depth, limit)->Ok_0;
    lemma_skip_space(s, j);
    assert(word_stops(s, j)) by {
        if !is_space(s[j]) {
            assert(skip_space(s, j) == j);
        }
    }
    lemma_value_cut(s, v, depth, limit);
    lemma_more_members_cut(s, j, depth, limit);
    let (rest, close) = more_members(s, j, depth, limit)->Ok_0;
    let all = seq![(place, first)] + rest;
    assert(all.drop_first() =~= rest);
    assert(member_docs(all, s).drop_first() =~= member_docs(rest, s));
    let k = s.subrange(p, place.end);
    let a = doc_lexemes(doc(first, s));
    let b = member_lexemes(member_docs(rest, s), false);
    let c = lexemes(s.skip(close));
    assert(seq![k] + (seq![seq![COLON]] + (a + (b + c))) =~= Seq::<Seq<u8>>::empty() + seq![
        k,
        seq![COLON],
    ] + a + b + c);
    let start = node(NodeKind::Key, place.start, place.end, depth);
    lemma_entries_concat(seq![start], tree_nodes(first, depth), s);
    lemma_entries_concat(seq![start] + tree_nodes(first, depth), member_nodes(rest, depth), s);
    assert(entries(seq![start], s) =~= seq![entry(start, s)]);
}

proof fn lemma_next_member_cut(s: Seq<u8>, i: int, depth: int, limit: int)
    requires
        0 <= i <= s.len(),
        next_member(s, i, depth, limit) is Ok,
    ensures
        ({
            let (ms, close) = next_member(s, i, depth, limit)->Ok_0;
            &&& ms.len() > 0
            &&& members_cut(ms, s, i, close, depth, true)
        }),
    decreases s.len() - i, 5int,
{
    lemma_cut(s, i);
    lemma_members_cut(s, skip_space(s, i), depth, limit);
}

proof fn lemma_more_members_cut(s: Seq<u8>, i: int, depth: int, limit: int)
    requires
        0 <= i <= s.len(),
        more_members(s, i, depth, limit) is Ok,
    ensures
        ({
            let (ms, close) = more_members(s, i, depth, limit)->Ok_0;
            members_cut(ms, s, i, close, depth, false)
        }),
    decreases s.len() - i, 2int,
{
    lemma_cut(s, i);
    let p = skip_space(s, i);
    if s[p] == COMMA {
        lemma_next_member_cut(s, p + 1, depth, limit);
        lemma_cut_structural(s, i);
        let (ms, close) = more_members(s, i, depth, limit)->Ok_0;
        let js = member_docs(ms, s);
        lemma_member_docs(ms, s);
        let k = seq![js[0].0, seq![COLON]];
        let a = doc_lexemes(js[0].1);
        let b = member_lexemes(js.drop_first(), false);
        let c = lexemes(s.skip(close));
        assert(seq![seq![COMMA]] + (Seq::<Seq<u8>>::empty() + k + a + b + c) =~= seq![seq![COMMA]]
            + k + a + b + c);
    } else {
        assert(member_docs(Seq::empty(), s) =~= Seq::empty());
        assert(entries(Seq::empty(), s) =~= Seq::empty());
        assert(Seq::<Seq<u8>>::empty() + lexemes(s.skip(p)) =~= lexemes(s.skip(p)));
    }
}

/// A text that holds a document has the lexemes that the document is written with, and its
/// tape says what the document's does.
pub proof fn lemma_document_cut(s: Seq<u8>, limit: int)
    requires
        document(s, limit) is Ok,
    ensures
        ({
            let tree = document(s, limit)->Ok_0;
            &&& lexemes(s) == doc_lexemes(doc(tree, s))
            &&& s.len() <= u32::MAX ==> entries(tree_nodes(tree, 0), s) == doc_entries(
                doc(tree, s),
                0,
            )
        }),
{
    lemma_value(s, 0, 0, limit);
    let (tree, end) = value(s, 0, 0, limit)->Ok_0;
    lemma_skip_space(s, end);
    lemma_value_cut(s, 0, 0, limit);
    lemma_cut(s, end);
    assert(s.skip(0) =~= s);
    assert(doc_lexemes(doc(tree, s)) + lexemes(s.skip(end)) =~= doc_lexemes(doc(tree, s)));
}

// ---------------------------------------------------------------------------
// The lexemes of a document are read as the document
// ---------------------------------------------------------------------------

/// The first lexeme stands in the text after the whitespace, and the others behind it.
proof fn lemma_head(s: Seq<u8>, i: int, l: Seq<u8>, rest: Seq<Seq<u8>>)
    requires
        0 <= i <= s.len(),
        lexemes(s.skip(i)) == seq![l] + rest,
    ensures
        ({
            let p = skip_space(s, i);
            &&& i <= p < s.len()
            &&& l.len() > 0
            &&& l.len() == lexeme_len(s.skip(p))
            &&& holds(s, p, l)
            &&& s[p] == l[0]
            &&& lexemes(s.skip(p + l.len())) == rest
        }),
{
    lemma_cut(s, i);
    let p = skip_space(s, i);
    let all = seq![l] + rest;
    assert(all[0] == l);
    assert(p < s.len());
    let n = lexeme_len(s.skip(p));
    let cut = seq![s.subrange(p, p + n)] + lexemes(s.skip(p + n));
    assert(cut[0] == s.subrange(p, p + n));
    assert(all.drop_first() =~= rest);
    assert(cut.drop_first() =~= lexemes(s.skip(p + n)));
    assert(l[0] == s[p]);
}

/// A document's lexemes begin with one that is neither whitespace nor a closing bracket.
proof fn lemma_doc_lexemes_start(j: Json)
    requires
        proper(j),
    ensures
        doc_lexemes(j).len() > 0,
        doc_lexemes(j)[0].len() > 0,
        doc_lexemes(j)[0][0] != RBRACKET,
        doc_lexemes(j) == seq![doc_lexemes(j)[0]] + doc_lexemes(j).drop_first(),
{
    match j {
        Json::Scalar(l) => {
            lemma_lexeme_start(l);
        },
        Json::String(l) => {
            lemma_lexeme_start(l);
        },
        _ => {},
    }
    assert(doc_lexemes(j) =~= seq![doc_lexemes(j)[0]] + doc_lexemes(j).drop_first());
}

proof fn lemma_scalar_found(l: Seq<u8>, s: Seq<u8>, i: int, rest: Seq<Seq<u8>>)
    requires
        scalar_lexeme(l) || string_lexeme(l),
        0 <= i <= s.len(),
        lexemes(s.skip(i)) == seq![l] + rest,
    ensures
        ({
            let p = skip_space(s, i);
            &&& i <= p < s.len()
            &&& s[p] != LBRACE
            &&& s[p] != LBRACKET
            &&& scalar(s, p) matches Ok((tree, end)) && end == p + l.len() && lexemes(s.skip(end))
                == rest && doc(tree, s) == (if string_lexeme(l) {
                Json::String(l)
            } else {
                Json::Scalar(l)
            })
        }),
{
    lemma_head(s, i, l, rest);
    let p = skip_space(s, i);
    let end = p + l.len();
    lemma_lexeme_start(l);
    if string_lexeme(l) {
        lemma_string_back(l, s, p);
    } else {
        lemma_scalar_word(l);
        let u = s.skip(p);
        assert(u[0] == s[p]);
        lemma_word_end(u, 1);
        assert(word_stops(s, end)) by {
            if end < s.len() {
                assert(u[l.len() as int] == s[end]);
            }
        }
        assert(null_word()[0] == 0x6E && true_word()[0] == 0x74 && false_word()[0] == 0x66);
        if number_lexeme(l) {
            lemma_number_within(l, s, p);
        } else {
            assert(holds_at(s, p, l));
        }
    }
}

/// A text with the lexemes of a document is read as the document.
proof fn lemma_value_found(j: Json, s: Seq<u8>, i: int, depth: int, limit: int, rest: Seq<Seq<u8>>)
    requires
        proper(j),
        0 <= depth,
        nesting(j) > 0 ==> nesting(j) + depth <= limit,
        0 <= i <= s.len(),
        lexemes(s.skip(i)) == doc_lexemes(j) + rest,
    ensures
        value(s, i, depth, limit) matches Ok((tree, end)) && doc(tree, s) == j && lexemes(
            s.skip(end),
        ) == rest,
    decreases j,
{
    let p = skip_space(s, i);
    match j {
        Json::Scalar(l) => {
            lemma_scalar_found(l, s, i, rest);
            assert(!string_lexeme(l)) by {
                lemma_scalar_word(l);
            }
        },
        Json::String(l) => {
            lemma_scalar_found(l, s, i, rest);
        },
        Json::Array(elements) => {
            let inner = item_lexemes(elements, true);
            let after = inner + (seq![seq![RBRACKET]] + rest);
            assert(doc_lexemes(j) + rest =~= seq![seq![LBRACKET]] + after);
            lemma_head(s, i, seq![LBRACKET], after);
            if elements.len() == 0 {
                assert(after =~= seq![seq![RBRACKET]] + rest);
                lemma_head(s, p + 1, seq![RBRACKET], rest);
                assert(item_docs(Seq::empty(), s) =~= elements);
            } else {
                lemma_cut(s, p + 1);
                let q = skip_space(s, p + 1);
                lemma_items_found(elements, s, q, depth + 1, limit, rest);
                let first = doc_lexemes(elements[0]);
                lemma_doc_lexemes_start(elements[0]);
                let others = first.drop_first() + item_lexemes(elements.drop_first(), false) + (
                seq![seq![RBRACKET]] + rest);
                assert(after =~= seq![first[0]] + others);
                lemma_head(s, p + 1, first[0], others);
            }
        },
        Json::Object(fields) => {
            let inner = member_lexemes(fields, true);
            let after = inner + (seq![seq![RBRACE]] + rest);
            assert(doc_lexemes(j) + rest =~= seq![seq![LBRACE]] + after);
            lemma_head(s, i, seq![LBRACE], after);
            if fields.len() == 0 {
                assert(after =~= seq![seq![RBRACE]] + rest);
                lemma_head(s, p + 1, seq![RBRACE], rest);
                assert(member_docs(Seq::empty(), s) =~= fields);
            } else {
                lemma_cut(s, p + 1);
                let q = skip_space(s, p + 1);
                lemma_members_found(fields, s, q, depth + 1, limit, rest);
            }
        },
    }
}

proof fn lemma_items_found(
    elements: Seq<Json>,
    s: Seq<u8>,
    i: int,
    depth: int,
    limit: int,
    rest: Seq<Seq<u8>>,
)
    requires
        elements.len() > 0,
        proper_items(elements),
        0 <= depth,
        nesting_items(elements) > 0 ==> nesting_items(elements) + depth <= limit,
        0 <= i <= s.len(),
        lexemes(s.skip(i)) == item_lexemes(elements, true) + (seq![seq![RBRACKET]] + rest),
    ensures
        items(s, i, depth, limit) matches Ok((ts, close)) && item_docs(ts, s) == elements
            && lexemes(s.skip(close + 1)) == rest,
    decreases elements,
{
    let first = elements[0];
    let others = elements.drop_first();
    let a = doc_lexemes(first);
    let b = item_lexemes(others, false);
    let c = seq![seq![RBRACKET]] + rest;
    assert(item_lexemes(elements, true) + c =~= a + (b + c));
    lemma_nesting_rest(elements);
    lemma_value_found(first, s, i, depth, limit, b + c);
    lemma_value(s, i, depth, limit);
    let (t, j) = value(s, i, depth, limit)->Ok_0;
    if others.len() == 0 {
        assert(b + c =~= c);
        lemma_head(s, j, seq![RBRACKET], rest);
        assert(seq![t].drop_first() =~= Seq::<Tree>::empty());
        assert(seq![t] + Seq::<Tree>::empty() =~= seq![t]);
        reveal_with_fuel(item_docs, 2);
        assert(item_docs(seq![t], s) =~= elements);
    } else {
        let more = item_lexemes(others, true) + c;
        assert(b + c =~= seq![seq![COMMA]] + more);
        lemma_head(s, j, seq![COMMA], more);
        let q = skip_space(s, j);
        lemma_items_found(others, s, q + 1, depth, limit, rest);
        let ts = items(s, q + 1, depth, limit)->Ok_0.0;
        assert((seq![t] + ts).drop_first() =~= ts);
        assert(item_docs(seq![t] + ts, s) =~= elements);
    }
}

proof fn lemma_members_found(
    fields: Seq<(Seq<u8>, Json)>,
    s: Seq<u8>,
    i: int,
    depth: int,
    limit: int,
    rest: Seq<Seq<u8>>,
)
    requires
        fields.len() > 0,
        proper_members(fields),
        0 <= depth,
        nesting_members(fields) > 0 ==> nesting_members(fields) + depth <= limit,
        0 <= i <= s.len(),
        skip_space(s, i) == i,
        lexemes(s.skip(i)) == member_lexemes(fields, true) + (seq![seq![RBRACE]] + rest),
    ensures
        i < s.len(),
        s[i] == QUOTE,
        members(s, i, depth, limit) matches Ok((ms, close)) && member_docs(ms, s) == fields
            && lexemes(s.skip(close + 1)) == rest,
    decreases fields,
{
    let (k, first) = fields[0];
    let others = fields.drop_first();
    let a = doc_lexemes(first);
    let b = member_lexemes(others, false);
    let c = seq![seq![RBRACE]] + rest;
    let value_on = a + (b + c);
    assert(member_lexemes(fields, true) + c =~= seq![k] + (seq![seq![COLON]] + value_on));
    lemma_head(s, i, k, seq![seq![COLON]] + value_on);
    lemma_string_back(k, s, i);
    let end = i + k.len();
    lemma_head(s, end, seq![COLON], value_on);
    let v = skip_space(s, end) + 1;
    let place = Place { start: i, end };
    assert(key(s, i) == Ok::<(Place, int), Fault>((place, v)));
    lemma_value_found(first, s, v, depth, limit, b + c);
    lemma_value(s, v, depth, limit);
    let (t, j) = value(s, v, depth, limit)->Ok_0;
    if others.len() == 0 {
        assert(b + c =~= c);
        lemma_head(s, j, seq![RBRACE], rest);
        let one = seq![(place, t)];
        assert(one.drop_first() =~= Seq::<(Place, Tree)>::empty());
        assert(one + Seq::<(Place, Tree)>::empty() =~= one);
        reveal_with_fuel(member_docs, 2);
        assert(member_docs(one, s) =~= fields);
    } else {
        let more = member_lexemes(others, true) + c;
        assert(b + c =~= seq![seq![COMMA]] + more);
        lemma_head(s, j, seq![COMMA], more);
        let comma_at = skip_space(s, j);
        lemma_cut(s, comma_at + 1);
        let q = skip_space(s, comma_at + 1);
        lemma_members_found(others, s, q, depth, limit, rest);
        let ms = members(s, q, depth, limit)->Ok_0.0;
        assert((seq![(place, t)] + ms).drop_first() =~= ms);
        assert(member_docs(seq![(place, t)] + ms, s) =~= fields);
    }
}

/// A text with the lexemes of a document holds the document.
pub proof fn lemma_document_found(j: Json, s: Seq<u8>, limit: int)
    requires
        proper(j),
        nesting(j) > 0 ==> nesting(j) <= limit,
        lexemes(s) == doc_lexemes(j),
    ensures
        document(s, limit) matches Ok(tree) && doc(tree, s) == j,
{
    assert(s.skip(0) =~= s);
    assert(doc_lexemes(j) + Seq::<Seq<u8>>::empty() =~= doc_lexemes(j));
    lemma_value_found(j, s, 0, 0, limit, Seq::empty());
    lemma_value(s, 0, 0, limit);
    let (tree, end) = value(s, 0, 0, limit)->Ok_0;
    lemma_cut(s, end);
}

// ---------------------------------------------------------------------------
// Laws
// ---------------------------------------------------------------------------

proof fn lemma_same_document(a: Seq<u8>, b: Seq<u8>, limit: int)
    requires
        lexemes(a) == lexemes(b),
        document(a, limit) is Ok,
    ensures
        document(b, limit) matches Ok(tree) && doc(tree, b) == doc(document(a, limit)->Ok_0, a),
{
    lemma_document_cut(a, limit);
    lemma_document_read(a, limit);
    lemma_document_found(doc(document(a, limit)->Ok_0, a), b, limit);
}

/// Whitespace between lexemes is ignored: of two texts with the same lexemes both hold a
/// document within a nesting limit, or neither does; and if they do, it is the same document,
/// and their tapes agree, node for node, in kind, depth and lexeme.
pub proof fn law_whitespace_is_ignored(a: Seq<u8>, b: Seq<u8>, limit: int)
    requires
        lexemes(a) == lexemes(b),
    ensures
        document(a, limit) is Ok <==> document(b, limit) is Ok,
        document(a, limit) matches Ok(ta) ==> document(b, limit) matches Ok(tb) && {
            &&& doc(ta, a) == doc(tb, b)
            &&& a.len() <= u32::MAX && b.len() <= u32::MAX ==> {
                let na = tree_nodes(ta, 0);
                let nb = tree_nodes(tb, 0);
                &&& na.len() == nb.len()
                &&& forall|k: int|
                    0 <= k < na.len() ==> #[trigger] entry(na[k], a) == entry(nb[k], b)
            }
        },
{
    if document(a, limit) is Ok {
        lemma_same_document(a, b, limit);
        lemma_document_cut(a, limit);
        lemma_document_cut(b, limit);
        let na = tree_nodes(document(a, limit)->Ok_0, 0);
        let nb = tree_nodes(document(b, limit)->Ok_0, 0);
        if a.len() <= u32::MAX && b.len() <= u32::MAX {
            assert(entries(na, a) == entries(nb, b));
            assert(entries(na, a).len() == na.len());
            assert(entries(nb, b).len() == nb.len());
            assert forall|k: int| 0 <= k < na.len() implies #[trigger] entry(na[k], a) == entry(
                nb[k],
                b,
            ) by {
                assert(entries(na, a)[k] == entry(na[k], a));
                assert(entries(nb, b)[k] == entry(nb[k], b));
            }
        }
    }
    if document(b, limit) is Ok {
        lemma_same_document(b, a, limit);
    }
}

} // verus!
