//! Texts and documents: what the grammar reads is a proper document, and a proper document
//! written without whitespace is read back as it is.

use crate::ascii::{
    COLON, COMMA, DOT, LBRACE, LBRACKET, LOWER_E, MINUS, QUOTE, RBRACE, RBRACKET, UPPER_E,
};
use crate::encoder::e1_minify::lemma_ascii_boundary;
use crate::grammar::{
    document, exponent_part, false_word, first_item, first_member, fraction_part, holds_at,
    integer_part, is_digit, is_space, items, key, lemma_key, lemma_number, lemma_scalar,
    lemma_skip_digits, lemma_skip_space, lemma_value, members, more_items, more_members,
    next_member, null_word, number, scalar, skip_digits, skip_space, string_rest, true_word,
    value, Fault, Place, Tree,
};
use crate::json::{
    doc, item_docs, item_meanings, items_recordable, items_resolvable, lexeme, meaning,
    member_docs, member_meanings, members_recordable, members_resolvable, minified,
    minified_items, minified_members, recordable, resolvable, restyled, restyled_items,
    restyled_members, styled, Json, Style,
};
use crate::never_compress::protected;
use crate::strings::{
    body, law_canonical_keeps_meaning, law_one_canonical_spelling, lemma_sound_string_rest,
    lemma_string_rest_sound, string_lexeme, string_value,
};
use crate::text::sliceable;
use vstd::prelude::*;
use vstd::utf8::valid_utf8;

verus! {

/// Whether bytes are a number lexeme.
pub open spec fn number_lexeme(l: Seq<u8>) -> bool {
    &&& l.len() > 0
    &&& l[0] == MINUS || is_digit(l[0])
    &&& number(l, 0) == Ok::<int, Fault>(l.len() as int)
}

/// Whether bytes are the lexeme of a literal or a number.
pub open spec fn scalar_lexeme(l: Seq<u8>) -> bool {
    l == null_word() || l == true_word() || l == false_word() || number_lexeme(l)
}

/// Whether every lexeme of a document is one.
pub open spec fn proper(j: Json) -> bool
    decreases j,
{
    match j {
        Json::Scalar(l) => scalar_lexeme(l),
        Json::String(l) => string_lexeme(l),
        Json::Array(items) => proper_items(items),
        Json::Object(members) => proper_members(members),
    }
}

pub open spec fn proper_items(items: Seq<Json>) -> bool
    decreases items,
{
    items.len() == 0 || (proper(items[0]) && proper_items(items.drop_first()))
}

pub open spec fn proper_members(members: Seq<(Seq<u8>, Json)>) -> bool
    decreases members,
{
    members.len() == 0 || (string_lexeme(members[0].0) && proper(members[0].1) && proper_members(
        members.drop_first(),
    ))
}

/// How many containers of a document lie within one another.
pub open spec fn nesting(j: Json) -> nat
    decreases j,
{
    match j {
        Json::Scalar(_) | Json::String(_) => 0,
        Json::Array(items) => 1 + nesting_items(items),
        Json::Object(members) => 1 + nesting_members(members),
    }
}

pub open spec fn nesting_items(items: Seq<Json>) -> nat
    decreases items,
{
    if items.len() == 0 {
        0
    } else if nesting(items[0]) >= nesting_items(items.drop_first()) {
        nesting(items[0])
    } else {
        nesting_items(items.drop_first())
    }
}

pub open spec fn nesting_members(members: Seq<(Seq<u8>, Json)>) -> nat
    decreases members,
{
    if members.len() == 0 {
        0
    } else if nesting(members[0].1) >= nesting_members(members.drop_first()) {
        nesting(members[0].1)
    } else {
        nesting_members(members.drop_first())
    }
}

// ---------------------------------------------------------------------------
// Numbers in their surroundings
// ---------------------------------------------------------------------------

/// Whether a number that ends at offset `end` of `s` is not continued there.
pub open spec fn number_stops(s: Seq<u8>, end: int) -> bool {
    end >= s.len() || !(is_digit(s[end]) || s[end] == DOT || s[end] == LOWER_E || s[end]
        == UPPER_E)
}

/// A run of digits has the same end in a lexeme `l` and in a text that holds it at `d`.
proof fn lemma_digits_within(l: Seq<u8>, s: Seq<u8>, d: int, i: int)
    requires
        0 <= d,
        0 <= i <= l.len(),
        d + l.len() <= s.len(),
        s.subrange(d, d + l.len()) == l,
        d + l.len() < s.len() ==> !is_digit(s[d + l.len()]),
    ensures
        skip_digits(s, d + i) == d + skip_digits(l, i),
    decreases l.len() - i,
{
    if i < l.len() {
        assert(s.subrange(d, d + l.len())[i] == s[d + i]);
        if is_digit(l[i]) {
            lemma_digits_within(l, s, d, i + 1);
        }
    }
}

/// A number lexeme is read whole wherever it is not continued.
pub proof fn lemma_number_within(l: Seq<u8>, s: Seq<u8>, d: int)
    requires
        number_lexeme(l),
        0 <= d,
        d + l.len() <= s.len(),
        s.subrange(d, d + l.len()) == l,
        number_stops(s, (d + l.len()) as int),
    ensures
        number(s, d) == Ok::<int, Fault>(d + l.len()),
{
    let n = l.len() as int;
    assert(forall|k: int| 0 <= k < n ==> l[k] == s[d + k]) by {
        assert forall|k: int| 0 <= k < n implies l[k] == s[d + k] by {
            assert(s.subrange(d, d + n)[k] == s[d + k]);
        }
    }
    let a = if l[0] == MINUS {
        1int
    } else {
        0int
    };
    let f = integer_part(l, a)->Ok_0;
    assert(a < n);
    lemma_digits_within(l, s, d, a + 1);
    lemma_skip_digits(l, a + 1);
    assert(integer_part(s, d + a) == Ok::<int, Fault>(d + f));
    let x = fraction_part(l, f)->Ok_0;
    if f < n {
        lemma_digits_within(l, s, d, f + 1);
        lemma_skip_digits(l, f + 1);
    }
    assert(fraction_part(s, d + f) == Ok::<int, Fault>(d + x));
    if x < n {
        lemma_digits_within(l, s, d, x + 1);
        lemma_skip_digits(l, x + 1);
        if x + 1 < n {
            lemma_digits_within(l, s, d, x + 2);
            lemma_skip_digits(l, x + 2);
        }
    }
}

/// What the grammar reads as a number is a number lexeme.
pub proof fn lemma_number_lexeme(s: Seq<u8>, p: int, end: int)
    requires
        0 <= p < s.len(),
        s[p] == MINUS || is_digit(s[p]),
        number(s, p) == Ok::<int, Fault>(end),
    ensures
        p < end <= s.len(),
        number_lexeme(s.subrange(p, end)),
        s[end - 1] < 0x80,
{
    lemma_number(s, p);
    let l = s.subrange(p, end);
    let n = end - p;
    assert(forall|k: int| 0 <= k < n ==> l[k] == s[p + k]);
    let a = if s[p] == MINUS {
        1int
    } else {
        0int
    };
    let f = integer_part(s, p + a)->Ok_0;
    if p + a + 1 <= s.len() {
        lemma_skip_digits(s, p + a + 1);
    }
    let x = fraction_part(s, f)->Ok_0;
    if f + 1 <= s.len() {
        lemma_skip_digits(s, f + 1);
    }
    if x + 1 <= s.len() {
        lemma_skip_digits(s, x + 1);
    }
    if x + 2 <= s.len() {
        lemma_skip_digits(s, x + 2);
    }
    assert(end < s.len() ==> !is_digit(s[end]));
    lemma_digits_within(l, s, p, a + 1);
    assert(integer_part(l, a) == Ok::<int, Fault>(f - p));
    if f < end {
        lemma_digits_within(l, s, p, f - p + 1);
    }
    assert(fraction_part(l, f - p) == Ok::<int, Fault>(x - p));
    if x < end {
        lemma_digits_within(l, s, p, x - p + 1);
        if x + 1 < end {
            lemma_digits_within(l, s, p, x - p + 2);
        }
    }
    assert(exponent_part(l, x - p) == Ok::<int, Fault>(n));
}

// ---------------------------------------------------------------------------
// What the grammar reads
// ---------------------------------------------------------------------------

/// What is known of a tree that the grammar reads in `s` inside `depth` containers.
pub open spec fn read_well(tree: Tree, s: Seq<u8>, depth: int, limit: int) -> bool {
    &&& s.len() <= u32::MAX ==> recordable(tree)
    &&& valid_utf8(s) ==> resolvable(tree, s)
    &&& proper(doc(tree, s))
    &&& nesting(doc(tree, s)) > 0 ==> nesting(doc(tree, s)) + depth <= limit
}

/// A lexeme between ASCII bytes can be cut out.
proof fn lemma_sliceable(s: Seq<u8>, start: int, end: int)
    requires
        0 <= start < end <= s.len(),
        s[start] < 0x80,
        s[end - 1] < 0x80,
    ensures
        valid_utf8(s) ==> sliceable(s, start, end),
{
    if valid_utf8(s) {
        lemma_ascii_boundary(s, start);
        lemma_ascii_boundary(s, end - 1);
    }
}

proof fn lemma_string_read(s: Seq<u8>, p: int, end: int)
    requires
        0 <= p < s.len(),
        s[p] == QUOTE,
        string_rest(s, p + 1) == Ok::<int, Fault>(end),
    ensures
        p + 1 < end <= s.len(),
        string_lexeme(s.subrange(p, end)),
        valid_utf8(s) ==> sliceable(s, p, end),
{
    lemma_string_rest_sound(s, p + 1, end);
    let l = s.subrange(p, end);
    assert(body(l) =~= s.subrange(p + 1, end - 1));
    lemma_sliceable(s, p, end);
}

pub proof fn lemma_scalar_read(s: Seq<u8>, p: int, depth: int, limit: int)
    requires
        0 <= p < s.len(),
        scalar(s, p) is Ok,
    ensures
        ({
            let (tree, end) = scalar(s, p)->Ok_0;
            read_well(tree, s, depth, limit)
        }),
{
    lemma_scalar(s, p);
    let (tree, end) = scalar(s, p)->Ok_0;
    let b = s[p];
    if b == QUOTE {
        lemma_string_read(s, p, end);
    } else if b == MINUS || is_digit(b) {
        lemma_number_lexeme(s, p, end);
        lemma_sliceable(s, p, end);
    } else {
        let w = s.subrange(p, end);
        assert(w[end - p - 1] == s[end - 1]);
        lemma_sliceable(s, p, end);
    }
}

/// A value that the grammar reads is a proper document that can be cut out of the text.
pub proof fn lemma_value_read(s: Seq<u8>, i: int, depth: int, limit: int)
    requires
        0 <= i <= s.len(),
        value(s, i, depth, limit) is Ok,
    ensures
        read_well(value(s, i, depth, limit)->Ok_0.0, s, depth, limit),
    decreases s.len() - i, 3int,
{
    lemma_skip_space(s, i);
    let p = skip_space(s, i);
    if s[p] == LBRACE {
        lemma_first_member_read(s, p + 1, depth + 1, limit);
    } else if s[p] == LBRACKET {
        lemma_first_item_read(s, p + 1, depth + 1, limit);
    } else {
        lemma_scalar_read(s, p, depth, limit);
    }
}

/// What is known of elements that the grammar reads from offset `i` on.
pub open spec fn items_read_well(
    ts: Seq<Tree>,
    s: Seq<u8>,
    i: int,
    depth: int,
    limit: int,
) -> bool {
    &&& ts.len() <= s.len() - i
    &&& s.len() <= u32::MAX ==> items_recordable(ts)
    &&& valid_utf8(s) ==> items_resolvable(ts, s)
    &&& proper_items(item_docs(ts, s))
    &&& nesting_items(item_docs(ts, s)) > 0 ==> nesting_items(item_docs(ts, s)) + depth <= limit
}

proof fn lemma_first_item_read(s: Seq<u8>, i: int, depth: int, limit: int)
    requires
        0 <= i <= s.len(),
        first_item(s, i, depth, limit) is Ok,
    ensures
        items_read_well(first_item(s, i, depth, limit)->Ok_0.0, s, i, depth, limit),
    decreases s.len() - i, 5int,
{
    lemma_skip_space(s, i);
    let p = skip_space(s, i);
    if s[p] != RBRACKET {
        lemma_items_read(s, p, depth, limit);
    }
}

proof fn lemma_items_read(s: Seq<u8>, i: int, depth: int, limit: int)
    requires
        0 <= i <= s.len(),
        items(s, i, depth, limit) is Ok,
    ensures
        items_read_well(items(s, i, depth, limit)->Ok_0.0, s, i, depth, limit),
    decreases s.len() - i, 4int,
{
    lemma_value(s, i, depth, limit);
    lemma_value_read(s, i, depth, limit);
    let (first, j) = value(s, i, depth, limit)->Ok_0;
    lemma_more_items_read(s, j, depth, limit);
    let rest = more_items(s, j, depth, limit)->Ok_0.0;
    let all = seq![first] + rest;
    assert(all.drop_first() =~= rest);
    assert(item_docs(all, s).drop_first() =~= item_docs(rest, s));
}

proof fn lemma_more_items_read(s: Seq<u8>, i: int, depth: int, limit: int)
    requires
        0 <= i <= s.len(),
        more_items(s, i, depth, limit) is Ok,
    ensures
        items_read_well(more_items(s, i, depth, limit)->Ok_0.0, s, i, depth, limit),
    decreases s.len() - i, 2int,
{
    lemma_skip_space(s, i);
    let p = skip_space(s, i);
    if s[p] == COMMA {
        lemma_items_read(s, p + 1, depth, limit);
    }
}

/// What is known of members that the grammar reads from offset `i` on.
pub open spec fn members_read_well(
    ms: Seq<(Place, Tree)>,
    s: Seq<u8>,
    i: int,
    depth: int,
    limit: int,
) -> bool {
    &&& ms.len() <= s.len() - i
    &&& s.len() <= u32::MAX ==> members_recordable(ms)
    &&& valid_utf8(s) ==> members_resolvable(ms, s)
    &&& proper_members(member_docs(ms, s))
    &&& nesting_members(member_docs(ms, s)) > 0 ==> nesting_members(member_docs(ms, s)) + depth
        <= limit
}

proof fn lemma_first_member_read(s: Seq<u8>, i: int, depth: int, limit: int)
    requires
        0 <= i <= s.len(),
        first_member(s, i, depth, limit) is Ok,
    ensures
        members_read_well(first_member(s, i, depth, limit)->Ok_0.0, s, i, depth, limit),
    decreases s.len() - i, 5int,
{
    lemma_skip_space(s, i);
    let p = skip_space(s, i);
    if s[p] == QUOTE {
        lemma_members_read(s, p, depth, limit);
    }
}

proof fn lemma_members_read(s: Seq<u8>, p: int, depth: int, limit: int)
    requires
        0 <= p < s.len(),
        s[p] == QUOTE,
        members(s, p, depth, limit) is Ok,
    ensures
        members_read_well(members(s, p, depth, limit)->Ok_0.0, s, p, depth, limit),
    decreases s.len() - p, 4int,
{
    lemma_key(s, p);
    let (place, v) = key(s, p)->Ok_0;
    lemma_string_read(s, p, place.end);
    lemma_value(s, v, depth, limit);
    lemma_value_read(s, v, depth, limit);
    let (first, j) = value(s, v, depth, limit)->Ok_0;
    lemma_more_members_read(s, j, depth, limit);
    let rest = more_members(s, j, depth, limit)->Ok_0.0;
    let all = seq![(place, first)] + rest;
    assert(all.drop_first() =~= rest);
    assert(member_docs(all, s).drop_first() =~= member_docs(rest, s));
}

proof fn lemma_next_member_read(s: Seq<u8>, i: int, depth: int, limit: int)
    requires
        0 <= i <= s.len(),
        next_member(s, i, depth, limit) is Ok,
    ensures
        members_read_well(next_member(s, i, depth, limit)->Ok_0.0, s, i, depth, limit),
    decreases s.len() - i, 5int,
{
    lemma_skip_space(s, i);
    lemma_members_read(s, skip_space(s, i), depth, limit);
}

proof fn lemma_more_members_read(s: Seq<u8>, i: int, depth: int, limit: int)
    requires
        0 <= i <= s.len(),
        more_members(s, i, depth, limit) is Ok,
    ensures
        members_read_well(more_members(s, i, depth, limit)->Ok_0.0, s, i, depth, limit),
    decreases s.len() - i, 2int,
{
    lemma_skip_space(s, i);
    let p = skip_space(s, i);
    if s[p] == COMMA {
        lemma_next_member_read(s, p + 1, depth, limit);
    }
}

/// A document that the grammar reads is proper, nests no deeper than the limit, and can be cut
/// out of the text.
pub proof fn lemma_document_read(s: Seq<u8>, limit: int)
    requires
        document(s, limit) is Ok,
    ensures
        read_well(document(s, limit)->Ok_0, s, 0, limit),
{
    lemma_value_read(s, 0, 0, limit);
}

// ---------------------------------------------------------------------------
// Reading a minified document back
// ---------------------------------------------------------------------------

/// Whether `s` holds `part` at offset `i`.
pub open spec fn holds(s: Seq<u8>, i: int, part: Seq<u8>) -> bool {
    0 <= i && i + part.len() <= s.len() && s.subrange(i, i + part.len()) == part
}

/// What holds a concatenation holds its parts.
pub proof fn lemma_holds_concat(s: Seq<u8>, i: int, a: Seq<u8>, b: Seq<u8>)
    requires
        holds(s, i, a + b),
    ensures
        holds(s, i, a),
        holds(s, i + a.len(), b),
{
    let w = s.subrange(i, i + (a + b).len());
    assert(s.subrange(i, i + a.len()) =~= a) by {
        assert forall|k: int| 0 <= k < a.len() implies s[i + k] == a[k] by {
            assert(w[k] == (a + b)[k]);
        }
    }
    assert(s.subrange(i + a.len(), i + a.len() + b.len()) =~= b) by {
        assert forall|k: int| 0 <= k < b.len() implies s[i + a.len() + k] == b[k] by {
            assert(w[a.len() + k] == (a + b)[a.len() + k]);
        }
    }
}

proof fn lemma_holds_byte(s: Seq<u8>, i: int, b: u8)
    requires
        holds(s, i, seq![b]),
    ensures
        i < s.len(),
        s[i] == b,
{
    assert(s.subrange(i, i + 1)[0] == s[i]);
}

/// Where no whitespace stands, none is skipped.
proof fn lemma_no_space(s: Seq<u8>, i: int)
    requires
        0 <= i < s.len(),
        !is_space(s[i]),
    ensures
        skip_space(s, i) == i,
{
}

/// The first byte of a scalar or a string.
pub proof fn lemma_lexeme_start(l: Seq<u8>)
    requires
        scalar_lexeme(l) || string_lexeme(l),
    ensures
        l.len() > 0,
        !is_space(l[0]),
        l[0] != RBRACKET,
        l[0] != RBRACE,
        l[0] != LBRACE,
        l[0] != LBRACKET,
{
}

/// A minified document is never empty, and starts with no whitespace and no closing bracket.
pub proof fn lemma_minified_start(j: Json)
    requires
        proper(j),
    ensures
        minified(j, Style::Verbatim).len() > 0,
        !is_space(minified(j, Style::Verbatim)[0]),
        minified(j, Style::Verbatim)[0] != RBRACKET,
{
    match j {
        Json::Scalar(l) => {
            lemma_lexeme_start(l);
        },
        Json::String(l) => {
            lemma_lexeme_start(l);
        },
        _ => {},
    }
}

/// The document of a value read back.
pub open spec fn reads_as(r: Result<(Tree, int), Fault>, s: Seq<u8>, j: Json, end: int) -> bool {
    r matches Ok((tree, stop)) && doc(tree, s) == j && stop == end
}

/// A proper document, minified, is read back as it is wherever a number at its end is not
/// continued.
pub proof fn lemma_value_back(j: Json, s: Seq<u8>, i: int, depth: int, limit: int)
    requires
        proper(j),
        0 <= depth,
        nesting(j) > 0 ==> nesting(j) + depth <= limit,
        holds(s, i, minified(j, Style::Verbatim)),
        number_stops(s, i + minified(j, Style::Verbatim).len()),
    ensures
        reads_as(
            value(s, i, depth, limit),
            s,
            j,
            i + minified(j, Style::Verbatim).len(),
        ),
    decreases j,
{
    let m = minified(j, Style::Verbatim);
    lemma_minified_start(j);
    assert(m[0] == s[i]) by {
        assert(s.subrange(i, i + m.len())[0] == s[i]);
    }
    lemma_no_space(s, i);
    match j {
        Json::Scalar(l) => {
            lemma_lexeme_start(l);
            assert(forall|k: int| 0 <= k < l.len() ==> l[k] == s[i + k]) by {
                assert forall|k: int| 0 <= k < l.len() implies l[k] == s[i + k] by {
                    assert(s.subrange(i, i + l.len())[k] == s[i + k]);
                }
            }
            if number_lexeme(l) {
                lemma_number_within(l, s, i);
            } else {
                assert(holds_at(s, i, l));
                assert(null_word()[0] == 0x6E && true_word()[0] == 0x74 && false_word()[0] == 0x66);
                assert(l.len() == 4 || l.len() == 5);
            }
            assert(reads_as(value(s, i, depth, limit), s, j, i + l.len()));
        },
        Json::String(l) => {
            lemma_string_back(l, s, i);
        },
        Json::Array(elements) => {
            let list = minified_items(elements, Style::Verbatim, true);
            lemma_holds_concat(s, i, seq![LBRACKET] + list, seq![RBRACKET]);
            lemma_holds_concat(s, i, seq![LBRACKET], list);
            lemma_holds_byte(s, i, LBRACKET);
            lemma_holds_byte(s, i + 1 + list.len(), RBRACKET);
            if elements.len() == 0 {
                lemma_no_space(s, i + 1);
                assert(item_docs(Seq::empty(), s) =~= Seq::empty());
                assert(elements =~= Seq::empty());
            } else {
                lemma_items_back(elements, s, i + 1, depth + 1, limit);
                lemma_list_start(elements);
                assert(list[0] == s[i + 1]) by {
                    assert(s.subrange(i + 1, i + 1 + list.len())[0] == s[i + 1]);
                }
                lemma_no_space(s, i + 1);
            }
            assert(reads_as(value(s, i, depth, limit), s, j, i + m.len()));
        },
        Json::Object(fields) => {
            let list = minified_members(fields, Style::Verbatim, true);
            lemma_holds_concat(s, i, seq![LBRACE] + list, seq![RBRACE]);
            lemma_holds_concat(s, i, seq![LBRACE], list);
            lemma_holds_byte(s, i, LBRACE);
            lemma_holds_byte(s, i + 1 + list.len(), RBRACE);
            if fields.len() == 0 {
                lemma_no_space(s, i + 1);
                assert(member_docs(Seq::empty(), s) =~= Seq::empty());
                assert(fields =~= Seq::empty());
            } else {
                lemma_members_back(fields, s, i + 1, depth + 1, limit);
                lemma_no_space(s, i + 1);
            }
            assert(reads_as(value(s, i, depth, limit), s, j, i + m.len()));
        },
    }
}

pub proof fn lemma_string_back(l: Seq<u8>, s: Seq<u8>, i: int)
    requires
        string_lexeme(l),
        holds(s, i, l),
    ensures
        s[i] == QUOTE,
        string_rest(s, i + 1) == Ok::<int, Fault>(i + l.len()),
        lexeme(s, Place { start: i, end: i + l.len() }) == l,
{
    let t = body(l);
    assert(forall|k: int| 0 <= k < l.len() ==> l[k] == s[i + k]) by {
        assert forall|k: int| 0 <= k < l.len() implies l[k] == s[i + k] by {
            assert(s.subrange(i, i + l.len())[k] == s[i + k]);
        }
    }
    assert(s.subrange(i + 1, i + 1 + t.len()) =~= t);
    lemma_sound_string_rest(s, i + 1, t);
}

proof fn lemma_list_start(elements: Seq<Json>)
    requires
        elements.len() > 0,
        proper_items(elements),
    ensures
        minified_items(elements, Style::Verbatim, true).len() > 0,
        !is_space(minified_items(elements, Style::Verbatim, true)[0]),
        minified_items(elements, Style::Verbatim, true)[0] != RBRACKET,
{
    let m = minified(elements[0], Style::Verbatim);
    lemma_minified_start(elements[0]);
    assert(minified_items(elements, Style::Verbatim, true)[0] == m[0]);
}

/// After the first element, a list is a comma and the list of the others.
pub proof fn lemma_items_comma(elements: Seq<Json>, style: Style)
    requires
        elements.len() > 0,
    ensures
        minified_items(elements, style, false) == seq![COMMA] + minified_items(
            elements,
            style,
            true,
        ),
{
    let m = minified(elements[0], style);
    let r = minified_items(elements.drop_first(), style, false);
    assert(seq![COMMA] + m + r =~= seq![COMMA] + (Seq::<u8>::empty() + m + r));
}

pub proof fn lemma_members_comma(fields: Seq<(Seq<u8>, Json)>, style: Style)
    requires
        fields.len() > 0,
    ensures
        minified_members(fields, style, false) == seq![COMMA] + minified_members(
            fields,
            style,
            true,
        ),
{
    let k = styled(fields[0].0, style);
    let m = minified(fields[0].1, style);
    let r = minified_members(fields.drop_first(), style, false);
    assert(seq![COMMA] + k + seq![COLON] + m + r =~= seq![COMMA] + (Seq::<u8>::empty() + k + seq![
        COLON,
    ] + m + r));
}

proof fn lemma_items_back(elements: Seq<Json>, s: Seq<u8>, i: int, depth: int, limit: int)
    requires
        elements.len() > 0,
        proper_items(elements),
        0 <= depth,
        nesting_items(elements) > 0 ==> nesting_items(elements) + depth <= limit,
        holds(s, i, minified_items(elements, Style::Verbatim, true)),
        i + minified_items(elements, Style::Verbatim, true).len() < s.len(),
        s[i + minified_items(elements, Style::Verbatim, true).len()] == RBRACKET,
    ensures
        ({
            let list = minified_items(elements, Style::Verbatim, true);
            items(s, i, depth, limit) matches Ok((ts, close)) && item_docs(ts, s) == elements
                && close == i + list.len()
        }),
    decreases elements,
{
    let list = minified_items(elements, Style::Verbatim, true);
    let first = elements[0];
    let others = elements.drop_first();
    let m = minified(first, Style::Verbatim);
    let r = minified_items(others, Style::Verbatim, false);
    assert(list =~= m + r);
    lemma_holds_concat(s, i, m, r);
    let j = i + m.len();
    lemma_nesting_rest(elements);
    if others.len() == 0 {
        assert(j == i + list.len());
        lemma_value_back(first, s, i, depth, limit);
        lemma_value(s, i, depth, limit);
        lemma_no_space(s, j);
        let t = value(s, i, depth, limit)->Ok_0.0;
        assert(seq![t].drop_first() =~= Seq::<Tree>::empty());
        assert(seq![t] + Seq::<Tree>::empty() =~= seq![t]);
        reveal_with_fuel(item_docs, 2);
        assert(item_docs(seq![t], s) =~= elements);
    } else {
        lemma_items_comma(others, Style::Verbatim);
        let tail = minified_items(others, Style::Verbatim, true);
        lemma_holds_concat(s, j, seq![COMMA], tail);
        lemma_holds_byte(s, j, COMMA);
        lemma_value_back(first, s, i, depth, limit);
        lemma_value(s, i, depth, limit);
        lemma_no_space(s, j);
        lemma_items_back(others, s, j + 1, depth, limit);
        let t = value(s, i, depth, limit)->Ok_0.0;
        let ts = items(s, j + 1, depth, limit)->Ok_0.0;
        assert((seq![t] + ts).drop_first() =~= ts);
        assert(item_docs(seq![t] + ts, s) =~= elements);
    }
}

pub proof fn lemma_nesting_rest(elements: Seq<Json>)
    requires
        elements.len() > 0,
    ensures
        nesting(elements[0]) <= nesting_items(elements),
        nesting_items(elements.drop_first()) <= nesting_items(elements),
{
}

proof fn lemma_members_back(
    fields: Seq<(Seq<u8>, Json)>,
    s: Seq<u8>,
    i: int,
    depth: int,
    limit: int,
)
    requires
        fields.len() > 0,
        proper_members(fields),
        0 <= depth,
        nesting_members(fields) > 0 ==> nesting_members(fields) + depth <= limit,
        holds(s, i, minified_members(fields, Style::Verbatim, true)),
        i + minified_members(fields, Style::Verbatim, true).len() < s.len(),
        s[i + minified_members(fields, Style::Verbatim, true).len()] == RBRACE,
    ensures
        s[i] == QUOTE,
        ({
            let list = minified_members(fields, Style::Verbatim, true);
            members(s, i, depth, limit) matches Ok((ms, close)) && member_docs(ms, s) == fields
                && close == i + list.len()
        }),
    decreases fields,
{
    let list = minified_members(fields, Style::Verbatim, true);
    let (k, first) = fields[0];
    let others = fields.drop_first();
    let m = minified(first, Style::Verbatim);
    let r = minified_members(others, Style::Verbatim, false);
    assert(list =~= k + (seq![COLON] + (m + r)));
    lemma_holds_concat(s, i, k, seq![COLON] + (m + r));
    let c = i + k.len();
    lemma_holds_concat(s, c, seq![COLON], m + r);
    lemma_holds_concat(s, c + 1, m, r);
    lemma_holds_byte(s, c, COLON);
    lemma_string_back(k, s, i);
    lemma_no_space(s, c);
    let place = Place { start: i, end: c };
    assert(key(s, i) == Ok::<(Place, int), Fault>((place, c + 1)));
    let j = c + 1 + m.len();
    if others.len() == 0 {
        assert(j == i + list.len());
        lemma_value_back(first, s, c + 1, depth, limit);
        lemma_value(s, c + 1, depth, limit);
        lemma_no_space(s, j);
        let t = value(s, c + 1, depth, limit)->Ok_0.0;
        let one = seq![(place, t)];
        assert(one.drop_first() =~= Seq::<(Place, Tree)>::empty());
        assert(one + Seq::<(Place, Tree)>::empty() =~= one);
        reveal_with_fuel(member_docs, 2);
        assert(member_docs(one, s) =~= fields);
    } else {
        lemma_members_comma(others, Style::Verbatim);
        let tail = minified_members(others, Style::Verbatim, true);
        lemma_holds_concat(s, j, seq![COMMA], tail);
        lemma_holds_byte(s, j, COMMA);
        lemma_value_back(first, s, c + 1, depth, limit);
        lemma_value(s, c + 1, depth, limit);
        lemma_no_space(s, j);
        lemma_members_back(others, s, j + 1, depth, limit);
        lemma_no_space(s, j + 1);
        let t = value(s, c + 1, depth, limit)->Ok_0.0;
        let ms = members(s, j + 1, depth, limit)->Ok_0.0;
        assert((seq![(place, t)] + ms).drop_first() =~= ms);
        assert(member_docs(seq![(place, t)] + ms, s) =~= fields);
    }
}

// ---------------------------------------------------------------------------
// Styles
// ---------------------------------------------------------------------------

/// A style keeps strings strings, and what they say.
pub proof fn lemma_styled(l: Seq<u8>, style: Style)
    requires
        string_lexeme(l),
    ensures
        string_lexeme(styled(l, style)),
        string_value(styled(l, style)) == string_value(l),
{
    law_canonical_keeps_meaning(l);
}

/// Writing in a style is rewriting the strings and writing them as they are; it keeps the
/// document proper, its nesting and its meaning.
pub proof fn lemma_restyled(j: Json, style: Style)
    requires
        proper(j),
    ensures
        minified(restyled(j, style), Style::Verbatim) == minified(j, style),
        proper(restyled(j, style)),
        nesting(restyled(j, style)) == nesting(j),
        meaning(restyled(j, style)) == meaning(j),
    decreases j,
{
    match j {
        Json::Scalar(l) => {},
        Json::String(l) => {
            lemma_styled(l, style);
        },
        Json::Array(elements) => {
            lemma_restyled_items(elements, style, true);
        },
        Json::Object(fields) => {
            lemma_restyled_members(fields, style, true);
        },
    }
}

proof fn lemma_restyled_items(elements: Seq<Json>, style: Style, first: bool)
    requires
        proper_items(elements),
    ensures
        minified_items(restyled_items(elements, style), Style::Verbatim, first) == minified_items(
            elements,
            style,
            first,
        ),
        proper_items(restyled_items(elements, style)),
        nesting_items(restyled_items(elements, style)) == nesting_items(elements),
        item_meanings(restyled_items(elements, style)) == item_meanings(elements),
    decreases elements,
{
    if elements.len() > 0 {
        lemma_restyled(elements[0], style);
        lemma_restyled_items(elements.drop_first(), style, false);
        let r = restyled_items(elements, style);
        assert(r.drop_first() =~= restyled_items(elements.drop_first(), style));
    }
}

proof fn lemma_restyled_members(fields: Seq<(Seq<u8>, Json)>, style: Style, first: bool)
    requires
        proper_members(fields),
    ensures
        minified_members(restyled_members(fields, style), Style::Verbatim, first)
            == minified_members(fields, style, first),
        proper_members(restyled_members(fields, style)),
        nesting_members(restyled_members(fields, style)) == nesting_members(fields),
        member_meanings(restyled_members(fields, style)) == member_meanings(fields),
    decreases fields,
{
    if fields.len() > 0 {
        lemma_styled(fields[0].0, style);
        lemma_restyled(fields[0].1, style);
        lemma_restyled_members(fields.drop_first(), style, false);
        let r = restyled_members(fields, style);
        assert(r.drop_first() =~= restyled_members(fields.drop_first(), style));
    }
}

// ---------------------------------------------------------------------------
// Laws
// ---------------------------------------------------------------------------

/// A minified document is a document: it reads back, within the same nesting limit, as the
/// document with its strings restyled, and it means the same.
pub proof fn law_minified_reads_back(j: Json, style: Style, limit: int)
    requires
        proper(j),
        nesting(j) <= limit,
    ensures
        ({
            let text = minified(j, style);
            document(text, limit) matches Ok(tree) && doc(tree, text) == restyled(j, style)
                && meaning(doc(tree, text)) == meaning(j)
        }),
{
    lemma_restyled(j, style);
    let r = restyled(j, style);
    let text = minified(r, Style::Verbatim);
    assert(text.subrange(0, text.len() as int) =~= text);
    lemma_value_back(r, text, 0, 0, limit);
}

/// Documents that a style writes alike are alike but for the spelling of strings, and mean
/// the same.
pub proof fn law_minified_injective(a: Json, b: Json, style: Style)
    requires
        proper(a),
        proper(b),
        minified(a, style) == minified(b, style),
    ensures
        restyled(a, style) == restyled(b, style),
        meaning(a) == meaning(b),
{
    let limit: int = if nesting(a) >= nesting(b) {
        nesting(a) as int
    } else {
        nesting(b) as int
    };
    law_minified_reads_back(a, style, limit);
    law_minified_reads_back(b, style, limit);
}

/// Writing a document as it stands keeps it.
pub proof fn lemma_verbatim(j: Json)
    ensures
        restyled(j, Style::Verbatim) == j,
    decreases j,
{
    match j {
        Json::Array(elements) => {
            lemma_verbatim_items(elements);
        },
        Json::Object(fields) => {
            lemma_verbatim_members(fields);
        },
        _ => {},
    }
}

proof fn lemma_verbatim_items(elements: Seq<Json>)
    ensures
        restyled_items(elements, Style::Verbatim) == elements,
    decreases elements,
{
    if elements.len() > 0 {
        lemma_verbatim(elements[0]);
        lemma_verbatim_items(elements.drop_first());
        assert(seq![elements[0]] + elements.drop_first() =~= elements);
    } else {
        assert(elements =~= Seq::empty());
    }
}

proof fn lemma_verbatim_members(fields: Seq<(Seq<u8>, Json)>)
    ensures
        restyled_members(fields, Style::Verbatim) == fields,
    decreases fields,
{
    if fields.len() > 0 {
        lemma_verbatim(fields[0].1);
        lemma_verbatim_members(fields.drop_first());
        assert(seq![fields[0]] + fields.drop_first() =~= fields);
    } else {
        assert(fields =~= Seq::empty());
    }
}

/// Whether no string of a document is protected, keys and all.
pub open spec fn unprotected(j: Json) -> bool
    decreases j,
{
    match j {
        Json::Scalar(_) => true,
        Json::String(l) => !protected(l),
        Json::Array(items) => unprotected_items(items),
        Json::Object(members) => unprotected_members(members),
    }
}

pub open spec fn unprotected_items(items: Seq<Json>) -> bool
    decreases items,
{
    items.len() > 0 ==> unprotected(items[0]) && unprotected_items(items.drop_first())
}

pub open spec fn unprotected_members(members: Seq<(Seq<u8>, Json)>) -> bool
    decreases members,
{
    members.len() > 0 ==> !protected(members[0].0) && unprotected(members[0].1)
        && unprotected_members(members.drop_first())
}

/// Documents that mean the same are minified to the same bytes, unless they hold protected
/// strings, which stay as they are spelled.
pub proof fn law_equal_meaning_minifies_alike(a: Json, b: Json)
    requires
        proper(a),
        proper(b),
        unprotected(a),
        unprotected(b),
        meaning(a) == meaning(b),
    ensures
        minified(a, Style::Canonical) == minified(b, Style::Canonical),
    decreases a,
{
    match (a, b) {
        (Json::String(la), Json::String(lb)) => {
            law_one_canonical_spelling(la, lb);
        },
        (Json::Array(ia), Json::Array(ib)) => {
            lemma_items_minify_alike(ia, ib, true);
        },
        (Json::Object(ma), Json::Object(mb)) => {
            lemma_members_minify_alike(ma, mb, true);
        },
        _ => {},
    }
}

proof fn lemma_items_minify_alike(a: Seq<Json>, b: Seq<Json>, first: bool)
    requires
        proper_items(a),
        proper_items(b),
        unprotected_items(a),
        unprotected_items(b),
        item_meanings(a) == item_meanings(b),
    ensures
        minified_items(a, Style::Canonical, first) == minified_items(b, Style::Canonical, first),
    decreases a,
{
    if a.len() > 0 && b.len() > 0 {
        let va = item_meanings(a);
        let vb = item_meanings(b);
        assert(va[0] == meaning(a[0]));
        assert(vb[0] == meaning(b[0]));
        assert(va.drop_first() =~= item_meanings(a.drop_first()));
        assert(vb.drop_first() =~= item_meanings(b.drop_first()));
        law_equal_meaning_minifies_alike(a[0], b[0]);
        lemma_items_minify_alike(a.drop_first(), b.drop_first(), false);
    } else {
        assert(item_meanings(a).len() == item_meanings(b).len());
    }
}

proof fn lemma_members_minify_alike(
    a: Seq<(Seq<u8>, Json)>,
    b: Seq<(Seq<u8>, Json)>,
    first: bool,
)
    requires
        proper_members(a),
        proper_members(b),
        unprotected_members(a),
        unprotected_members(b),
        member_meanings(a) == member_meanings(b),
    ensures
        minified_members(a, Style::Canonical, first) == minified_members(
            b,
            Style::Canonical,
            first,
        ),
    decreases a,
{
    if a.len() > 0 && b.len() > 0 {
        let va = member_meanings(a);
        let vb = member_meanings(b);
        assert(va[0] == (string_value(a[0].0), meaning(a[0].1)));
        assert(vb[0] == (string_value(b[0].0), meaning(b[0].1)));
        assert(va.drop_first() =~= member_meanings(a.drop_first()));
        assert(vb.drop_first() =~= member_meanings(b.drop_first()));
        law_one_canonical_spelling(a[0].0, b[0].0);
        law_equal_meaning_minifies_alike(a[0].1, b[0].1);
        lemma_members_minify_alike(a.drop_first(), b.drop_first(), false);
    } else {
        assert(member_meanings(a).len() == member_meanings(b).len());
    }
}

/// Restyling a document twice does no more than doing it once.
proof fn lemma_restyled_twice(j: Json, style: Style)
    requires
        proper(j),
    ensures
        restyled(restyled(j, style), style) == restyled(j, style),
    decreases j,
{
    match j {
        Json::Scalar(_) => {},
        Json::String(l) => {
            law_canonical_keeps_meaning(l);
        },
        Json::Array(items) => {
            lemma_restyled_items_twice(items, style);
        },
        Json::Object(members) => {
            lemma_restyled_members_twice(members, style);
        },
    }
}

proof fn lemma_restyled_items_twice(items: Seq<Json>, style: Style)
    requires
        proper_items(items),
    ensures
        restyled_items(restyled_items(items, style), style) == restyled_items(items, style),
    decreases items,
{
    if items.len() > 0 {
        lemma_restyled_twice(items[0], style);
        lemma_restyled_items_twice(items.drop_first(), style);
        assert(restyled_items(items, style).drop_first() =~= restyled_items(
            items.drop_first(),
            style,
        ));
    }
}

proof fn lemma_restyled_members_twice(members: Seq<(Seq<u8>, Json)>, style: Style)
    requires
        proper_members(members),
    ensures
        restyled_members(restyled_members(members, style), style) == restyled_members(
            members,
            style,
        ),
    decreases members,
{
    if members.len() > 0 {
        law_canonical_keeps_meaning(members[0].0);
        lemma_restyled_twice(members[0].1, style);
        lemma_restyled_members_twice(members.drop_first(), style);
        assert(restyled_members(members, style).drop_first() =~= restyled_members(
            members.drop_first(),
            style,
        ));
    }
}

/// Minifying a minified document changes nothing: what it reads back as is written in the same
/// bytes again.
pub proof fn law_minified_twice(j: Json, style: Style, limit: int)
    requires
        proper(j),
        nesting(j) <= limit,
    ensures
        ({
            let text = minified(j, style);
            document(text, limit) matches Ok(tree) && minified(doc(tree, text), style) == text
        }),
{
    law_minified_reads_back(j, style, limit);
    lemma_restyled(j, style);
    lemma_restyled(restyled(j, style), style);
    lemma_restyled_twice(j, style);
}

} // verus!
