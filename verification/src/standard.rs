//! What JSON is made of, and that the grammar reads exactly that.
//!
//! [`grammar`](crate::grammar) reads a text from left to right and says what is wrong with it.
//! This module says, without reading, what numbers, strings, literals, whitespace and documents
//! are: which bytes, in which order. The laws hold the one to the other.

use crate::documents::{
    holds, lemma_holds_concat, lemma_number_lexeme, lemma_number_within, lemma_string_back,
    nesting, nesting_items, nesting_members, number_lexeme, number_stops,
};
use crate::grammar::{
    document, false_word, first_item, first_member, fraction_part, hex_digits, holds_at,
    integer_part, is_space, items, key, lemma_first_item, lemma_first_member, lemma_items,
    lemma_key, lemma_members, lemma_more_items, lemma_more_members, lemma_number, lemma_scalar,
    lemma_skip_digits, lemma_skip_space, lemma_value, members, more_items, more_members, null_word,
    number, scalar, skip_digits, skip_space, string_char, string_rest, true_word, value, Fault,
    Place, Tree,
};
use crate::json::{doc, item_docs, lemma_item_docs, lemma_member_docs, member_docs, Json};
use crate::strings::{
    body, head, lemma_string_rest_sound, lemma_tail, sound, string_lexeme, tail, width, Unit,
};
use vstd::prelude::*;

verus! {

// ---------------------------------------------------------------------------
// Numbers
// ---------------------------------------------------------------------------

/// One or more decimal digits.
pub open spec fn digits(t: Seq<u8>) -> bool {
    t.len() > 0 && forall|k: int| 0 <= k < t.len() ==> 0x30 <= #[trigger] t[k] <= 0x39
}

/// An optional minus.
pub open spec fn sign(t: Seq<u8>) -> bool {
    t.len() == 0 || (t.len() == 1 && t[0] == 0x2D)
}

/// Digits of which the first is no zero, or a zero alone.
pub open spec fn whole(t: Seq<u8>) -> bool {
    digits(t) && (t[0] == 0x30 ==> t.len() == 1)
}

/// An optional dot and digits.
pub open spec fn fraction(t: Seq<u8>) -> bool {
    t.len() == 0 || (t[0] == 0x2E && digits(t.skip(1)))
}

/// An optional `e` or `E`, an optional sign of either kind, and digits.
pub open spec fn exponent(t: Seq<u8>) -> bool {
    t.len() == 0 || ((t[0] == 0x65 || t[0] == 0x45) && (digits(t.skip(1)) || (t.len() > 1 && (t[1]
        == 0x2B || t[1] == 0x2D) && digits(t.skip(2)))))
}

proof fn lemma_digits_end(s: Seq<u8>, i: int, n: int)
    requires
        0 <= i <= n <= s.len(),
        forall|k: int| i <= k < n ==> 0x30 <= #[trigger] s[k] <= 0x39,
        n < s.len() ==> !(0x30 <= s[n] <= 0x39),
    ensures
        skip_digits(s, i) == n,
    decreases n - i,
{
    if i < n {
        assert(0x30 <= s[i] <= 0x39);
        lemma_digits_end(s, i + 1, n);
    }
}

/// Whatever an optional minus, an integer part, an optional fraction and an optional exponent
/// are, one after the other they make a number.
#[verifier::spinoff_prover]
#[verifier::rlimit(40)]
pub proof fn law_parts_make_a_number(m: Seq<u8>, w: Seq<u8>, f: Seq<u8>, e: Seq<u8>)
    requires
        sign(m),
        whole(w),
        fraction(f),
        exponent(e),
    ensures
        number_lexeme(m + w + f + e),
{
    let l = m + w + f + e;
    let a = m.len() as int;
    let b = a + w.len();
    let c = b + f.len();
    assert(forall|k: int| 0 <= k < w.len() ==> l[a + k] == w[k]);
    assert(forall|k: int| 0 <= k < f.len() ==> l[b + k] == f[k]);
    assert(forall|k: int| 0 <= k < e.len() ==> l[c + k] == e[k]);
    assert(l[a] == w[0]);
    assert(c < l.len() ==> l[c] == e[0]);
    assert(b < c ==> l[b] == f[0]);
    assert forall|k: int| a <= k < b implies 0x30 <= #[trigger] l[k] <= 0x39 by {
        assert(l[k] == w[k - a]);
    }
    lemma_digits_end(l, a + 1, b);
    assert(integer_part(l, a) == Ok::<int, Fault>(b));
    if f.len() > 0 {
        assert forall|k: int| b + 1 <= k < c implies 0x30 <= #[trigger] l[k] <= 0x39 by {
            assert(l[k] == f[k - b] && f[k - b] == f.skip(1)[k - b - 1]);
        }
        lemma_digits_end(l, b + 1, c);
    }
    assert(fraction_part(l, b) == Ok::<int, Fault>(c));
    if e.len() > 0 {
        let n = l.len() as int;
        assert(e.len() > 1 ==> l[c + 1] == e[1]);
        if digits(e.skip(1)) {
            assert forall|k: int| c + 1 <= k < n implies 0x30 <= #[trigger] l[k] <= 0x39 by {
                assert(l[k] == e[k - c] && e[k - c] == e.skip(1)[k - c - 1]);
            }
            lemma_digits_end(l, c + 1, n);
            assert(0x30 <= l[c + 1] <= 0x39);
        } else {
            assert forall|k: int| c + 2 <= k < n implies 0x30 <= #[trigger] l[k] <= 0x39 by {
                assert(l[k] == e[k - c] && e[k - c] == e.skip(2)[k - c - 2]);
            }
            lemma_digits_end(l, c + 2, n);
        }
    }
    assert(number(l, 0) == Ok::<int, Fault>(l.len() as int));
    assert(m.len() > 0 ==> l[0] == m[0]);
}

/// Whether bytes are a minus or none, an integer part, a fraction or none and an exponent or
/// none, one after the other.
pub open spec fn numeral(l: Seq<u8>) -> bool {
    exists|m: Seq<u8>, w: Seq<u8>, f: Seq<u8>, e: Seq<u8>|
        sign(m) && whole(w) && fraction(f) && exponent(e) && l == #[trigger] (m + w + f + e)
}

/// A number is nothing but these parts.
pub proof fn law_numbers_are_numerals(l: Seq<u8>)
    ensures
        number_lexeme(l) <==> numeral(l),
{
    if numeral(l) {
        let (m, w, f, e) = choose|m: Seq<u8>, w: Seq<u8>, f: Seq<u8>, e: Seq<u8>|
            sign(m) && whole(w) && fraction(f) && exponent(e) && l == #[trigger] (m + w + f + e);
        law_parts_make_a_number(m, w, f, e);
    }
    if number_lexeme(l) {
        lemma_number_parts(l);
    }
}

#[verifier::spinoff_prover]
#[verifier::rlimit(40)]
proof fn lemma_number_parts(l: Seq<u8>)
    requires
        number_lexeme(l),
    ensures
        numeral(l),
{
    let n = l.len() as int;
    lemma_number(l, 0);
    let a = if l[0] == 0x2D {
        1int
    } else {
        0int
    };
    let b = integer_part(l, a)->Ok_0;
    lemma_skip_digits(l, a + 1);
    let c = fraction_part(l, b)->Ok_0;
    if b < n {
        lemma_skip_digits(l, b + 1);
    }
    if c < n {
        lemma_skip_digits(l, c + 1);
        if c + 1 < n {
            lemma_skip_digits(l, c + 2);
        }
    }
    let m = l.subrange(0, a);
    let w = l.subrange(a, b);
    let f = l.subrange(b, c);
    let e = l.subrange(c, n);
    assert(digits(w));
    assert(fraction(f)) by {
        if b < c {
            assert(f[0] == l[b]);
            assert(f.skip(1) =~= l.subrange(b + 1, c));
        }
    }
    assert(exponent(e)) by {
        if c < n {
            assert(e[0] == l[c]);
            assert(e.skip(1) =~= l.subrange(c + 1, n));
            if e.len() > 1 {
                assert(e[1] == l[c + 1]);
                assert(e.skip(2) =~= l.subrange(c + 2, n));
            }
        }
    }
    assert(l =~= m + w + f + e);
}

// ---------------------------------------------------------------------------
// Strings
// ---------------------------------------------------------------------------

/// A hexadecimal digit, in either case.
pub open spec fn hexadecimal(b: u8) -> bool {
    0x30 <= b <= 0x39 || 0x41 <= b <= 0x46 || 0x61 <= b <= 0x66
}

/// What a string is made of: a byte that is no control, no quote and no backslash; a backslash
/// and one of `" \ / b f n r t`; or a backslash, a `u` and four hexadecimal digits.
pub open spec fn character(c: Seq<u8>) -> bool {
    ||| c.len() == 1 && c[0] >= 0x20 && c[0] != 0x22 && c[0] != 0x5C
    ||| c.len() == 2 && c[0] == 0x5C && (c[1] == 0x22 || c[1] == 0x5C || c[1] == 0x2F || c[1]
        == 0x62 || c[1] == 0x66 || c[1] == 0x6E || c[1] == 0x72 || c[1] == 0x74)
    ||| c.len() == 6 && c[0] == 0x5C && c[1] == 0x75 && hexadecimal(c[2]) && hexadecimal(c[3])
        && hexadecimal(c[4]) && hexadecimal(c[5])
}

/// Parts one after the other.
pub open spec fn joined(parts: Seq<Seq<u8>>) -> Seq<u8>
    decreases parts.len(),
{
    if parts.len() == 0 {
        Seq::empty()
    } else {
        parts[0] + joined(parts.drop_first())
    }
}

/// Whether bytes are characters between two quotes.
pub open spec fn string_text(l: Seq<u8>) -> bool {
    exists|cs: Seq<Seq<u8>>|
        (forall|k: int| 0 <= k < cs.len() ==> character(#[trigger] cs[k])) && l == seq![0x22u8]
            + #[trigger] joined(cs) + seq![0x22u8]
}

#[verifier::spinoff_prover]
#[verifier::rlimit(40)]
proof fn lemma_characters_read(cs: Seq<Seq<u8>>, s: Seq<u8>, i: int)
    requires
        forall|k: int| 0 <= k < cs.len() ==> character(#[trigger] cs[k]),
        holds(s, i, joined(cs)),
        i + joined(cs).len() < s.len(),
        s[i + joined(cs).len()] == 0x22,
    ensures
        string_rest(s, i) == Ok::<int, Fault>(i + joined(cs).len() + 1),
    decreases cs.len(),
{
    if cs.len() > 0 {
        let c = cs[0];
        let rest = cs.drop_first();
        lemma_holds_concat(s, i, c, joined(rest));
        assert forall|k: int| 0 <= k < c.len() implies c[k] == s[i + k] by {
            assert(s.subrange(i, i + c.len())[k] == s[i + k]);
        }
        assert forall|k: int| 0 <= k < rest.len() implies character(#[trigger] rest[k]) by {
            assert(rest[k] == cs[k + 1]);
        }
        lemma_characters_read(rest, s, i + c.len());
        assert(character(c));
        assert(c[0] == s[i]);
        if c.len() == 2 {
            assert(c[1] == s[i + 1]);
        } else if c.len() == 6 {
            assert(c[1] == s[i + 1] && c[2] == s[i + 2] && c[3] == s[i + 3] && c[4] == s[i + 4]
                && c[5] == s[i + 5]);
            reveal_with_fuel(hex_digits, 5);
        }
        assert(string_char(s, i) == Ok::<int, Fault>(i + c.len()));
    }
}

/// Whatever the characters are, between two quotes they make a string.
pub proof fn law_characters_make_a_string(cs: Seq<Seq<u8>>)
    requires
        forall|k: int| 0 <= k < cs.len() ==> character(#[trigger] cs[k]),
    ensures
        string_lexeme(seq![0x22u8] + joined(cs) + seq![0x22u8]),
{
    let l = seq![0x22u8] + joined(cs) + seq![0x22u8];
    assert(l.subrange(1, l.len() - 1) =~= joined(cs));
    lemma_characters_read(cs, l, 1);
    lemma_string_rest_sound(l, 1, l.len() as int);
}

#[verifier::spinoff_prover]
#[verifier::rlimit(40)]
proof fn lemma_sound_characters(t: Seq<u8>) -> (cs: Seq<Seq<u8>>)
    requires
        sound(t),
    ensures
        forall|k: int| 0 <= k < cs.len() ==> character(#[trigger] cs[k]),
        joined(cs) == t,
    decreases t.len(),
{
    if t.len() == 0 {
        let none = Seq::<Seq<u8>>::empty();
        assert(joined(none) =~= t);
        none
    } else {
        lemma_tail(t);
        let rest = lemma_sound_characters(tail(t));
        match head(t) {
            Unit::Pair(_) => {
                let a = t.subrange(0, 6);
                let b = t.subrange(6, 12);
                let more = seq![b] + rest;
                let cs = seq![a] + more;
                assert(more.drop_first() =~= rest);
                assert(cs.drop_first() =~= more);
                assert(joined(more) == b + tail(t));
                assert(joined(cs) =~= t);
                assert(character(a) && character(b));
                assert forall|k: int| 0 <= k < cs.len() implies character(#[trigger] cs[k]) by {
                    if k >= 2 {
                        assert(cs[k] == rest[k - 2]);
                    }
                }
                cs
            },
            _ => {
                let w = width(head(t));
                let a = t.subrange(0, w);
                let cs = seq![a] + rest;
                assert(cs.drop_first() =~= rest);
                assert(joined(cs) =~= t);
                assert(character(a));
                assert forall|k: int| 0 <= k < cs.len() implies character(#[trigger] cs[k]) by {
                    if k >= 1 {
                        assert(cs[k] == rest[k - 1]);
                    }
                }
                cs
            },
        }
    }
}

/// A string is nothing but characters between quotes.
pub proof fn law_strings_are_characters(l: Seq<u8>)
    ensures
        string_lexeme(l) <==> string_text(l),
{
    if string_text(l) {
        let cs = choose|cs: Seq<Seq<u8>>|
            (forall|k: int| 0 <= k < cs.len() ==> character(#[trigger] cs[k])) && l == seq![0x22u8]
                + #[trigger] joined(cs) + seq![0x22u8];
        law_characters_make_a_string(cs);
    }
    if string_lexeme(l) {
        let cs = lemma_sound_characters(body(l));
        assert(l =~= seq![0x22u8] + joined(cs) + seq![0x22u8]);
    }
}

// ---------------------------------------------------------------------------
// Documents
// ---------------------------------------------------------------------------

/// Insignificant whitespace: spaces, tabs, line feeds and carriage returns.
pub open spec fn space(w: Seq<u8>) -> bool {
    forall|k: int|
        0 <= k < w.len() ==> (#[trigger] w[k] == 0x20 || w[k] == 0x09 || w[k] == 0x0A || w[k]
            == 0x0D)
}

/// `null`, `true` or `false`.
pub open spec fn literal(l: Seq<u8>) -> bool {
    ||| l == seq![0x6Eu8, 0x75, 0x6C, 0x6C]
    ||| l == seq![0x74u8, 0x72, 0x75, 0x65]
    ||| l == seq![0x66u8, 0x61, 0x6C, 0x73, 0x65]
}

/// Whether a text spells a document: whitespace may stand on both sides.
pub open spec fn spells(t: Seq<u8>, j: Json) -> bool
    decreases j, 1int,
{
    exists|a: Seq<u8>, core: Seq<u8>, b: Seq<u8>|
        space(a) && space(b) && writes(core, j) && t == #[trigger] (a + core + b)
}

/// Whether a text spells a document without whitespace on either side.
pub open spec fn writes(t: Seq<u8>, j: Json) -> bool
    decreases j, 0int,
{
    match j {
        Json::Scalar(l) => t == l && (literal(l) || numeral(l)),
        Json::String(l) => t == l && string_text(l),
        Json::Array(items) => exists|inner: Seq<u8>|
            t == #[trigger] (seq![0x5Bu8] + inner + seq![0x5Du8]) && (if items.len() == 0 {
                space(inner)
            } else {
                spells_items(inner, items)
            }),
        Json::Object(members) => exists|inner: Seq<u8>|
            t == #[trigger] (seq![0x7Bu8] + inner + seq![0x7Du8]) && (if members.len() == 0 {
                space(inner)
            } else {
                spells_members(inner, members)
            }),
    }
}

/// Whether a text spells elements, with commas between them.
pub open spec fn spells_items(t: Seq<u8>, items: Seq<Json>) -> bool
    decreases items, 2int,
{
    if items.len() == 0 {
        false
    } else if items.len() == 1 {
        spells(t, items[0])
    } else {
        exists|x: Seq<u8>, y: Seq<u8>|
            t == #[trigger] (x + seq![0x2Cu8] + y) && spells(x, items[0]) && spells_items(
                y,
                items.drop_first(),
            )
    }
}

/// Whether a text spells a member: a string, a colon and a value.
pub open spec fn spells_member(t: Seq<u8>, member: (Seq<u8>, Json)) -> bool
    decreases member, 2int,
{
    exists|a: Seq<u8>, b: Seq<u8>, v: Seq<u8>|
        space(a) && space(b) && string_text(member.0) && spells(v, member.1) && t == #[trigger] (a
            + member.0 + b + seq![0x3Au8] + v)
}

/// Whether a text spells members, with commas between them.
pub open spec fn spells_members(t: Seq<u8>, members: Seq<(Seq<u8>, Json)>) -> bool
    decreases members, 3int,
{
    if members.len() == 0 {
        false
    } else if members.len() == 1 {
        spells_member(t, members[0])
    } else {
        exists|x: Seq<u8>, y: Seq<u8>|
            t == #[trigger] (x + seq![0x2Cu8] + y) && spells_member(x, members[0])
                && spells_members(y, members.drop_first())
    }
}

/// Whether containers that lie `n` deep may stand inside `depth` others.
pub open spec fn fits(n: nat, depth: int, limit: int) -> bool {
    n == 0 || n + depth <= limit
}

/// Whether a value may end at `end`.
spec fn stops(s: Seq<u8>, end: int) -> bool {
    end >= s.len() || s[end] == 0x2C || s[end] == 0x5D || s[end] == 0x7D
}

proof fn lemma_skipped(s: Seq<u8>, i: int, n: int)
    requires
        0 <= i <= n <= s.len(),
        space(s.subrange(i, n)),
        n < s.len() ==> !is_space(s[n]),
    ensures
        skip_space(s, i) == n,
    decreases n - i,
{
    if i < n {
        let w = s.subrange(i, n);
        assert(w[0] == s[i]);
        assert(s.subrange(i + 1, n) =~= w.skip(1));
        assert(space(w.skip(1)));
        lemma_skipped(s, i + 1, n);
    }
}

/// The first byte of a document that has no whitespace before it.
proof fn lemma_core_start(t: Seq<u8>, j: Json)
    requires
        writes(t, j),
    ensures
        t.len() > 0,
        !is_space(t[0]),
        t[0] != 0x5D,
{
    match j {
        Json::Scalar(l) => {
            law_numbers_are_numerals(l);
        },
        Json::String(l) => {
            law_strings_are_characters(l);
        },
        Json::Array(items) => {
            let inner = choose|inner: Seq<u8>|
                t == #[trigger] (seq![0x5Bu8] + inner + seq![0x5Du8]) && (if items.len() == 0 {
                    space(inner)
                } else {
                    spells_items(inner, items)
                });
            assert(t[0] == 0x5B);
        },
        Json::Object(members) => {
            let inner = choose|inner: Seq<u8>|
                t == #[trigger] (seq![0x7Bu8] + inner + seq![0x7Du8]) && (if members.len() == 0 {
                    space(inner)
                } else {
                    spells_members(inner, members)
                });
            assert(t[0] == 0x7B);
        },
    }
}

proof fn lemma_value_skips(s: Seq<u8>, i: int, depth: int, limit: int)
    requires
        0 <= i <= s.len(),
    ensures
        value(s, skip_space(s, i), depth, limit) == value(s, i, depth, limit),
{
    lemma_skip_space(s, i);
    let p = skip_space(s, i);
    assert(skip_space(s, p) == p);
}

pub proof fn lemma_items_skip(s: Seq<u8>, i: int, depth: int, limit: int)
    requires
        0 <= i <= s.len(),
    ensures
        items(s, skip_space(s, i), depth, limit) == items(s, i, depth, limit),
{
    lemma_skip_space(s, i);
    lemma_value_skips(s, i, depth, limit);
    lemma_value(s, i, depth, limit);
    lemma_value(s, skip_space(s, i), depth, limit);
}

/// A text that spells a document is read as that document, or refused for its depth.
#[verifier::spinoff_prover]
#[verifier::rlimit(40)]
proof fn lemma_spelled_value(t: Seq<u8>, j: Json, s: Seq<u8>, i: int, depth: int, limit: int)
    requires
        spells(t, j),
        holds(s, i, t),
        0 <= depth <= limit,
        stops(s, i + t.len()),
    ensures
        fits(nesting(j), depth, limit) ==> (value(s, i, depth, limit) matches Ok((tree, end))
            && doc(tree, s) == j && i < end <= i + t.len() && space(
            s.subrange(end, i + t.len()),
        )),
        !fits(nesting(j), depth, limit) ==> value(s, i, depth, limit) == Err::<(Tree, int), Fault>(
            Fault::TooDeep { depth: limit + 1 },
        ),
    decreases j, 1int,
{
    let (a, core, b) = choose|a: Seq<u8>, core: Seq<u8>, b: Seq<u8>|
        space(a) && space(b) && writes(core, j) && t == #[trigger] (a + core + b);
    lemma_holds_concat(s, i, a + core, b);
    lemma_holds_concat(s, i, a, core);
    let p = i + a.len();
    let after = p + core.len();
    let end = i + t.len();
    lemma_core_start(core, j);
    assert(forall|k: int| 0 <= k < core.len() ==> core[k] == s[p + k]) by {
        assert forall|k: int| 0 <= k < core.len() implies core[k] == s[p + k] by {
            assert(s.subrange(p, p + core.len())[k] == s[p + k]);
        }
    }
    assert(core[0] == s[p]);
    assert(s.subrange(i, p) == a);
    lemma_skipped(s, i, p);
    assert(s.subrange(after, end) == b);
    assert(s.subrange(p, after) == core);
    match j {
        Json::Scalar(l) => {
            law_numbers_are_numerals(l);
            assert(number_stops(s, after)) by {
                if after < end {
                    assert(s[after] == b[0]);
                }
            }
            if number_lexeme(l) {
                lemma_number_within(l, s, p);
            } else {
                assert(holds_at(s, p, l));
                assert(l == null_word() || l == true_word() || l == false_word());
            }
        },
        Json::String(l) => {
            law_strings_are_characters(l);
            lemma_string_back(l, s, p);
        },
        Json::Array(elements) => {
            let inner = choose|inner: Seq<u8>|
                core == #[trigger] (seq![0x5Bu8] + inner + seq![0x5Du8]) && (if elements.len() == 0 {
                    space(inner)
                } else {
                    spells_items(inner, elements)
                });
            let close = p + 1 + inner.len();
            assert(s[close] == core[core.len() - 1]);
            assert(s.subrange(p + 1, close) =~= inner) by {
                assert(core.subrange(1, core.len() - 1) =~= inner);
            }
            if depth + 1 <= limit {
                if elements.len() == 0 {
                    lemma_skipped(s, p + 1, close);
                    assert(item_docs(Seq::empty(), s) =~= elements);
                } else {
                    lemma_spelled_items(inner, elements, s, p + 1, depth + 1, limit);
                    lemma_items_start(inner, elements, s, p + 1);
                    lemma_items_skip(s, p + 1, depth + 1, limit);
                }
            }
        },
        Json::Object(fields) => {
            let inner = choose|inner: Seq<u8>|
                core == #[trigger] (seq![0x7Bu8] + inner + seq![0x7Du8]) && (if fields.len() == 0 {
                    space(inner)
                } else {
                    spells_members(inner, fields)
                });
            let close = p + 1 + inner.len();
            assert(s[close] == core[core.len() - 1]);
            assert(s.subrange(p + 1, close) =~= inner) by {
                assert(core.subrange(1, core.len() - 1) =~= inner);
            }
            if depth + 1 <= limit {
                if fields.len() == 0 {
                    lemma_skipped(s, p + 1, close);
                    assert(member_docs(Seq::empty(), s) =~= fields);
                } else {
                    lemma_spelled_members(inner, fields, s, p + 1, depth + 1, limit);
                }
            }
        },
    }
}

/// Elements do not start with a closing bracket.
#[verifier::spinoff_prover]
#[verifier::rlimit(40)]
proof fn lemma_items_start(t: Seq<u8>, elements: Seq<Json>, s: Seq<u8>, i: int)
    requires
        spells_items(t, elements),
        holds(s, i, t),
    ensures
        i <= skip_space(s, i) < s.len(),
        s[skip_space(s, i)] != 0x5D,
{
    let x = if elements.len() == 1 {
        t
    } else {
        let (x, y) = choose|x: Seq<u8>, y: Seq<u8>|
            t == #[trigger] (x + seq![0x2Cu8] + y) && spells(x, elements[0]) && spells_items(
                y,
                elements.drop_first(),
            );
        lemma_holds_concat(s, i, x + seq![0x2Cu8], y);
        lemma_holds_concat(s, i, x, seq![0x2Cu8]);
        x
    };
    assert(spells(x, elements[0]));
    let (a, core, b) = choose|a: Seq<u8>, core: Seq<u8>, b: Seq<u8>|
        space(a) && space(b) && writes(core, elements[0]) && x == #[trigger] (a + core + b);
    lemma_holds_concat(s, i, a + core, b);
    lemma_holds_concat(s, i, a, core);
    lemma_core_start(core, elements[0]);
    let p = i + a.len();
    assert(s.subrange(p, p + core.len())[0] == s[p]);
    lemma_skipped(s, i, p);
}

#[verifier::spinoff_prover]
#[verifier::rlimit(40)]
proof fn lemma_spelled_items(
    t: Seq<u8>,
    elements: Seq<Json>,
    s: Seq<u8>,
    i: int,
    depth: int,
    limit: int,
)
    requires
        spells_items(t, elements),
        holds(s, i, t),
        0 <= depth <= limit,
        i + t.len() < s.len(),
        s[i + t.len()] == 0x5D,
    ensures
        fits(nesting_items(elements), depth, limit) ==> (items(s, i, depth, limit) matches Ok(
            (ts, close),
        ) && item_docs(ts, s) == elements && close == i + t.len()),
        !fits(nesting_items(elements), depth, limit) ==> items(s, i, depth, limit) == Err::<
            (Seq<Tree>, int),
            Fault,
        >(Fault::TooDeep { depth: limit + 1 }),
    decreases elements, 2int,
{
    let close = i + t.len();
    let first = elements[0];
    let others = elements.drop_first();
    lemma_value(s, i, depth, limit);
    if elements.len() == 1 {
        lemma_spelled_value(t, first, s, i, depth, limit);
        assert(nesting_items(elements) == nesting(first)) by {
            reveal_with_fuel(nesting_items, 2);
        }
        if let Ok((tree, end)) = value(s, i, depth, limit) {
            lemma_skipped(s, end, close);
            assert(seq![tree].drop_first() =~= Seq::<Tree>::empty());
            assert(seq![tree] + Seq::<Tree>::empty() =~= seq![tree]);
            reveal_with_fuel(item_docs, 2);
            assert(item_docs(seq![tree], s) =~= seq![doc(tree, s)]);
            assert(elements =~= seq![first]);
        }
    } else {
        let (x, y) = choose|x: Seq<u8>, y: Seq<u8>|
            t == #[trigger] (x + seq![0x2Cu8] + y) && spells(x, elements[0]) && spells_items(
                y,
                elements.drop_first(),
            );
        lemma_holds_concat(s, i, x + seq![0x2Cu8], y);
        lemma_holds_concat(s, i, x, seq![0x2Cu8]);
        let c = i + x.len();
        assert(s.subrange(c, c + 1)[0] == s[c]);
        lemma_spelled_value(x, first, s, i, depth, limit);
        lemma_spelled_items(y, others, s, c + 1, depth, limit);
        if let Ok((tree, end)) = value(s, i, depth, limit) {
            lemma_skipped(s, end, c);
            if let Ok((ts, stop)) = items(s, c + 1, depth, limit) {
                assert((seq![tree] + ts).drop_first() =~= ts);
                assert(elements =~= seq![first] + others);
            }
        }
    }
}

#[verifier::spinoff_prover]
#[verifier::rlimit(40)]
proof fn lemma_spelled_members(
    t: Seq<u8>,
    fields: Seq<(Seq<u8>, Json)>,
    s: Seq<u8>,
    i: int,
    depth: int,
    limit: int,
)
    requires
        spells_members(t, fields),
        holds(s, i, t),
        0 <= depth <= limit,
        i + t.len() < s.len(),
        s[i + t.len()] == 0x7D,
    ensures
        i <= skip_space(s, i) < s.len(),
        s[skip_space(s, i)] == 0x22,
        fits(nesting_members(fields), depth, limit) ==> (members(
            s,
            skip_space(s, i),
            depth,
            limit,
        ) matches Ok((ms, close)) && member_docs(ms, s) == fields && close == i + t.len()),
        !fits(nesting_members(fields), depth, limit) ==> members(
            s,
            skip_space(s, i),
            depth,
            limit,
        ) == Err::<(Seq<(Place, Tree)>, int), Fault>(Fault::TooDeep { depth: limit + 1 }),
    decreases fields, 3int,
{
    let close = i + t.len();
    let (k, first) = fields[0];
    let others = fields.drop_first();
    let (x, y) = if fields.len() == 1 {
        (t, Seq::empty())
    } else {
        choose|x: Seq<u8>, y: Seq<u8>|
            t == #[trigger] (x + seq![0x2Cu8] + y) && spells_member(x, fields[0])
                && spells_members(y, fields.drop_first())
    };
    if fields.len() > 1 {
        lemma_holds_concat(s, i, x + seq![0x2Cu8], y);
        lemma_holds_concat(s, i, x, seq![0x2Cu8]);
        assert(s.subrange(i + x.len(), i + x.len() + 1)[0] == s[i + x.len()]);
    }
    let c = i + x.len();
    assert(spells_member(x, fields[0]));
    let (a, b, v) = choose|a: Seq<u8>, b: Seq<u8>, v: Seq<u8>|
        space(a) && space(b) && string_text(fields[0].0) && spells(v, fields[0].1) && x
            == #[trigger] (a + fields[0].0 + b + seq![0x3Au8] + v);
    lemma_holds_concat(s, i, a + k + b + seq![0x3Au8], v);
    lemma_holds_concat(s, i, a + k + b, seq![0x3Au8]);
    lemma_holds_concat(s, i, a + k, b);
    lemma_holds_concat(s, i, a, k);
    let p = i + a.len();
    let e = p + k.len();
    let colon = e + b.len();
    law_strings_are_characters(k);
    lemma_string_back(k, s, p);
    assert(s.subrange(i, p) == a);
    lemma_skipped(s, i, p);
    assert(s.subrange(colon, colon + 1)[0] == s[colon]);
    assert(s.subrange(e, colon) == b);
    lemma_skipped(s, e, colon);
    let place = Place { start: p, end: e };
    assert(key(s, p) == Ok::<(Place, int), Fault>((place, colon + 1)));
    lemma_value(s, colon + 1, depth, limit);
    lemma_spelled_value(v, first, s, colon + 1, depth, limit);
    if fields.len() == 1 {
        assert(nesting_members(fields) == nesting(first)) by {
            reveal_with_fuel(nesting_members, 2);
        }
        if let Ok((tree, end)) = value(s, colon + 1, depth, limit) {
            lemma_skipped(s, end, close);
            let one = seq![(place, tree)];
            assert(one.drop_first() =~= Seq::<(Place, Tree)>::empty());
            assert(one + Seq::<(Place, Tree)>::empty() =~= one);
            reveal_with_fuel(member_docs, 2);
            assert(member_docs(one, s) =~= seq![(k, doc(tree, s))]);
            assert(fields =~= seq![(k, first)]);
        }
    } else {
        lemma_spelled_members(y, others, s, c + 1, depth, limit);
        if let Ok((tree, end)) = value(s, colon + 1, depth, limit) {
            lemma_skipped(s, end, c);
            if let Ok((ms, stop)) = members(s, skip_space(s, c + 1), depth, limit) {
                assert((seq![(place, tree)] + ms).drop_first() =~= ms);
                assert(fields =~= seq![(k, first)] + others);
            }
        }
    }
}

proof fn lemma_space_concat(a: Seq<u8>, b: Seq<u8>)
    requires
        space(a),
        space(b),
    ensures
        space(a + b),
{
    assert forall|k: int| 0 <= k < (a + b).len() implies (#[trigger] (a + b)[k] == 0x20 || (a
        + b)[k] == 0x09 || (a + b)[k] == 0x0A || (a + b)[k] == 0x0D) by {
        if k < a.len() {
            assert((a + b)[k] == a[k]);
        } else {
            assert((a + b)[k] == b[k - a.len()]);
        }
    }
}

/// Whitespace may be put behind a document.
pub proof fn lemma_padded(t: Seq<u8>, w: Seq<u8>, j: Json)
    requires
        spells(t, j),
        space(w),
    ensures
        spells(t + w, j),
{
    let (a, core, b) = choose|a: Seq<u8>, core: Seq<u8>, b: Seq<u8>|
        space(a) && space(b) && writes(core, j) && t == #[trigger] (a + core + b);
    lemma_space_concat(b, w);
    assert(t + w =~= a + core + (b + w));
}

/// Whitespace may be put behind a member.
pub proof fn lemma_member_padded(t: Seq<u8>, w: Seq<u8>, m: (Seq<u8>, Json))
    requires
        spells_member(t, m),
        space(w),
    ensures
        spells_member(t + w, m),
{
    let (a, b, v) = choose|a: Seq<u8>, b: Seq<u8>, v: Seq<u8>|
        space(a) && space(b) && string_text(m.0) && spells(v, m.1) && t == #[trigger] (a + m.0 + b
            + seq![0x3Au8] + v);
    assert(spells(v, m.1));
    lemma_padded(v, w, m.1);
    assert(t + w =~= a + m.0 + b + seq![0x3Au8] + (v + w));
}

/// Whitespace may be put before members.
#[verifier::spinoff_prover]
#[verifier::rlimit(40)]
pub proof fn lemma_members_padded(w: Seq<u8>, t: Seq<u8>, fields: Seq<(Seq<u8>, Json)>)
    requires
        spells_members(t, fields),
        space(w),
    ensures
        spells_members(w + t, fields),
{
    let (x, y) = if fields.len() == 1 {
        (t, Seq::empty())
    } else {
        choose|x: Seq<u8>, y: Seq<u8>|
            t == #[trigger] (x + seq![0x2Cu8] + y) && spells_member(x, fields[0])
                && spells_members(y, fields.drop_first())
    };
    let m = fields[0];
    assert(spells_member(x, m));
    let (a, b, v) = choose|a: Seq<u8>, b: Seq<u8>, v: Seq<u8>|
        space(a) && space(b) && string_text(m.0) && spells(v, m.1) && x == #[trigger] (a + m.0 + b
            + seq![0x3Au8] + v);
    lemma_space_concat(w, a);
    assert(w + x =~= (w + a) + m.0 + b + seq![0x3Au8] + v);
    assert(spells_member(w + x, m));
    if fields.len() > 1 {
        assert(w + t =~= (w + x) + seq![0x2Cu8] + y);
    }
}

pub proof fn lemma_space_read(s: Seq<u8>, i: int, p: int)
    requires
        0 <= i <= p <= s.len(),
        forall|k: int| i <= k < p ==> is_space(s[k]),
    ensures
        space(s.subrange(i, p)),
{
    let w = s.subrange(i, p);
    assert forall|k: int| 0 <= k < w.len() implies (#[trigger] w[k] == 0x20 || w[k] == 0x09 || w[k]
        == 0x0A || w[k] == 0x0D) by {
        assert(is_space(s[i + k]));
    }
}

#[verifier::spinoff_prover]
#[verifier::rlimit(40)]
proof fn lemma_scalar_spelled(s: Seq<u8>, i: int)
    requires
        0 <= i < s.len(),
        scalar(s, i) is Ok,
    ensures
        ({
            let (tree, end) = scalar(s, i)->Ok_0;
            i < end <= s.len() && writes(s.subrange(i, end), doc(tree, s))
        }),
{
    lemma_scalar(s, i);
    let (tree, end) = scalar(s, i)->Ok_0;
    let l = s.subrange(i, end);
    let b = s[i];
    if b == 0x22 {
        lemma_string_rest_sound(s, i + 1, end);
        assert(body(l) =~= s.subrange(i + 1, end - 1));
        law_strings_are_characters(l);
    } else if b == 0x2D || 0x30 <= b <= 0x39 {
        lemma_number_lexeme(s, i, end);
        law_numbers_are_numerals(l);
    } else {
        assert(literal(l));
    }
}

/// What is read as a value spells it.
#[verifier::spinoff_prover]
#[verifier::rlimit(40)]
pub proof fn lemma_value_spelled(s: Seq<u8>, i: int, depth: int, limit: int)
    requires
        0 <= i <= s.len(),
        value(s, i, depth, limit) is Ok,
    ensures
        ({
            let (tree, end) = value(s, i, depth, limit)->Ok_0;
            i < end <= s.len() && spells(s.subrange(i, end), doc(tree, s))
        }),
    decreases s.len() - i, 3int,
{
    lemma_skip_space(s, i);
    lemma_value(s, i, depth, limit);
    let p = skip_space(s, i);
    let (tree, end) = value(s, i, depth, limit)->Ok_0;
    let a = s.subrange(i, p);
    lemma_space_read(s, i, p);
    let core = s.subrange(p, end);
    let none = Seq::<u8>::empty();
    if s[p] == 0x7B {
        lemma_first_member_spelled(s, p + 1, depth + 1, limit);
        lemma_first_member(s, p + 1, depth + 1, limit);
        let (ms, close) = first_member(s, p + 1, depth + 1, limit)->Ok_0;
        let inner = s.subrange(p + 1, close);
        assert(core =~= seq![0x7Bu8] + inner + seq![0x7Du8]);
        lemma_member_docs(ms, s);
        assert(writes(core, doc(tree, s)));
    } else if s[p] == 0x5B {
        lemma_first_item_spelled(s, p + 1, depth + 1, limit);
        lemma_first_item(s, p + 1, depth + 1, limit);
        let (ts, close) = first_item(s, p + 1, depth + 1, limit)->Ok_0;
        let inner = s.subrange(p + 1, close);
        assert(core =~= seq![0x5Bu8] + inner + seq![0x5Du8]);
        lemma_item_docs(ts, s);
        assert(writes(core, doc(tree, s)));
    } else {
        lemma_scalar_spelled(s, p);
    }
    assert(space(none));
    assert(s.subrange(i, end) =~= a + core + none);
}

proof fn lemma_first_item_spelled(s: Seq<u8>, i: int, depth: int, limit: int)
    requires
        0 <= i <= s.len(),
        first_item(s, i, depth, limit) is Ok,
    ensures
        ({
            let (ts, close) = first_item(s, i, depth, limit)->Ok_0;
            if ts.len() == 0 {
                space(s.subrange(i, close))
            } else {
                spells_items(s.subrange(i, close), item_docs(ts, s))
            }
        }),
    decreases s.len() - i, 5int,
{
    lemma_skip_space(s, i);
    let p = skip_space(s, i);
    lemma_space_read(s, i, p);
    if s[p] != 0x5D {
        lemma_items_skip(s, i, depth, limit);
        lemma_items_spelled(s, i, depth, limit);
    }
}

#[verifier::spinoff_prover]
#[verifier::rlimit(40)]
proof fn lemma_items_spelled(s: Seq<u8>, i: int, depth: int, limit: int)
    requires
        0 <= i <= s.len(),
        items(s, i, depth, limit) is Ok,
    ensures
        ({
            let (ts, close) = items(s, i, depth, limit)->Ok_0;
            ts.len() > 0 && spells_items(s.subrange(i, close), item_docs(ts, s))
        }),
    decreases s.len() - i, 4int,
{
    lemma_value(s, i, depth, limit);
    lemma_value_spelled(s, i, depth, limit);
    let (first, j) = value(s, i, depth, limit)->Ok_0;
    lemma_more_items_spelled(s, j, depth, limit);
    lemma_more_items(s, j, depth, limit);
    lemma_skip_space(s, j);
    let (rest, close) = more_items(s, j, depth, limit)->Ok_0;
    let c = skip_space(s, j);
    lemma_space_read(s, j, c);
    let x = s.subrange(i, c);
    assert(x =~= s.subrange(i, j) + s.subrange(j, c));
    lemma_padded(s.subrange(i, j), s.subrange(j, c), doc(first, s));
    let ts = seq![first] + rest;
    assert(ts.drop_first() =~= rest);
    lemma_item_docs(ts, s);
    lemma_item_docs(rest, s);
    assert(item_docs(ts, s).drop_first() =~= item_docs(rest, s));
    if rest.len() == 0 {
        assert(c == close);
    } else {
        let y = s.subrange(c + 1, close);
        assert(s.subrange(i, close) =~= x + seq![0x2Cu8] + y);
    }
}

/// After an element stands the closing bracket, or a comma and more elements.
proof fn lemma_more_items_spelled(s: Seq<u8>, i: int, depth: int, limit: int)
    requires
        0 <= i <= s.len(),
        more_items(s, i, depth, limit) is Ok,
    ensures
        ({
            let (ts, close) = more_items(s, i, depth, limit)->Ok_0;
            let c = skip_space(s, i);
            if ts.len() == 0 {
                c == close
            } else {
                c < close && s[c] == 0x2C && spells_items(
                    s.subrange(c + 1, close),
                    item_docs(ts, s),
                )
            }
        }),
    decreases s.len() - i, 2int,
{
    lemma_skip_space(s, i);
    let p = skip_space(s, i);
    if s[p] == 0x2C {
        lemma_items_spelled(s, p + 1, depth, limit);
        lemma_items(s, p + 1, depth, limit);
    }
}

#[verifier::spinoff_prover]
#[verifier::rlimit(40)]
proof fn lemma_first_member_spelled(s: Seq<u8>, i: int, depth: int, limit: int)
    requires
        0 <= i <= s.len(),
        first_member(s, i, depth, limit) is Ok,
    ensures
        ({
            let (ms, close) = first_member(s, i, depth, limit)->Ok_0;
            if ms.len() == 0 {
                space(s.subrange(i, close))
            } else {
                spells_members(s.subrange(i, close), member_docs(ms, s))
            }
        }),
    decreases s.len() - i, 5int,
{
    lemma_skip_space(s, i);
    let p = skip_space(s, i);
    lemma_space_read(s, i, p);
    if s[p] == 0x22 {
        lemma_members_spelled(s, p, depth, limit);
        lemma_members(s, p, depth, limit);
        let (ms, close) = members(s, p, depth, limit)->Ok_0;
        lemma_members_padded(s.subrange(i, p), s.subrange(p, close), member_docs(ms, s));
        assert(s.subrange(i, close) =~= s.subrange(i, p) + s.subrange(p, close));
    }
}

#[verifier::spinoff_prover]
#[verifier::rlimit(40)]
proof fn lemma_members_spelled(s: Seq<u8>, p: int, depth: int, limit: int)
    requires
        0 <= p < s.len(),
        s[p] == 0x22,
        members(s, p, depth, limit) is Ok,
    ensures
        ({
            let (ms, close) = members(s, p, depth, limit)->Ok_0;
            ms.len() > 0 && spells_members(s.subrange(p, close), member_docs(ms, s))
        }),
    decreases s.len() - p, 4int,
{
    lemma_key(s, p);
    let (place, v) = key(s, p)->Ok_0;
    let e = place.end;
    let colon = v - 1;
    lemma_string_rest_sound(s, p + 1, e);
    lemma_skip_space(s, e);
    lemma_space_read(s, e, colon);
    let k = s.subrange(p, e);
    assert(body(k) =~= s.subrange(p + 1, e - 1));
    law_strings_are_characters(k);
    lemma_value(s, v, depth, limit);
    lemma_value_spelled(s, v, depth, limit);
    let (first, j) = value(s, v, depth, limit)->Ok_0;
    lemma_more_members_spelled(s, j, depth, limit);
    lemma_more_members(s, j, depth, limit);
    lemma_skip_space(s, j);
    let (rest, close) = more_members(s, j, depth, limit)->Ok_0;
    let c = skip_space(s, j);
    lemma_space_read(s, j, c);
    let none = Seq::<u8>::empty();
    let m = (k, doc(first, s));
    assert(space(none));
    assert(string_text(m.0));
    assert(spells(s.subrange(v, j), m.1));
    assert(s.subrange(p, j) =~= none + m.0 + s.subrange(e, colon) + seq![0x3Au8] + s.subrange(v, j));
    assert(spells_member(s.subrange(p, j), m));
    let x = s.subrange(p, c);
    assert(x =~= s.subrange(p, j) + s.subrange(j, c));
    lemma_member_padded(s.subrange(p, j), s.subrange(j, c), m);
    let ms = seq![(place, first)] + rest;
    assert(ms.drop_first() =~= rest);
    lemma_member_docs(ms, s);
    lemma_member_docs(rest, s);
    assert(member_docs(ms, s).drop_first() =~= member_docs(rest, s));
    assert(member_docs(ms, s)[0] == m);
    if rest.len() == 0 {
        assert(c == close);
    } else {
        let y = s.subrange(c + 1, close);
        assert(s.subrange(p, close) =~= x + seq![0x2Cu8] + y);
    }
}

/// After a member stands the closing brace, or a comma and more members.
#[verifier::spinoff_prover]
#[verifier::rlimit(40)]
proof fn lemma_more_members_spelled(s: Seq<u8>, i: int, depth: int, limit: int)
    requires
        0 <= i <= s.len(),
        more_members(s, i, depth, limit) is Ok,
    ensures
        ({
            let (ms, close) = more_members(s, i, depth, limit)->Ok_0;
            let c = skip_space(s, i);
            if ms.len() == 0 {
                c == close
            } else {
                c < close && s[c] == 0x2C && spells_members(
                    s.subrange(c + 1, close),
                    member_docs(ms, s),
                )
            }
        }),
    decreases s.len() - i, 2int,
{
    lemma_skip_space(s, i);
    let p = skip_space(s, i);
    if s[p] == 0x2C {
        lemma_skip_space(s, p + 1);
        let q = skip_space(s, p + 1);
        lemma_space_read(s, p + 1, q);
        lemma_members_spelled(s, q, depth, limit);
        lemma_members(s, q, depth, limit);
        let (ms, close) = members(s, q, depth, limit)->Ok_0;
        lemma_members_padded(s.subrange(p + 1, q), s.subrange(q, close), member_docs(ms, s));
        assert(s.subrange(p + 1, close) =~= s.subrange(p + 1, q) + s.subrange(q, close));
    }
}

// ---------------------------------------------------------------------------
// Laws of documents
// ---------------------------------------------------------------------------

/// A text that spells a document of JSON is read as that document, if its containers lie no
/// deeper than the limit; else it is refused for its depth, one past the limit.
pub proof fn law_json_is_read(t: Seq<u8>, j: Json, limit: int)
    requires
        spells(t, j),
        0 <= limit,
    ensures
        nesting(j) <= limit ==> (document(t, limit) matches Ok(tree) && doc(tree, t) == j),
        nesting(j) > limit ==> document(t, limit) == Err::<Tree, Fault>(
            Fault::TooDeep { depth: limit + 1 },
        ),
{
    assert(t.subrange(0, t.len() as int) =~= t);
    lemma_spelled_value(t, j, t, 0, 0, limit);
    if let Ok((tree, end)) = value(t, 0, 0, limit) {
        lemma_skipped(t, end, t.len() as int);
    }
}

/// Nothing but JSON is read: a text in which a document is found spells it, and its containers
/// lie no deeper than the limit.
#[verifier::spinoff_prover]
#[verifier::rlimit(40)]
pub proof fn law_only_json_is_read(t: Seq<u8>, limit: int)
    requires
        document(t, limit) is Ok,
        0 <= limit,
    ensures
        spells(t, doc(document(t, limit)->Ok_0, t)),
        nesting(doc(document(t, limit)->Ok_0, t)) <= limit,
{
    lemma_value_spelled(t, 0, 0, limit);
    let (tree, end) = value(t, 0, 0, limit)->Ok_0;
    lemma_skip_space(t, end);
    lemma_space_read(t, end, t.len() as int);
    lemma_padded(t.subrange(0, end), t.subrange(end, t.len() as int), doc(tree, t));
    assert(t =~= t.subrange(0, end) + t.subrange(end, t.len() as int));
    law_json_is_read(t, doc(tree, t), limit);
}

proof fn lemma_nesting_item(items: Seq<Json>, k: int)
    requires
        0 <= k < items.len(),
    ensures
        nesting(items[k]) <= nesting_items(items),
    decreases k,
{
    if k > 0 {
        lemma_nesting_item(items.drop_first(), k - 1);
    }
}

proof fn lemma_nesting_deepest(items: Seq<Json>) -> (k: int)
    requires
        items.len() > 0,
    ensures
        0 <= k < items.len(),
        nesting(items[k]) == nesting_items(items),
    decreases items.len(),
{
    if items.len() == 1 || nesting(items[0]) >= nesting_items(items.drop_first()) {
        assert(nesting_items(items.drop_first()) >= 0);
        if items.len() == 1 {
            assert(nesting_items(items.drop_first()) == 0);
        }
        0
    } else {
        1 + lemma_nesting_deepest(items.drop_first())
    }
}

proof fn lemma_nesting_member(members: Seq<(Seq<u8>, Json)>, k: int)
    requires
        0 <= k < members.len(),
    ensures
        nesting(members[k].1) <= nesting_members(members),
    decreases k,
{
    if k > 0 {
        lemma_nesting_member(members.drop_first(), k - 1);
    }
}

proof fn lemma_nesting_deepest_member(members: Seq<(Seq<u8>, Json)>) -> (k: int)
    requires
        members.len() > 0,
    ensures
        0 <= k < members.len(),
        nesting(members[k].1) == nesting_members(members),
    decreases members.len(),
{
    if members.len() == 1 || nesting(members[0].1) >= nesting_members(members.drop_first()) {
        if members.len() == 1 {
            assert(nesting_members(members.drop_first()) == 0);
        }
        0
    } else {
        1 + lemma_nesting_deepest_member(members.drop_first())
    }
}

/// How deep a document nests: a container one deeper than the deepest value in it, an empty one
/// one deep, and anything else not at all.
pub proof fn law_nesting_counts_containers(j: Json)
    ensures
        j is Scalar || j is String ==> nesting(j) == 0,
        j matches Json::Array(items) ==> {
            &&& items.len() == 0 ==> nesting(j) == 1
            &&& items.len() > 0 ==> exists|k: int|
                0 <= k < items.len() && nesting(j) == nesting(#[trigger] items[k]) + 1
            &&& forall|k: int| 0 <= k < items.len() ==> nesting(#[trigger] items[k]) < nesting(j)
        },
        j matches Json::Object(members) ==> {
            &&& members.len() == 0 ==> nesting(j) == 1
            &&& members.len() > 0 ==> exists|k: int|
                0 <= k < members.len() && nesting(j) == nesting((#[trigger] members[k]).1) + 1
            &&& forall|k: int|
                0 <= k < members.len() ==> nesting((#[trigger] members[k]).1) < nesting(j)
        },
{
    match j {
        Json::Array(items) => {
            if items.len() > 0 {
                let k = lemma_nesting_deepest(items);
                assert(nesting(j) == nesting(items[k]) + 1);
            }
            assert forall|k: int| 0 <= k < items.len() implies nesting(#[trigger] items[k])
                < nesting(j) by {
                lemma_nesting_item(items, k);
            }
        },
        Json::Object(members) => {
            if members.len() > 0 {
                let k = lemma_nesting_deepest_member(members);
                assert(nesting(j) == nesting(members[k].1) + 1);
            }
            assert forall|k: int| 0 <= k < members.len() implies nesting((#[trigger] members[k]).1)
                < nesting(j) by {
                lemma_nesting_member(members, k);
            }
        },
        _ => {},
    }
}

} // verus!
