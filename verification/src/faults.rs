//! Where a text stops being JSON: what the offset of a refusal means.
//!
//! What stands before the offset can be completed to a document. What stands at it cannot: no
//! text that goes on from there in the same way is one.

use crate::documents::{
    lemma_number_lexeme, lemma_value_read, nesting, nesting_items, nesting_members, number_lexeme,
};
use crate::grammar::{
    document, false_word, first_item, first_member, fraction_part, hex_digits, holds_at,
    integer_part, is_digit, is_space, items, key, lemma_first_item, lemma_first_member,
    lemma_items, lemma_key, lemma_members, lemma_more_items, lemma_more_members, lemma_number,
    lemma_scalar, lemma_skip_digits, lemma_skip_space, lemma_string_char, lemma_string_rest,
    lemma_value, members, more_items, more_members, null_word, number, scalar, skip_digits,
    skip_space, string_char, string_rest, true_word, value, Fault, Tree,
};
use crate::json::{doc, Json};
use crate::standard::{
    character, digits, exponent, fits, fraction, joined, law_json_is_read,
    law_numbers_are_numerals, law_strings_are_characters, lemma_items_skip, lemma_member_padded,
    lemma_members_padded, lemma_padded, lemma_space_read, lemma_value_spelled, numeral, sign,
    space, spells, spells_items, spells_member, spells_members, string_text, whole, writes,
};
use crate::strings::{body, lemma_string_rest_sound};
use vstd::prelude::*;

verus! {

// ---------------------------------------------------------------------------
// What stands before the offset can be completed
// ---------------------------------------------------------------------------

/// Whether a result is a syntax fault at an offset, with a message.
spec fn syntax_at<T>(r: Result<T, Fault>, at: int, msg: Seq<char>) -> bool {
    r == Err::<T, Fault>(Fault::Syntax { at, msg })
}

/// The byte at an offset, or a negative number past the ends of the text.
pub open spec fn found_at(s: Seq<u8>, at: int) -> int {
    if 0 <= at < s.len() {
        s[at] as int
    } else {
        -1
    }
}

/// The last byte before an offset that is no whitespace, or a negative number if there is none.
pub open spec fn last_mark(s: Seq<u8>, at: int) -> int
    decreases at,
{
    if at <= 0 || at > s.len() {
        -1
    } else if s[at - 1] == 0x20 || s[at - 1] == 0x09 || s[at - 1] == 0x0A || s[at - 1] == 0x0D {
        last_mark(s, at - 1)
    } else {
        s[at - 1] as int
    }
}

/// Whether a byte ends a value: it opens nothing, and does not part values.
pub open spec fn ends_value(b: int) -> bool {
    b >= 0 && b != 0x5B && b != 0x7B && b != 0x2C && b != 0x3A
}

/// Whether a backslash, a `u` and up to three bytes stand right before an offset.
pub open spec fn in_unicode_escape(s: Seq<u8>, at: int) -> bool {
    ||| found_at(s, at - 2) == 0x5C && found_at(s, at - 1) == 0x75
    ||| found_at(s, at - 3) == 0x5C && found_at(s, at - 2) == 0x75
    ||| found_at(s, at - 4) == 0x5C && found_at(s, at - 3) == 0x75
    ||| found_at(s, at - 5) == 0x5C && found_at(s, at - 4) == 0x75
}

/// Whether a message goes with what stands at an offset and before it, and names something
/// that begins with the byte `b` as what was expected.
pub open spec fn asks_for(msg: Seq<char>, b: u8, s: Seq<u8>, at: int) -> bool {
    let found = found_at(s, at);
    let prev = found_at(s, at - 1);
    let mark = last_mark(s, at);
    let no_digit = !(0x30 <= found <= 0x39);
    // A value.
    ||| found < 0 && (mark < 0 || mark == 0x2C || mark == 0x3A) && b == 0x30 && msg
        == "unexpected end of input, expected a value"@
    ||| found == 0x6E && b == 0x30 && msg == "invalid literal, expected 'null'"@
    ||| found == 0x74 && b == 0x30 && msg == "invalid literal, expected 'true'"@
    ||| found == 0x66 && b == 0x30 && msg == "invalid literal, expected 'false'"@
    ||| found >= 0 && found != 0x6E && found != 0x74 && found != 0x66 && found != 0x22 && found
        != 0x2D && no_digit && found != 0x5B && found != 0x7B && b == 0x30 && msg
        == "expected a JSON value"@
    // A number.
    ||| no_digit && prev == 0x2D && b == 0x30 && msg == "invalid number: expected a digit"@
    ||| found == 0x30 && 0x30 <= found_at(s, at + 1) <= 0x39 && b == 0x30 && msg
        == "leading zeros are not allowed in numbers"@
    ||| no_digit && prev == 0x2E && b == 0x30 && msg
        == "invalid number: expected a digit after '.'"@
    ||| no_digit && (prev == 0x65 || prev == 0x45 || prev == 0x2B || prev == 0x2D) && b == 0x30
        && msg == "invalid number: expected a digit in exponent"@
    // An array.
    ||| found < 0 && mark == 0x5B && b == 0x5D && msg
        == "unexpected end of input, expected value or ']'"@
    ||| found < 0 && ends_value(mark) && b == 0x5D && msg
        == "unexpected end of input, expected ',' or ']'"@
    ||| found >= 0 && found != 0x2C && found != 0x5D && ends_value(mark) && b == 0x5D && msg
        == "expected ',' or ']' in array"@
    // An object.
    ||| found < 0 && mark == 0x7B && b == 0x7D && msg
        == "unexpected end of input, expected string key or '}'"@
    ||| found >= 0 && found != 0x22 && found != 0x7D && mark == 0x7B && b == 0x7D && msg
        == "expected string key or '}'"@
    ||| found < 0 && mark == 0x2C && b == 0x22 && msg
        == "unexpected end of input, expected string key"@
    ||| found >= 0 && found != 0x22 && mark == 0x2C && b == 0x22 && msg
        == "expected string key after ','"@
    ||| found < 0 && ends_value(mark) && b == 0x7D && msg
        == "unexpected end of input, expected ',' or '}'"@
    ||| found >= 0 && found != 0x2C && found != 0x7D && ends_value(mark) && b == 0x7D && msg
        == "expected ',' or '}' in object"@
    ||| found < 0 && mark == 0x22 && b == 0x3A && msg == "unexpected end of input, expected ':'"@
    ||| found >= 0 && found != 0x3A && mark == 0x22 && b == 0x3A && msg
        == "expected ':' after object key"@
    // A string.
    ||| found < 0 && b == 0x22 && msg == "unterminated string"@
    ||| 0 <= found <= 0x1F && b == 0x22 && msg == "unescaped control character in string"@
    ||| found < 0 && prev == 0x5C && b == 0x6E && msg == "unterminated escape in string"@
    ||| found >= 0 && prev == 0x5C && b == 0x6E && msg == "invalid escape character in string"@
    ||| found < 0 && in_unicode_escape(s, at) && b == 0x30 && msg == "unterminated unicode escape"@
    ||| found >= 0 && in_unicode_escape(s, at) && b == 0x30 && msg
        == "invalid hex digit in unicode escape"@
}

/// Whether a message asks for something that begins as a text does.
pub open spec fn asked(msg: Seq<char>, x: Seq<u8>, s: Seq<u8>, at: int) -> bool {
    x.len() > 0 && asks_for(msg, x[0], s, at)
}

/// Whether a value may be due at an offset: at the start, or behind a bracket, a comma or a
/// colon.
spec fn value_due(s: Seq<u8>, i: int) -> bool {
    let mark = last_mark(s, i);
    mark < 0 || mark == 0x5B && skip_space(s, i) < s.len() || mark == 0x2C || mark == 0x3A
}

/// Whitespace before an offset does not hide what stands before it.
proof fn lemma_mark(s: Seq<u8>, i: int, at: int)
    requires
        0 <= i <= at <= s.len(),
        forall|k: int| i <= k < at ==> is_space(s[k]),
    ensures
        last_mark(s, at) == last_mark(s, i),
    decreases at - i,
{
    if i < at {
        assert(is_space(s[at - 1]));
        lemma_mark(s, i, at - 1);
    }
}

/// The last byte of a value.
proof fn lemma_value_end(s: Seq<u8>, i: int, depth: int, limit: int)
    requires
        0 <= i <= s.len(),
        value(s, i, depth, limit) is Ok,
    ensures
        ({
            let (tree, end) = value(s, i, depth, limit)->Ok_0;
            &&& i < end <= s.len()
            &&& !is_space(s[end - 1])
            &&& ends_value(s[end - 1] as int)
            &&& last_mark(s, end) == s[end - 1]
        }),
{
    lemma_value(s, i, depth, limit);
    lemma_skip_space(s, i);
    let p = skip_space(s, i);
    let (tree, end) = value(s, i, depth, limit)->Ok_0;
    if s[p] == 0x7B {
        lemma_first_member(s, p + 1, depth + 1, limit);
    } else if s[p] == 0x5B {
        lemma_first_item(s, p + 1, depth + 1, limit);
    } else {
        lemma_scalar(s, p);
        if s[p] == 0x22 {
            lemma_string_rest(s, p + 1);
        } else if s[p] == 0x2D || 0x30 <= s[p] <= 0x39 {
            lemma_number_lexeme(s, p, end);
            let l = s.subrange(p, end);
            assert(l.last() == s[end - 1]);
            lemma_number_last(l);
        } else {
            let l = s.subrange(p, end);
            assert(l.last() == s[end - 1]);
        }
    }
}

/// A number ends with a digit.
proof fn lemma_number_last(l: Seq<u8>)
    requires
        number_lexeme(l),
    ensures
        l.len() > 0,
        0x30 <= l.last() <= 0x39,
{
    law_numbers_are_numerals(l);
    let (m, w, f, e) = choose|m: Seq<u8>, w: Seq<u8>, f: Seq<u8>, e: Seq<u8>|
        sign(m) && whole(w) && fraction(f) && exponent(e) && l == #[trigger] (m + w + f + e);
    if e.len() > 0 {
        assert(l.last() == e.last());
        if digits(e.skip(1)) {
            assert(e.last() == e.skip(1).last());
        } else {
            assert(e.last() == e.skip(2).last());
        }
    } else if f.len() > 0 {
        assert(l.last() == f.last());
        assert(f.last() == f.skip(1).last());
    } else {
        assert(l.last() == w.last());
    }
}

proof fn lemma_core(a: Seq<u8>, core: Seq<u8>, j: Json)
    requires
        space(a),
        writes(core, j),
    ensures
        spells(a + core, j),
{
    let none = Seq::<u8>::empty();
    assert(space(none));
    assert(a + core =~= a + core + none);
}

proof fn lemma_numeral(m: Seq<u8>, w: Seq<u8>, f: Seq<u8>, e: Seq<u8>)
    requires
        sign(m),
        whole(w),
        fraction(f),
        exponent(e),
    ensures
        numeral(m + w + f + e),
{
}

/// A zero is a document.
proof fn lemma_zero(a: Seq<u8>)
    requires
        space(a),
    ensures
        spells(a + seq![0x30u8], Json::Scalar(seq![0x30u8])),
{
    let none = Seq::<u8>::empty();
    lemma_numeral(none, seq![0x30u8], none, none);
    assert(none + seq![0x30u8] + none + none =~= seq![0x30u8]);
    lemma_core(a, seq![0x30u8], Json::Scalar(seq![0x30u8]));
}

#[verifier::spinoff_prover]
#[verifier::rlimit(40)]
proof fn lemma_number_viable(s: Seq<u8>, p: int, at: int, msg: Seq<char>)
    requires
        0 <= p < s.len(),
        s[p] == 0x2D || 0x30 <= s[p] <= 0x39,
        syntax_at(number(s, p), at, msg),
    ensures
        p <= at <= s.len(),
        asks_for(msg, 0x30, s, at),
        numeral(s.subrange(p, at) + seq![0x30u8]),
{
    let none = Seq::<u8>::empty();
    let zero = seq![0x30u8];
    let d = if s[p] == 0x2D {
        p + 1
    } else {
        p
    };
    let m = s.subrange(p, d);
    assert(sign(m));
    match integer_part(s, d) {
        Err(_) => {
            lemma_numeral(m, zero, none, none);
            assert(m + zero + none + none =~= s.subrange(p, at) + zero);
        },
        Ok(f) => {
            lemma_skip_digits(s, d + 1);
            let w = s.subrange(d, f);
            assert(w[0] == s[d]);
            assert(whole(w));
            match fraction_part(s, f) {
                Err(_) => {
                    lemma_skip_digits(s, f + 1);
                    let part = seq![0x2Eu8, 0x30];
                    assert(part.skip(1) =~= zero);
                    lemma_numeral(m, w, part, none);
                    assert(m + w + part + none =~= s.subrange(p, at) + zero);
                },
                Ok(x) => {
                    if f < s.len() {
                        lemma_skip_digits(s, f + 1);
                    }
                    let part = s.subrange(f, x);
                    if f < x {
                        assert(part[0] == s[f]);
                        assert(part.skip(1) =~= s.subrange(f + 1, x));
                    }
                    assert(fraction(part));
                    let power = s.subrange(x, at) + zero;
                    if x + 1 <= s.len() {
                        lemma_skip_digits(s, x + 1);
                    }
                    if x + 2 <= s.len() {
                        lemma_skip_digits(s, x + 2);
                    }
                    assert(power[0] == s[x]);
                    if at == x + 1 {
                        assert(power.skip(1) =~= zero);
                    } else {
                        assert(power[1] == s[x + 1]);
                        assert(power.skip(2) =~= zero);
                    }
                    assert(exponent(power));
                    lemma_numeral(m, w, part, power);
                    assert(m + w + part + power =~= s.subrange(p, at) + zero);
                },
            }
        },
    }
}

proof fn lemma_joined_one(c: Seq<u8>, cs: Seq<Seq<u8>>)
    requires
        character(c),
        forall|k: int| 0 <= k < cs.len() ==> character(#[trigger] cs[k]),
    ensures
        joined(seq![c] + cs) == c + joined(cs),
        forall|k: int| 0 <= k < (seq![c] + cs).len() ==> character(#[trigger] (seq![c] + cs)[k]),
{
    assert((seq![c] + cs).drop_first() =~= cs);
    assert forall|k: int| 0 <= k < (seq![c] + cs).len() implies character(
        #[trigger] (seq![c] + cs)[k],
    ) by {
        if k > 0 {
            assert((seq![c] + cs)[k] == cs[k - 1]);
        }
    }
}

/// The rest of a string up to a fault in it, completed: its characters, and what completes it.
#[verifier::spinoff_prover]
#[verifier::rlimit(40)]
proof fn lemma_string_viable(s: Seq<u8>, i: int, at: int, msg: Seq<char>) -> (r: (Seq<Seq<u8>>, Seq<u8>))
    requires
        0 <= i <= s.len(),
        syntax_at(string_rest(s, i), at, msg),
    ensures
        i <= at <= s.len(),
        forall|k: int| 0 <= k < r.0.len() ==> character(#[trigger] r.0[k]),
        asked(msg, r.1, s, at),
        s.subrange(i, at) + r.1 == joined(r.0) + seq![0x22u8],
    decreases s.len() - i,
{
    let none = Seq::<Seq<u8>>::empty();
    assert(joined(none) =~= Seq::<u8>::empty());
    if i >= s.len() {
        assert(s.subrange(i, at) + seq![0x22u8] =~= joined(none) + seq![0x22u8]);
        (none, seq![0x22u8])
    } else {
        lemma_string_char(s, i);
        reveal_with_fuel(hex_digits, 5);
        match string_char(s, i) {
            Ok(j) => {
                let (cs, x) = lemma_string_viable(s, j, at, msg);
                let c = s.subrange(i, j);
                assert(c[0] == s[i]);
                if j == i + 2 {
                    assert(c[1] == s[i + 1]);
                } else if j == i + 6 {
                    assert(c[1] == s[i + 1] && c[2] == s[i + 2] && c[3] == s[i + 3] && c[4] == s[i
                        + 4] && c[5] == s[i + 5]);
                }
                assert(character(c));
                lemma_joined_one(c, cs);
                assert(s.subrange(i, at) + x =~= c + (s.subrange(j, at) + x));
                assert(c + (joined(cs) + seq![0x22u8]) =~= c + joined(cs) + seq![0x22u8]);
                (seq![c] + cs, x)
            },
            Err(_) => {
                if at == i {
                    assert(s.subrange(i, at) + seq![0x22u8] =~= joined(none) + seq![0x22u8]);
                    (none, seq![0x22u8])
                } else if at == i + 1 {
                    let c = seq![0x5Cu8, 0x6E];
                    lemma_joined_one(c, none);
                    assert(c + joined(none) =~= c);
                    assert(s.subrange(i, at) + seq![0x6Eu8, 0x22] =~= c + seq![0x22u8]);
                    (seq![c] + none, seq![0x6Eu8, 0x22])
                } else {
                    let fill = if at == i + 2 {
                        seq![0x30u8, 0x30, 0x30, 0x30]
                    } else if at == i + 3 {
                        seq![0x30u8, 0x30, 0x30]
                    } else if at == i + 4 {
                        seq![0x30u8, 0x30]
                    } else {
                        seq![0x30u8]
                    };
                    let c = s.subrange(i, at) + fill;
                    assert(c.len() == 6);
                    assert(c[0] == s[i] && c[1] == s[i + 1]);
                    assert(forall|k: int| 2 <= k < at - i ==> c[k] == s[i + k]);
                    assert(forall|k: int| at - i <= k < 6 ==> c[k] == 0x30);
                    assert(at > i + 2 ==> c[2] == s[i + 2]);
                    assert(at > i + 3 ==> c[3] == s[i + 3]);
                    assert(at > i + 4 ==> c[4] == s[i + 4]);
                    assert(character(c));
                    lemma_joined_one(c, none);
                    assert(c + joined(none) =~= c);
                    assert(s.subrange(i, at) + (fill + seq![0x22u8]) =~= c + seq![0x22u8]);
                    (seq![c] + none, fill + seq![0x22u8])
                }
            },
        }
    }
}

/// A string lexeme up to a fault in it, completed.
proof fn lemma_lexeme_viable(s: Seq<u8>, p: int, at: int, msg: Seq<char>) -> (x: Seq<u8>)
    requires
        0 <= p < s.len(),
        s[p] == 0x22,
        syntax_at(string_rest(s, p + 1), at, msg),
    ensures
        p < at <= s.len(),
        asked(msg, x, s, at),
        string_text(s.subrange(p, at) + x),
{
    let (cs, x) = lemma_string_viable(s, p + 1, at, msg);
    assert(s.subrange(p, at) + x =~= seq![0x22u8] + (s.subrange(p + 1, at) + x));
    assert(seq![0x22u8] + (joined(cs) + seq![0x22u8]) =~= seq![0x22u8] + joined(cs) + seq![0x22u8]);
    x
}

#[verifier::spinoff_prover]
#[verifier::rlimit(40)]
proof fn lemma_scalar_viable(s: Seq<u8>, p: int, at: int, msg: Seq<char>) -> (r: (Seq<u8>, Json))
    requires
        0 <= p < s.len(),
        s[p] != 0x5B,
        s[p] != 0x7B,
        syntax_at(scalar(s, p), at, msg),
    ensures
        p <= at <= s.len(),
        asked(msg, r.0, s, at),
        writes(s.subrange(p, at) + r.0, r.1),
        nesting(r.1) == 0,
{
    let zero = seq![0x30u8];
    if s[p] == 0x22 {
        let x = lemma_lexeme_viable(s, p, at, msg);
        (x, Json::String(s.subrange(p, at) + x))
    } else if s[p] == 0x2D || 0x30 <= s[p] <= 0x39 {
        lemma_number_viable(s, p, at, msg);
        (zero, Json::Scalar(s.subrange(p, at) + zero))
    } else {
        let none = Seq::<u8>::empty();
        lemma_numeral(none, zero, none, none);
        assert(none + zero + none + none =~= zero);
        assert(s.subrange(p, at) + zero =~= zero);
        (zero, Json::Scalar(zero))
    }
}

#[verifier::spinoff_prover]
#[verifier::rlimit(40)]
proof fn lemma_value_viable(
    s: Seq<u8>,
    i: int,
    depth: int,
    limit: int,
    at: int,
    msg: Seq<char>,
) -> (r: (Seq<u8>, Json))
    requires
        0 <= i <= s.len(),
        0 <= depth <= limit,
        value_due(s, i),
        syntax_at(value(s, i, depth, limit), at, msg),
    ensures
        i <= at <= s.len(),
        asked(msg, r.0, s, at),
        spells(s.subrange(i, at) + r.0, r.1),
        fits(nesting(r.1), depth, limit),
    decreases s.len() - i, 3int,
{
    lemma_skip_space(s, i);
    let p = skip_space(s, i);
    let a = s.subrange(i, p);
    lemma_space_read(s, i, p);
    lemma_mark(s, i, p);
    if p >= s.len() {
        lemma_zero(a);
        (seq![0x30u8], Json::Scalar(seq![0x30u8]))
    } else if s[p] == 0x7B {
        let (x, fields) = lemma_first_member_viable(s, p + 1, depth + 1, limit, at, msg);
        let inner = s.subrange(p + 1, at) + x;
        let core = seq![0x7Bu8] + inner + seq![0x7Du8];
        assert(writes(core, Json::Object(fields)));
        lemma_core(a, core, Json::Object(fields));
        assert(s.subrange(i, at) + (x + seq![0x7Du8]) =~= a + core);
        (x + seq![0x7Du8], Json::Object(fields))
    } else if s[p] == 0x5B {
        let (x, elements) = lemma_first_item_viable(s, p + 1, depth + 1, limit, at, msg);
        let inner = s.subrange(p + 1, at) + x;
        let core = seq![0x5Bu8] + inner + seq![0x5Du8];
        assert(writes(core, Json::Array(elements)));
        lemma_core(a, core, Json::Array(elements));
        assert(s.subrange(i, at) + (x + seq![0x5Du8]) =~= a + core);
        (x + seq![0x5Du8], Json::Array(elements))
    } else {
        let (x, j) = lemma_scalar_viable(s, p, at, msg);
        lemma_core(a, s.subrange(p, at) + x, j);
        assert(s.subrange(i, at) + x =~= a + (s.subrange(p, at) + x));
        (x, j)
    }
}

/// What is inside brackets, completed.
spec fn listed_items(t: Seq<u8>, elements: Seq<Json>, depth: int, limit: int) -> bool {
    &&& fits(nesting_items(elements), depth, limit)
    &&& if elements.len() == 0 {
        space(t)
    } else {
        spells_items(t, elements)
    }
}

proof fn lemma_first_item_viable(
    s: Seq<u8>,
    i: int,
    depth: int,
    limit: int,
    at: int,
    msg: Seq<char>,
) -> (r: (Seq<u8>, Seq<Json>))
    requires
        0 <= i <= s.len(),
        0 <= depth <= limit,
        i > 0,
        s[i - 1] == 0x5B,
        syntax_at(first_item(s, i, depth, limit), at, msg),
    ensures
        i <= at <= s.len(),
        asked(msg, r.0 + seq![0x5Du8], s, at),
        listed_items(s.subrange(i, at) + r.0, r.1, depth, limit),
    decreases s.len() - i, 5int,
{
    lemma_skip_space(s, i);
    let p = skip_space(s, i);
    lemma_space_read(s, i, p);
    lemma_mark(s, i, p);
    assert(last_mark(s, i) == 0x5B);
    if p >= s.len() {
        let none = Seq::<u8>::empty();
        assert(s.subrange(i, at) + none =~= s.subrange(i, p));
        (none, Seq::empty())
    } else {
        lemma_items_skip(s, i, depth, limit);
        lemma_items_viable(s, i, depth, limit, at, msg)
    }
}

proof fn lemma_nesting_first(first: Json, others: Seq<Json>, depth: int, limit: int)
    requires
        fits(nesting(first), depth, limit),
        fits(nesting_items(others), depth, limit),
    ensures
        fits(nesting_items(seq![first] + others), depth, limit),
{
    assert((seq![first] + others).drop_first() =~= others);
}

proof fn lemma_nesting_first_member(
    k: Seq<u8>,
    first: Json,
    others: Seq<(Seq<u8>, Json)>,
    depth: int,
    limit: int,
)
    requires
        fits(nesting(first), depth, limit),
        fits(nesting_members(others), depth, limit),
    ensures
        fits(nesting_members(seq![(k, first)] + others), depth, limit),
{
    assert((seq![(k, first)] + others).drop_first() =~= others);
}

#[verifier::spinoff_prover]
#[verifier::rlimit(40)]
proof fn lemma_items_viable(
    s: Seq<u8>,
    i: int,
    depth: int,
    limit: int,
    at: int,
    msg: Seq<char>,
) -> (r: (Seq<u8>, Seq<Json>))
    requires
        0 <= i <= s.len(),
        0 <= depth <= limit,
        value_due(s, i),
        syntax_at(items(s, i, depth, limit), at, msg),
    ensures
        i <= at <= s.len(),
        asked(msg, r.0 + seq![0x5Du8], s, at),
        r.1.len() > 0,
        listed_items(s.subrange(i, at) + r.0, r.1, depth, limit),
    decreases s.len() - i, 4int,
{
    lemma_value(s, i, depth, limit);
    match value(s, i, depth, limit) {
        Err(_) => {
            let (x, j) = lemma_value_viable(s, i, depth, limit, at, msg);
            let none = Seq::<Json>::empty();
            lemma_nesting_first(j, none, depth, limit);
            assert(seq![j] + none =~= seq![j]);
            (x, seq![j])
        },
        Ok((first, j)) => {
            lemma_value_spelled(s, i, depth, limit);
            lemma_value_read(s, i, depth, limit);
            let one = doc(first, s);
            lemma_value_end(s, i, depth, limit);
            let (x, others) = lemma_more_items_viable(s, j, depth, limit, at, msg);
            lemma_skip_space(s, j);
            let c = skip_space(s, j);
            lemma_space_read(s, j, c);
            let head = s.subrange(i, c);
            assert(head =~= s.subrange(i, j) + s.subrange(j, c));
            lemma_padded(s.subrange(i, j), s.subrange(j, c), one);
            lemma_nesting_first(one, others, depth, limit);
            let all = seq![one] + others;
            assert(all.drop_first() =~= others);
            if others.len() == 0 {
                assert(s.subrange(i, at) + x =~= head);
                assert(all =~= seq![one]);
            } else {
                let tail = s.subrange(c + 1, at) + x;
                assert(s.subrange(i, at) + x =~= head + seq![0x2Cu8] + tail);
            }
            (x, all)
        },
    }
}

/// After an element stands nothing but whitespace, or a comma and more elements.
proof fn lemma_more_items_viable(
    s: Seq<u8>,
    i: int,
    depth: int,
    limit: int,
    at: int,
    msg: Seq<char>,
) -> (r: (Seq<u8>, Seq<Json>))
    requires
        0 <= i <= s.len(),
        0 <= depth <= limit,
        ends_value(last_mark(s, i)),
        syntax_at(more_items(s, i, depth, limit), at, msg),
    ensures
        i <= skip_space(s, i) <= at <= s.len(),
        asked(msg, r.0 + seq![0x5Du8], s, at),
        fits(nesting_items(r.1), depth, limit),
        r.1.len() == 0 ==> at == skip_space(s, i) && r.0.len() == 0,
        r.1.len() > 0 ==> skip_space(s, i) < at && s[skip_space(s, i)] == 0x2C && spells_items(
            s.subrange(skip_space(s, i) + 1, at) + r.0,
            r.1,
        ),
    decreases s.len() - i, 2int,
{
    lemma_skip_space(s, i);
    let p = skip_space(s, i);
    lemma_mark(s, i, p);
    if p < s.len() && s[p] == 0x2C {
        assert(last_mark(s, p + 1) == 0x2C);
        lemma_items_viable(s, p + 1, depth, limit, at, msg)
    } else {
        (Seq::empty(), Seq::empty())
    }
}

/// What is inside braces, completed.
spec fn listed_members(t: Seq<u8>, fields: Seq<(Seq<u8>, Json)>, depth: int, limit: int) -> bool {
    &&& fits(nesting_members(fields), depth, limit)
    &&& if fields.len() == 0 {
        space(t)
    } else {
        spells_members(t, fields)
    }
}

proof fn lemma_first_member_viable(
    s: Seq<u8>,
    i: int,
    depth: int,
    limit: int,
    at: int,
    msg: Seq<char>,
) -> (r: (Seq<u8>, Seq<(Seq<u8>, Json)>))
    requires
        0 <= i <= s.len(),
        0 <= depth <= limit,
        i > 0,
        s[i - 1] == 0x7B,
        syntax_at(first_member(s, i, depth, limit), at, msg),
    ensures
        i <= at <= s.len(),
        asked(msg, r.0 + seq![0x7Du8], s, at),
        listed_members(s.subrange(i, at) + r.0, r.1, depth, limit),
    decreases s.len() - i, 5int,
{
    lemma_skip_space(s, i);
    let p = skip_space(s, i);
    lemma_space_read(s, i, p);
    lemma_mark(s, i, p);
    assert(last_mark(s, i) == 0x7B);
    if p < s.len() && s[p] == 0x22 {
        let (x, fields) = lemma_members_viable(s, p, depth, limit, at, msg);
        lemma_members_padded(s.subrange(i, p), s.subrange(p, at) + x, fields);
        assert(s.subrange(i, at) + x =~= s.subrange(i, p) + (s.subrange(p, at) + x));
        (x, fields)
    } else {
        let none = Seq::<u8>::empty();
        assert(s.subrange(i, at) + none =~= s.subrange(i, p));
        (none, Seq::empty())
    }
}

/// A key, whitespace, a colon and a value make a member.
proof fn lemma_member_made(k: Seq<u8>, b: Seq<u8>, v: Seq<u8>, j: Json)
    requires
        string_text(k),
        space(b),
        spells(v, j),
    ensures
        spells_member(k + b + seq![0x3Au8] + v, (k, j)),
{
    let none = Seq::<u8>::empty();
    assert(space(none));
    let m = (k, j);
    assert(k + b + seq![0x3Au8] + v =~= none + m.0 + b + seq![0x3Au8] + v);
}

#[verifier::spinoff_prover]
#[verifier::rlimit(40)]
proof fn lemma_members_viable(
    s: Seq<u8>,
    p: int,
    depth: int,
    limit: int,
    at: int,
    msg: Seq<char>,
) -> (r: (Seq<u8>, Seq<(Seq<u8>, Json)>))
    requires
        0 <= p < s.len(),
        s[p] == 0x22,
        0 <= depth <= limit,
        syntax_at(members(s, p, depth, limit), at, msg),
    ensures
        p <= at <= s.len(),
        asked(msg, r.0 + seq![0x7Du8], s, at),
        r.1.len() > 0,
        listed_members(s.subrange(p, at) + r.0, r.1, depth, limit),
    decreases s.len() - p, 4int,
{
    let none = Seq::<u8>::empty();
    let no_fields = Seq::<(Seq<u8>, Json)>::empty();
    let zero = seq![0x30u8];
    let nought = Json::Scalar(zero);
    assert(space(none));
    lemma_zero(none);
    assert(none + zero =~= zero);
    lemma_key(s, p);
    match key(s, p) {
        Err(_) => {
            match string_rest(s, p + 1) {
                Err(_) => {
                    let x = lemma_lexeme_viable(s, p, at, msg);
                    let k = s.subrange(p, at) + x;
                    lemma_member_made(k, none, zero, nought);
                    let more = x + seq![0x3Au8, 0x30];
                    assert(s.subrange(p, at) + more =~= k + none + seq![0x3Au8] + zero);
                    lemma_nesting_first_member(k, nought, no_fields, depth, limit);
                    assert(seq![(k, nought)] + no_fields =~= seq![(k, nought)]);
                    (more, seq![(k, nought)])
                },
                Ok(end) => {
                    lemma_key_text(s, p, end);
                    lemma_string_rest(s, p + 1);
                    lemma_skip_space(s, end);
                    lemma_mark(s, end, at);
                    assert(last_mark(s, end) == 0x22);
                    lemma_space_read(s, end, at);
                    let k = s.subrange(p, end);
                    lemma_member_made(k, s.subrange(end, at), zero, nought);
                    let more = seq![0x3Au8, 0x30];
                    assert(s.subrange(p, at) + more =~= k + s.subrange(end, at) + seq![0x3Au8]
                        + zero);
                    lemma_nesting_first_member(k, nought, no_fields, depth, limit);
                    assert(seq![(k, nought)] + no_fields =~= seq![(k, nought)]);
                    (more, seq![(k, nought)])
                },
            }
        },
        Ok((place, v)) => {
            let e = place.end;
            let colon = v - 1;
            lemma_key_text(s, p, e);
            lemma_skip_space(s, e);
            lemma_space_read(s, e, colon);
            let k = s.subrange(p, e);
            let b = s.subrange(e, colon);
            assert(last_mark(s, v) == 0x3A);
            lemma_value(s, v, depth, limit);
            match value(s, v, depth, limit) {
                Err(_) => {
                    let (x, j) = lemma_value_viable(s, v, depth, limit, at, msg);
                    lemma_member_made(k, b, s.subrange(v, at) + x, j);
                    assert(s.subrange(p, at) + x =~= k + b + seq![0x3Au8] + (s.subrange(v, at) + x));
                    lemma_nesting_first_member(k, j, no_fields, depth, limit);
                    assert(seq![(k, j)] + no_fields =~= seq![(k, j)]);
                    (x, seq![(k, j)])
                },
                Ok((first, j)) => {
                    lemma_value_spelled(s, v, depth, limit);
                    lemma_value_read(s, v, depth, limit);
                    let one = doc(first, s);
                    lemma_value_end(s, v, depth, limit);
                    let (x, others) = lemma_more_members_viable(s, j, depth, limit, at, msg);
                    lemma_skip_space(s, j);
                    let c = skip_space(s, j);
                    lemma_space_read(s, j, c);
                    lemma_member_made(k, b, s.subrange(v, j), one);
                    assert(s.subrange(p, j) =~= k + b + seq![0x3Au8] + s.subrange(v, j));
                    lemma_member_padded(s.subrange(p, j), s.subrange(j, c), (k, one));
                    let head = s.subrange(p, c);
                    assert(head =~= s.subrange(p, j) + s.subrange(j, c));
                    lemma_nesting_first_member(k, one, others, depth, limit);
                    let all = seq![(k, one)] + others;
                    assert(all.drop_first() =~= others);
                    if others.len() == 0 {
                        assert(s.subrange(p, at) + x =~= head);
                        assert(all =~= seq![(k, one)]);
                    } else {
                        let tail = s.subrange(c + 1, at) + x;
                        assert(s.subrange(p, at) + x =~= head + seq![0x2Cu8] + tail);
                    }
                    (x, all)
                },
            }
        },
    }
}

/// A key that is read is a string.
proof fn lemma_key_text(s: Seq<u8>, p: int, end: int)
    requires
        0 <= p < s.len(),
        s[p] == 0x22,
        string_rest(s, p + 1) == Ok::<int, Fault>(end),
    ensures
        p < end <= s.len(),
        string_text(s.subrange(p, end)),
{
    lemma_string_rest_sound(s, p + 1, end);
    let k = s.subrange(p, end);
    assert(body(k) =~= s.subrange(p + 1, end - 1));
    law_strings_are_characters(k);
}

/// After a member stands nothing but whitespace, or a comma and more members.
#[verifier::spinoff_prover]
#[verifier::rlimit(40)]
proof fn lemma_more_members_viable(
    s: Seq<u8>,
    i: int,
    depth: int,
    limit: int,
    at: int,
    msg: Seq<char>,
) -> (r: (Seq<u8>, Seq<(Seq<u8>, Json)>))
    requires
        0 <= i <= s.len(),
        0 <= depth <= limit,
        ends_value(last_mark(s, i)),
        syntax_at(more_members(s, i, depth, limit), at, msg),
    ensures
        i <= skip_space(s, i) <= at <= s.len(),
        asked(msg, r.0 + seq![0x7Du8], s, at),
        fits(nesting_members(r.1), depth, limit),
        r.1.len() == 0 ==> at == skip_space(s, i) && r.0.len() == 0,
        r.1.len() > 0 ==> skip_space(s, i) < at && s[skip_space(s, i)] == 0x2C && spells_members(
            s.subrange(skip_space(s, i) + 1, at) + r.0,
            r.1,
        ),
    decreases s.len() - i, 2int,
{
    lemma_skip_space(s, i);
    let p = skip_space(s, i);
    lemma_mark(s, i, p);
    if p < s.len() && s[p] == 0x2C {
        assert(last_mark(s, p + 1) == 0x2C);
        lemma_skip_space(s, p + 1);
        let q = skip_space(s, p + 1);
        lemma_space_read(s, p + 1, q);
        lemma_mark(s, p + 1, q);
        if q < s.len() && s[q] == 0x22 {
            let (x, fields) = lemma_members_viable(s, q, depth, limit, at, msg);
            lemma_members_padded(s.subrange(p + 1, q), s.subrange(q, at) + x, fields);
            assert(s.subrange(p + 1, at) + x =~= s.subrange(p + 1, q) + (s.subrange(q, at) + x));
            (x, fields)
        } else {
            let none = Seq::<u8>::empty();
            let no_fields = Seq::<(Seq<u8>, Json)>::empty();
            let zero = seq![0x30u8];
            let nought = Json::Scalar(zero);
            let k = seq![0x22u8, 0x22];
            lemma_zero(none);
            assert(none + zero =~= zero);
            assert(string_text(k)) by {
                let cs = Seq::<Seq<u8>>::empty();
                assert(k =~= seq![0x22u8] + joined(cs) + seq![0x22u8]);
            }
            lemma_member_made(k, none, zero, nought);
            let x = seq![0x22u8, 0x22, 0x3A, 0x30];
            let made = k + none + seq![0x3Au8] + zero;
            assert(made =~= x);
            assert(spells_members(x, seq![(k, nought)]));
            lemma_members_padded(s.subrange(p + 1, q), x, seq![(k, nought)]);
            lemma_nesting_first_member(k, nought, no_fields, depth, limit);
            assert(seq![(k, nought)] + no_fields =~= seq![(k, nought)]);
            assert(s.subrange(p + 1, at) =~= s.subrange(p + 1, q));
            (x, seq![(k, nought)])
        }
    } else {
        (Seq::empty(), Seq::empty())
    }
}

/// What stands before the offset of a refusal is in order: it can be completed to a document
/// within the limit, by something that begins with what the message asks for; or it is a
/// document, and the message says that more follows.
pub proof fn law_text_before_the_offset_is_in_order(s: Seq<u8>, limit: int, at: int, msg: Seq<char>)
    requires
        0 <= limit,
        document(s, limit) == Err::<Tree, Fault>(Fault::Syntax { at, msg }),
    ensures
        0 <= at <= s.len(),
        exists|x: Seq<u8>, j: Json| #[trigger]
            spells(s.take(at) + x, j) && nesting(j) <= limit && (asked(msg, x, s, at) || (
            x.len() == 0 && at < s.len() && msg == "trailing data after top-level value"@)),
{
    match value(s, 0, 0, limit) {
        Err(_) => {
            let (x, j) = lemma_value_viable(s, 0, 0, limit, at, msg);
            assert(s.subrange(0, at) =~= s.take(at));
            assert(spells(s.take(at) + x, j));
        },
        Ok((tree, end)) => {
            lemma_value(s, 0, 0, limit);
            lemma_value_spelled(s, 0, 0, limit);
            lemma_value_read(s, 0, 0, limit);
            lemma_skip_space(s, end);
            lemma_space_read(s, end, at);
            let j = doc(tree, s);
            let none = Seq::<u8>::empty();
            lemma_padded(s.subrange(0, end), s.subrange(end, at), j);
            assert(s.take(at) + none =~= s.subrange(0, end) + s.subrange(end, at));
            assert(spells(s.take(at) + none, j));
        },
    }
}

// ---------------------------------------------------------------------------
// What stands at the offset cannot go on
// ---------------------------------------------------------------------------

/// Whether two texts have the same first `m` bytes.
pub open spec fn agree(s: Seq<u8>, t: Seq<u8>, m: int) -> bool {
    &&& 0 <= m <= s.len()
    &&& m <= t.len()
    &&& forall|k: int| 0 <= k < m ==> #[trigger] s[k] == t[k]
}

/// How many bytes from an offset on show that a text is wrong there: one, but of a literal four
/// or five, and two if a zero is followed by a digit.
pub open spec fn telling(s: Seq<u8>, at: int) -> int {
    if s[at] == 0x66 {
        5
    } else if s[at] == 0x6E || s[at] == 0x74 {
        4
    } else if s[at] == 0x30 {
        2
    } else {
        1
    }
}

/// Whether a result is settled by the first `m` bytes of a text.
spec fn settled<T>(r: Result<T, Fault>, s: Seq<u8>, m: int) -> bool {
    match r {
        Ok(_) => true,
        Err(Fault::Syntax { at, msg }) => 0 <= at < s.len() && at + telling(s, at) <= m,
        Err(Fault::TooDeep { depth }) => false,
    }
}

proof fn lemma_space_agrees(s: Seq<u8>, t: Seq<u8>, m: int, i: int)
    requires
        agree(s, t, m),
        0 <= i,
        skip_space(s, i) < m,
    ensures
        skip_space(t, i) == skip_space(s, i),
    decreases m - i,
{
    if i < m {
        assert(s[i] == t[i]);
        if is_space(s[i]) {
            lemma_space_agrees(s, t, m, i + 1);
        }
    } else if i <= s.len() {
        lemma_skip_space(s, i);
    }
}

proof fn lemma_digits_agree(s: Seq<u8>, t: Seq<u8>, m: int, i: int)
    requires
        agree(s, t, m),
        0 <= i,
        skip_digits(s, i) < m,
    ensures
        skip_digits(t, i) == skip_digits(s, i),
    decreases m - i,
{
    if i < m {
        assert(s[i] == t[i]);
        if is_digit(s[i]) {
            lemma_digits_agree(s, t, m, i + 1);
        }
    } else if i <= s.len() {
        lemma_skip_digits(s, i);
    }
}

#[verifier::spinoff_prover]
#[verifier::rlimit(40)]
proof fn lemma_number_agrees(s: Seq<u8>, t: Seq<u8>, m: int, p: int)
    requires
        agree(s, t, m),
        0 <= p < s.len(),
        settled(number(s, p), s, m),
        number(s, p) matches Ok(end) ==> end < m,
    ensures
        number(t, p) == number(s, p),
{
    lemma_number(s, p);
    let d = if s[p] == 0x2D {
        p + 1
    } else {
        p
    };
    if d < s.len() {
        lemma_skip_digits(s, d + 1);
    }
    if let Ok(f) = integer_part(s, d) {
        if f + 1 <= s.len() {
            lemma_skip_digits(s, f + 1);
        }
        if let Ok(x) = fraction_part(s, f) {
            if x + 1 <= s.len() {
                lemma_skip_digits(s, x + 1);
            }
            if x + 2 <= s.len() {
                lemma_skip_digits(s, x + 2);
            }
            assert(p < m && s[p] == t[p]);
            assert(d < m && s[d] == t[d]);
            assert(f < m && s[f] == t[f]);
            assert(x < m && s[x] == t[x]);
            if s[d] != 0x30 {
                lemma_digits_agree(s, t, m, d + 1);
            } else {
                assert(d + 1 == f);
            }
            assert(integer_part(t, d) == integer_part(s, d));
            if f < x {
                lemma_digits_agree(s, t, m, f + 1);
            }
            assert(fraction_part(t, f) == fraction_part(s, f));
            if s[x] == 0x65 || s[x] == 0x45 {
                assert(x + 1 < m && s[x + 1] == t[x + 1]);
                if s[x + 1] == 0x2B || s[x + 1] == 0x2D {
                    lemma_digits_agree(s, t, m, x + 2);
                } else {
                    lemma_digits_agree(s, t, m, x + 1);
                }
            }
        } else {
            assert(p < m && s[p] == t[p]);
            assert(d < m && s[d] == t[d]);
            assert(f < m && s[f] == t[f]);
            assert(f + 1 < m && s[f + 1] == t[f + 1]);
            if s[d] != 0x30 {
                lemma_digits_agree(s, t, m, d + 1);
            }
        }
    } else {
        assert(p < m && s[p] == t[p]);
        assert(d < m && s[d] == t[d]);
        if s[d] == 0x30 {
            assert(s[d + 1] == t[d + 1]);
        }
    }
}

proof fn lemma_char_agrees(s: Seq<u8>, t: Seq<u8>, m: int, i: int)
    requires
        agree(s, t, m),
        0 <= i < m,
        s[i] != 0x22,
        settled(string_char(s, i), s, m),
        string_char(s, i) matches Ok(j) ==> j <= m,
    ensures
        string_char(t, i) == string_char(s, i),
{
    reveal_with_fuel(hex_digits, 5);
    assert(s[i] == t[i]);
    assert(i + 1 < m ==> s[i + 1] == t[i + 1]);
    assert(i + 2 < m ==> s[i + 2] == t[i + 2]);
    assert(i + 3 < m ==> s[i + 3] == t[i + 3]);
    assert(i + 4 < m ==> s[i + 4] == t[i + 4]);
    assert(i + 5 < m ==> s[i + 5] == t[i + 5]);
}

#[verifier::spinoff_prover]
#[verifier::rlimit(40)]
proof fn lemma_string_agrees(s: Seq<u8>, t: Seq<u8>, m: int, i: int)
    requires
        agree(s, t, m),
        0 <= i <= s.len(),
        settled(string_rest(s, i), s, m),
        string_rest(s, i) matches Ok(end) ==> end <= m,
    ensures
        string_rest(t, i) == string_rest(s, i),
    decreases s.len() - i,
{
    lemma_string_rest(s, i);
    if i < s.len() {
        if s[i] == 0x22 {
            assert(s[i] == t[i]);
        } else {
            lemma_string_char(s, i);
            match string_char(s, i) {
                Ok(j) => {
                    lemma_string_rest(s, j);
                    lemma_fault_bound(s, j);
                    lemma_string_agrees(s, t, m, j);
                    lemma_char_agrees(s, t, m, i);
                    assert(s[i] == t[i]);
                },
                Err(_) => {
                    reveal_with_fuel(hex_digits, 5);
                    lemma_char_agrees(s, t, m, i);
                    assert(s[i] == t[i]);
                },
            }
        }
    }
}

/// A fault in a string lies behind where it is looked for.
proof fn lemma_fault_bound(s: Seq<u8>, i: int)
    requires
        0 <= i <= s.len(),
    ensures
        string_rest(s, i) matches Err(Fault::Syntax { at, msg }) ==> i <= at <= s.len(),
        !(string_rest(s, i) matches Err(Fault::TooDeep { depth })),
    decreases s.len() - i,
{
    if i < s.len() && s[i] != 0x22 {
        lemma_string_char(s, i);
        reveal_with_fuel(hex_digits, 5);
        if let Ok(j) = string_char(s, i) {
            lemma_fault_bound(s, j);
        }
    }
}

proof fn lemma_holds_agrees(s: Seq<u8>, t: Seq<u8>, m: int, p: int, word: Seq<u8>)
    requires
        agree(s, t, m),
        0 <= p,
        p + word.len() <= m,
    ensures
        holds_at(t, p, word) == holds_at(s, p, word),
{
    assert(s.subrange(p, p + word.len()) =~= t.subrange(p, p + word.len()));
}

#[verifier::spinoff_prover]
proof fn lemma_scalar_agrees(s: Seq<u8>, t: Seq<u8>, m: int, p: int)
    requires
        agree(s, t, m),
        0 <= p < m,
        settled(scalar(s, p), s, m),
        scalar(s, p) matches Ok((tree, end)) ==> end < m,
    ensures
        scalar(t, p) == scalar(s, p),
{
    assert(s[p] == t[p]);
    lemma_scalar(s, p);
    if s[p] == 0x22 {
        lemma_string_agrees(s, t, m, p + 1);
    } else if s[p] == 0x2D || 0x30 <= s[p] <= 0x39 {
        lemma_number_agrees(s, t, m, p);
    } else if s[p] == 0x6E {
        lemma_holds_agrees(s, t, m, p, null_word());
    } else if s[p] == 0x74 {
        lemma_holds_agrees(s, t, m, p, true_word());
    } else if s[p] == 0x66 {
        lemma_holds_agrees(s, t, m, p, false_word());
    }
}

/// Where a fault of a value lies.
proof fn lemma_value_fault(s: Seq<u8>, i: int, depth: int, limit: int)
    requires
        0 <= i <= s.len(),
        0 <= depth <= limit,
    ensures
        value(s, i, depth, limit) matches Err(Fault::Syntax { at, msg }) ==> skip_space(s, i) <= at
            <= s.len(),
{
    lemma_skip_space(s, i);
    let p = skip_space(s, i);
    if let Err(Fault::Syntax { at, msg }) = value(s, i, depth, limit) {
        if p < s.len() {
            if s[p] == 0x7B {
                let r = lemma_first_member_viable(s, p + 1, depth + 1, limit, at, msg);
            } else if s[p] == 0x5B {
                let r = lemma_first_item_viable(s, p + 1, depth + 1, limit, at, msg);
            } else {
                let r = lemma_scalar_viable(s, p, at, msg);
            }
        }
    }
}

#[verifier::spinoff_prover]
#[verifier::rlimit(40)]
proof fn lemma_value_agrees(s: Seq<u8>, t: Seq<u8>, m: int, i: int, depth: int, limit: int)
    requires
        agree(s, t, m),
        0 <= i <= s.len(),
        0 <= depth <= limit,
        settled(value(s, i, depth, limit), s, m),
        value(s, i, depth, limit) matches Ok((tree, end)) ==> end < m,
    ensures
        value(t, i, depth, limit) == value(s, i, depth, limit),
    decreases s.len() - i, 3int,
{
    lemma_skip_space(s, i);
    lemma_value(s, i, depth, limit);
    lemma_value_fault(s, i, depth, limit);
    let p = skip_space(s, i);
    assert(p < s.len());
    if s[p] == 0x7B {
        lemma_first_member(s, p + 1, depth + 1, limit);
    } else if s[p] == 0x5B {
        lemma_first_item(s, p + 1, depth + 1, limit);
    } else {
        lemma_scalar(s, p);
    }
    assert(p < m);
    lemma_space_agrees(s, t, m, i);
    assert(s[p] == t[p]);
    if s[p] == 0x7B {
        if depth + 1 <= limit {
            lemma_first_member_agrees(s, t, m, p + 1, depth + 1, limit);
        }
    } else if s[p] == 0x5B {
        if depth + 1 <= limit {
            lemma_first_item_agrees(s, t, m, p + 1, depth + 1, limit);
        }
    } else {
        lemma_scalar_agrees(s, t, m, p);
    }
}

#[verifier::spinoff_prover]
#[verifier::rlimit(40)]
proof fn lemma_first_item_agrees(s: Seq<u8>, t: Seq<u8>, m: int, i: int, depth: int, limit: int)
    requires
        agree(s, t, m),
        0 <= i <= s.len(),
        0 <= depth <= limit,
        i > 0,
        s[i - 1] == 0x5B,
        settled(first_item(s, i, depth, limit), s, m),
        first_item(s, i, depth, limit) matches Ok((ts, close)) ==> close < m,
    ensures
        first_item(t, i, depth, limit) == first_item(s, i, depth, limit),
    decreases s.len() - i, 5int,
{
    lemma_skip_space(s, i);
    let p = skip_space(s, i);
    lemma_mark(s, i, p);
    assert(last_mark(s, i) == 0x5B);
    if p < s.len() && s[p] != 0x5D {
        lemma_items(s, p, depth, limit);
        if let Err(Fault::Syntax { at, msg }) = items(s, p, depth, limit) {
            let r = lemma_items_viable(s, p, depth, limit, at, msg);
        }
        lemma_items_agree(s, t, m, p, depth, limit);
    }
    assert(p < m);
    lemma_space_agrees(s, t, m, i);
    assert(s[p] == t[p]);
}

#[verifier::spinoff_prover]
#[verifier::rlimit(40)]
proof fn lemma_items_agree(s: Seq<u8>, t: Seq<u8>, m: int, i: int, depth: int, limit: int)
    requires
        agree(s, t, m),
        0 <= i <= s.len(),
        0 <= depth <= limit,
        settled(items(s, i, depth, limit), s, m),
        items(s, i, depth, limit) matches Ok((ts, close)) ==> close < m,
    ensures
        items(t, i, depth, limit) == items(s, i, depth, limit),
    decreases s.len() - i, 4int,
{
    lemma_value(s, i, depth, limit);
    match value(s, i, depth, limit) {
        Err(_) => {
            lemma_value_agrees(s, t, m, i, depth, limit);
        },
        Ok((first, j)) => {
            lemma_more_items(s, j, depth, limit);
            lemma_value_end(s, i, depth, limit);
            if let Err(Fault::Syntax { at, msg }) = more_items(s, j, depth, limit) {
                let r = lemma_more_items_viable(s, j, depth, limit, at, msg);
            }
            lemma_more_items_agree(s, t, m, j, depth, limit);
            lemma_value_agrees(s, t, m, i, depth, limit);
        },
    }
}

proof fn lemma_more_items_agree(s: Seq<u8>, t: Seq<u8>, m: int, i: int, depth: int, limit: int)
    requires
        agree(s, t, m),
        0 <= i <= s.len(),
        0 <= depth <= limit,
        settled(more_items(s, i, depth, limit), s, m),
        more_items(s, i, depth, limit) matches Ok((ts, close)) ==> close < m,
    ensures
        more_items(t, i, depth, limit) == more_items(s, i, depth, limit),
    decreases s.len() - i, 2int,
{
    lemma_skip_space(s, i);
    let p = skip_space(s, i);
    if p < s.len() && s[p] == 0x2C {
        lemma_items(s, p + 1, depth, limit);
        assert(last_mark(s, p + 1) == 0x2C);
        if let Err(Fault::Syntax { at, msg }) = items(s, p + 1, depth, limit) {
            let r = lemma_items_viable(s, p + 1, depth, limit, at, msg);
        }
        lemma_items_agree(s, t, m, p + 1, depth, limit);
    }
    assert(p < m);
    lemma_space_agrees(s, t, m, i);
    assert(s[p] == t[p]);
}

proof fn lemma_key_agrees(s: Seq<u8>, t: Seq<u8>, m: int, p: int)
    requires
        agree(s, t, m),
        0 <= p < s.len(),
        settled(key(s, p), s, m),
        key(s, p) matches Ok((place, v)) ==> v <= m,
    ensures
        key(t, p) == key(s, p),
{
    lemma_string_rest(s, p + 1);
    lemma_fault_bound(s, p + 1);
    match string_rest(s, p + 1) {
        Err(_) => {
            lemma_string_agrees(s, t, m, p + 1);
        },
        Ok(end) => {
            lemma_skip_space(s, end);
            let colon = skip_space(s, end);
            assert(colon < m);
            lemma_string_agrees(s, t, m, p + 1);
            lemma_space_agrees(s, t, m, end);
            assert(s[colon] == t[colon]);
        },
    }
}

#[verifier::spinoff_prover]
#[verifier::rlimit(40)]
proof fn lemma_first_member_agrees(s: Seq<u8>, t: Seq<u8>, m: int, i: int, depth: int, limit: int)
    requires
        agree(s, t, m),
        0 <= i <= s.len(),
        0 <= depth <= limit,
        settled(first_member(s, i, depth, limit), s, m),
        first_member(s, i, depth, limit) matches Ok((ms, close)) ==> close < m,
    ensures
        first_member(t, i, depth, limit) == first_member(s, i, depth, limit),
    decreases s.len() - i, 5int,
{
    lemma_skip_space(s, i);
    let p = skip_space(s, i);
    if p < s.len() && s[p] == 0x22 {
        lemma_members(s, p, depth, limit);
        if let Err(Fault::Syntax { at, msg }) = members(s, p, depth, limit) {
            let r = lemma_members_viable(s, p, depth, limit, at, msg);
        }
        lemma_members_agree(s, t, m, p, depth, limit);
    }
    assert(p < m);
    lemma_space_agrees(s, t, m, i);
    assert(s[p] == t[p]);
}

#[verifier::spinoff_prover]
#[verifier::rlimit(40)]
proof fn lemma_members_agree(s: Seq<u8>, t: Seq<u8>, m: int, p: int, depth: int, limit: int)
    requires
        agree(s, t, m),
        0 <= p < s.len(),
        s[p] == 0x22,
        0 <= depth <= limit,
        settled(members(s, p, depth, limit), s, m),
        members(s, p, depth, limit) matches Ok((ms, close)) ==> close < m,
    ensures
        members(t, p, depth, limit) == members(s, p, depth, limit),
    decreases s.len() - p, 4int,
{
    lemma_key(s, p);
    match key(s, p) {
        Err(_) => {
            lemma_key_agrees(s, t, m, p);
        },
        Ok((place, v)) => {
            lemma_value(s, v, depth, limit);
            lemma_value_fault(s, v, depth, limit);
            lemma_skip_space(s, v);
            match value(s, v, depth, limit) {
                Err(_) => {
                    assert(v <= m);
                    lemma_key_agrees(s, t, m, p);
                    lemma_value_agrees(s, t, m, v, depth, limit);
                },
                Ok((first, j)) => {
                    lemma_more_members(s, j, depth, limit);
                    lemma_value_end(s, v, depth, limit);
                    if let Err(Fault::Syntax { at, msg }) = more_members(s, j, depth, limit) {
                        let r = lemma_more_members_viable(s, j, depth, limit, at, msg);
                    }
                            lemma_skip_space(s, j);
                    lemma_more_members_agree(s, t, m, j, depth, limit);
                    lemma_value_agrees(s, t, m, v, depth, limit);
                    lemma_key_agrees(s, t, m, p);
                },
            }
        },
    }
}

#[verifier::spinoff_prover]
#[verifier::rlimit(40)]
proof fn lemma_more_members_agree(s: Seq<u8>, t: Seq<u8>, m: int, i: int, depth: int, limit: int)
    requires
        agree(s, t, m),
        0 <= i <= s.len(),
        0 <= depth <= limit,
        settled(more_members(s, i, depth, limit), s, m),
        more_members(s, i, depth, limit) matches Ok((ms, close)) ==> close < m,
    ensures
        more_members(t, i, depth, limit) == more_members(s, i, depth, limit),
    decreases s.len() - i, 2int,
{
    lemma_skip_space(s, i);
    let p = skip_space(s, i);
    if p < s.len() && s[p] == 0x2C {
        lemma_skip_space(s, p + 1);
        let q = skip_space(s, p + 1);
        if q < s.len() && s[q] == 0x22 {
            lemma_members(s, q, depth, limit);
            if let Err(Fault::Syntax { at, msg }) = members(s, q, depth, limit) {
                let r = lemma_members_viable(s, q, depth, limit, at, msg);
            }
            lemma_members_agree(s, t, m, q, depth, limit);
        }
        assert(q < m);
        lemma_space_agrees(s, t, m, p + 1);
        assert(s[q] == t[q]);
    }
    assert(p < m);
    lemma_space_agrees(s, t, m, i);
    assert(s[p] == t[p]);
}

/// What stands at the offset of a refusal is wrong whatever follows: a text that has the same
/// bytes up to it and at it (the next too if a zero stands there, the next three or four if a
/// literal begins there) is refused alike, and is no JSON.
pub proof fn law_text_at_the_offset_is_wrong(
    s: Seq<u8>,
    limit: int,
    at: int,
    msg: Seq<char>,
    t: Seq<u8>,
)
    requires
        0 <= limit,
        document(s, limit) == Err::<Tree, Fault>(Fault::Syntax { at, msg }),
        at < s.len(),
        agree(s, t, at + telling(s, at)),
    ensures
        document(t, limit) == document(s, limit),
        forall|j: Json| !#[trigger] spells(t, j),
{
    let m = at + telling(s, at);
    law_text_before_the_offset_is_in_order(s, limit, at, msg);
    match value(s, 0, 0, limit) {
        Err(_) => {
            lemma_value_agrees(s, t, m, 0, 0, limit);
        },
        Ok((tree, end)) => {
            lemma_value(s, 0, 0, limit);
            lemma_skip_space(s, end);
            lemma_value_agrees(s, t, m, 0, 0, limit);
            lemma_space_agrees(s, t, m, end);
            assert(s[at] == t[at]);
        },
    }
    assert forall|j: Json| !#[trigger] spells(t, j) by {
        if spells(t, j) {
            law_json_is_read(t, j, limit);
        }
    }
}

} // verus!
