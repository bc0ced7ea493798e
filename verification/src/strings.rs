//! JSON strings: what a string body says, and its canonical spelling.
//!
//! A body is read unit by unit: a literal byte, a short escape, a `\u` escape, or two `\u`
//! escapes that form a surrogate pair. A string that holds an unpaired surrogate has no text;
//! two such strings mean the same exactly when their bodies are the same bytes.

use crate::ascii::{
    BACKSLASH, BACKSPACE, CR, FORM_FEED, LF, LOWER_B, LOWER_F, LOWER_N, LOWER_R, LOWER_T, LOWER_U,
    QUOTE, SLASH, TAB,
};
use crate::grammar::{
    hex_digits, is_digit, is_hex, is_short_escape, lemma_string_char, lemma_string_rest,
    string_char, string_rest, Fault,
};
use vstd::prelude::*;
use vstd::utf8::encode_scalar;

verus! {

/// One unit of a string body.
pub enum Unit {
    /// A byte that stands for itself.
    Literal(u8),
    /// A backslash and one of `" \ / b f n r t`.
    Short(u8),
    /// A `\u` escape of a code point that is no surrogate.
    Scalar(int),
    /// Two `\u` escapes, high surrogate and low surrogate: the scalar they form.
    Pair(int),
    /// A `\u` escape of a surrogate without its other half.
    Lone,
    /// A backslash that starts no escape.
    Bare,
    /// A `\u` without four hexadecimal digits.
    BareU,
}

/// The value of a hexadecimal digit.
pub open spec fn hex_value(b: u8) -> int {
    if is_digit(b) {
        b - 0x30
    } else if 0x61 <= b <= 0x66 {
        b - 0x61 + 10
    } else {
        b - 0x41 + 10
    }
}

/// The number that four hexadecimal digits at offset `k` stand for.
pub open spec fn hex4(t: Seq<u8>, k: int) -> Option<int> {
    if 0 <= k && k + 4 <= t.len() && is_hex(t[k]) && is_hex(t[k + 1]) && is_hex(t[k + 2]) && is_hex(
        t[k + 3],
    ) {
        Some(
            0x1000 * hex_value(t[k]) + 0x100 * hex_value(t[k + 1]) + 0x10 * hex_value(t[k + 2])
                + hex_value(t[k + 3]),
        )
    } else {
        None
    }
}

pub open spec fn surrogate(cp: int) -> bool {
    0xD800 <= cp <= 0xDFFF
}

pub open spec fn high_surrogate(cp: int) -> bool {
    0xD800 <= cp <= 0xDBFF
}

pub open spec fn low_surrogate(cp: int) -> bool {
    0xDC00 <= cp <= 0xDFFF
}

/// The scalar of a surrogate pair.
pub open spec fn pair_scalar(high: int, low: int) -> int {
    0x1_0000 + (high - 0xD800) * 0x400 + (low - 0xDC00)
}

/// The scalar that the escape of `high` at offset 0 forms with the escape at offset 6.
pub open spec fn paired(t: Seq<u8>, high: int) -> Option<int> {
    if high_surrogate(high) && t.len() > 7 && t[6] == BACKSLASH && t[7] == LOWER_U {
        match hex4(t, 8) {
            Some(low) => if low_surrogate(low) {
                Some(pair_scalar(high, low))
            } else {
                None
            },
            None => None,
        }
    } else {
        None
    }
}

/// The `\u` escape that opens `t`.
pub open spec fn unicode_head(t: Seq<u8>) -> Unit {
    match hex4(t, 2) {
        None => Unit::BareU,
        Some(cp) => match paired(t, cp) {
            Some(scalar) => Unit::Pair(scalar),
            None => if surrogate(cp) {
                Unit::Lone
            } else {
                Unit::Scalar(cp)
            },
        },
    }
}

/// The first unit of a body that is not empty.
pub open spec fn head(t: Seq<u8>) -> Unit {
    if t[0] != BACKSLASH {
        Unit::Literal(t[0])
    } else if t.len() < 2 {
        Unit::Bare
    } else if is_short_escape(t[1]) {
        Unit::Short(t[1])
    } else if t[1] == LOWER_U {
        unicode_head(t)
    } else {
        Unit::Bare
    }
}

/// How many bytes a unit takes.
pub open spec fn width(u: Unit) -> int {
    match u {
        Unit::Literal(_) => 1,
        Unit::Short(_) => 2,
        Unit::Scalar(_) => 6,
        Unit::Pair(_) => 12,
        Unit::Lone => 6,
        Unit::Bare => 1,
        Unit::BareU => 2,
    }
}

/// What is left of a body after its first unit.
pub open spec fn tail(t: Seq<u8>) -> Seq<u8> {
    t.skip(width(head(t)))
}

pub proof fn lemma_tail(t: Seq<u8>)
    requires
        t.len() > 0,
    ensures
        1 <= width(head(t)) <= t.len(),
        tail(t).len() == t.len() - width(head(t)),
{
}

/// Whether a body holds an unpaired surrogate.
pub open spec fn lone(t: Seq<u8>) -> bool
    decreases t.len(),
{
    if t.len() == 0 {
        false
    } else {
        head(t) is Lone || lone(tail(t))
    }
}

/// A number below sixteen as a lower-case hexadecimal digit.
pub open spec fn hex_digit(n: int) -> u8 {
    if n < 10 {
        (0x30 + n) as u8
    } else {
        (0x61 + n - 10) as u8
    }
}

/// A number below 65536 as four lower-case hexadecimal digits.
pub open spec fn hex4_text(n: int) -> Seq<u8> {
    seq![
        hex_digit(n / 0x1000 % 16),
        hex_digit(n / 0x100 % 16),
        hex_digit(n / 0x10 % 16),
        hex_digit(n % 16),
    ]
}

/// The canonical spelling of a code point that is no surrogate: the two reserved characters
/// and the controls as their shortest escapes, anything else as itself.
pub open spec fn scalar_text(cp: int) -> Seq<u8> {
    if cp == 0x08 {
        seq![BACKSLASH, LOWER_B]
    } else if cp == 0x09 {
        seq![BACKSLASH, LOWER_T]
    } else if cp == 0x0A {
        seq![BACKSLASH, LOWER_N]
    } else if cp == 0x0C {
        seq![BACKSLASH, LOWER_F]
    } else if cp == 0x0D {
        seq![BACKSLASH, LOWER_R]
    } else if cp == 0x22 {
        seq![BACKSLASH, QUOTE]
    } else if cp == 0x5C {
        seq![BACKSLASH, BACKSLASH]
    } else if cp < 0x20 {
        seq![BACKSLASH, LOWER_U] + hex4_text(cp)
    } else {
        encode_scalar(cp as u32)
    }
}

/// The canonical spelling of the first unit of a body.
pub open spec fn head_text(t: Seq<u8>) -> Seq<u8> {
    match head(t) {
        Unit::Literal(b) => seq![b],
        Unit::Short(b) => if b == SLASH {
            seq![SLASH]
        } else {
            seq![BACKSLASH, b]
        },
        Unit::Scalar(cp) => scalar_text(cp),
        Unit::Pair(scalar) => encode_scalar(scalar as u32),
        Unit::Lone => t.subrange(0, 6),
        Unit::Bare => seq![BACKSLASH],
        Unit::BareU => seq![BACKSLASH, LOWER_U],
    }
}

/// The canonical spelling of a body, unit by unit.
pub open spec fn canonical_body(t: Seq<u8>) -> Seq<u8>
    decreases t.len(),
{
    if t.len() == 0 {
        Seq::empty()
    } else {
        head_text(t) + canonical_body(tail(t))
    }
}

/// Whether a lexeme is bytes between two quotes.
pub open spec fn quoted(lexeme: Seq<u8>) -> bool {
    lexeme.len() >= 2 && lexeme[0] == QUOTE && lexeme.last() == QUOTE
}

/// The body of a quoted lexeme.
pub open spec fn body(lexeme: Seq<u8>) -> Seq<u8> {
    lexeme.subrange(1, lexeme.len() - 1)
}

/// A body between quotes.
pub open spec fn quote(t: Seq<u8>) -> Seq<u8> {
    seq![QUOTE] + t + seq![QUOTE]
}

/// The canonical spelling of a string lexeme. A string with an unpaired surrogate has no
/// other spelling, and what is not quoted is no string: both stay as they are.
pub open spec fn canonical(lexeme: Seq<u8>) -> Seq<u8> {
    if !quoted(lexeme) || lone(body(lexeme)) {
        lexeme
    } else {
        quote(canonical_body(body(lexeme)))
    }
}

/// What a string says.
#[verifier::ext_equal]
pub enum StringValue {
    /// The text, as UTF-8.
    Text(Seq<u8>),
    /// The body of a string that has no text.
    Raw(Seq<u8>),
}

/// The byte that a short escape stands for.
pub open spec fn short_value(b: u8) -> u8 {
    if b == LOWER_B {
        BACKSPACE
    } else if b == LOWER_F {
        FORM_FEED
    } else if b == LOWER_N {
        LF
    } else if b == LOWER_R {
        CR
    } else if b == LOWER_T {
        TAB
    } else {
        b
    }
}

/// The text that a unit stands for.
pub open spec fn unit_value(u: Unit) -> Seq<u8> {
    match u {
        Unit::Literal(b) => seq![b],
        Unit::Short(b) => seq![short_value(b)],
        Unit::Scalar(cp) => encode_scalar(cp as u32),
        Unit::Pair(scalar) => encode_scalar(scalar as u32),
        _ => Seq::empty(),
    }
}

/// The text of a body without unpaired surrogates.
pub open spec fn unescaped(t: Seq<u8>) -> Seq<u8>
    decreases t.len(),
{
    if t.len() == 0 {
        Seq::empty()
    } else {
        unit_value(head(t)) + unescaped(tail(t))
    }
}

/// What a string lexeme says.
pub open spec fn string_value(lexeme: Seq<u8>) -> StringValue {
    if lone(body(lexeme)) {
        StringValue::Raw(body(lexeme))
    } else {
        StringValue::Text(unescaped(body(lexeme)))
    }
}

/// Whether a unit may stand in a JSON string.
pub open spec fn sound_unit(u: Unit) -> bool {
    match u {
        Unit::Literal(b) => b != QUOTE && b > 0x1F,
        Unit::Bare | Unit::BareU => false,
        _ => true,
    }
}

/// Whether a body may stand between quotes.
pub open spec fn sound(t: Seq<u8>) -> bool
    decreases t.len(),
{
    t.len() == 0 || (sound_unit(head(t)) && sound(tail(t)))
}

/// Whether bytes are a JSON string lexeme.
pub open spec fn string_lexeme(lexeme: Seq<u8>) -> bool {
    quoted(lexeme) && sound(body(lexeme))
}

// ---------------------------------------------------------------------------
// Strings of the grammar
// ---------------------------------------------------------------------------

/// The body of a string that the grammar reads is sound.
pub proof fn lemma_string_rest_sound(s: Seq<u8>, i: int, end: int)
    requires
        0 <= i <= s.len(),
        string_rest(s, i) == Ok::<int, Fault>(end),
    ensures
        i < end <= s.len(),
        s[end - 1] == QUOTE,
        sound(s.subrange(i, end - 1)),
    decreases s.len() - i,
{
    lemma_string_rest(s, i);
    let t = s.subrange(i, end - 1);
    if s[i] == QUOTE {
        assert(t.len() == 0);
    } else {
        lemma_string_char(s, i);
        let j = string_char(s, i)->Ok_0;
        lemma_string_rest_sound(s, j, end);
        let rest = s.subrange(j, end - 1);
        assert(t.skip(j - i) =~= rest);
        assert(t[0] == s[i]);
        if s[i] == BACKSLASH {
            assert(t.len() >= 2 && t[1] == s[i + 1]);
            if !is_short_escape(s[i + 1]) {
                reveal_with_fuel(hex_digits, 5);
                assert(j == i + 6);
                assert(t[2] == s[i + 2] && t[3] == s[i + 3] && t[4] == s[i + 4] && t[5] == s[i + 5]);
                let cp = hex4(t, 2)->0;
                if let Some(scalar) = paired(t, cp) {
                    assert(rest[0] == t[6] && rest[1] == t[7]);
                    assert(rest[2] == t[8] && rest[3] == t[9] && rest[4] == t[10] && rest[5]
                        == t[11]);
                    assert(hex4(rest, 2) == hex4(t, 8));
                    assert(head(rest) is Lone);
                    assert(rest.skip(6) =~= t.skip(12));
                }
            }
        }
    }
}

/// The grammar reads a sound body between quotes to its closing quote, whatever surrounds it.
pub proof fn lemma_sound_string_rest(s: Seq<u8>, i: int, t: Seq<u8>)
    requires
        0 <= i,
        i + t.len() < s.len(),
        s.subrange(i, i + t.len()) == t,
        s[i + t.len()] == QUOTE,
        sound(t),
    ensures
        string_rest(s, i) == Ok::<int, Fault>(i + t.len() + 1),
    decreases t.len(),
{
    if t.len() > 0 {
        lemma_tail(t);
        let w = width(head(t));
        let rest = tail(t);
        assert(forall|k: int| 0 <= k < t.len() ==> t[k] == s[i + k]) by {
            assert forall|k: int| 0 <= k < t.len() implies t[k] == s[i + k] by {
                assert(t[k] == s.subrange(i, i + t.len())[k]);
            }
        }
        assert(s.subrange(i + w, i + w + rest.len()) =~= rest);
        lemma_sound_string_rest(s, i + w, rest);
        match head(t) {
            Unit::Literal(b) => {},
            Unit::Short(b) => {},
            Unit::Pair(scalar) => {
                reveal_with_fuel(hex_digits, 5);
                assert(t[2] == s[i + 2] && t[3] == s[i + 3] && t[4] == s[i + 4] && t[5] == s[i + 5]);
                assert(string_char(s, i) == Ok::<int, Fault>(i + 6));
                assert(t[6] == s[i + 6] && t[7] == s[i + 7]);
                assert(t[8] == s[i + 8] && t[9] == s[i + 9] && t[10] == s[i + 10] && t[11] == s[i
                    + 11]);
                assert(string_char(s, i + 6) == Ok::<int, Fault>(i + 12));
                assert(string_rest(s, i + 6) == string_rest(s, i + 12));
            },
            _ => {
                reveal_with_fuel(hex_digits, 5);
                assert(t[2] == s[i + 2] && t[3] == s[i + 3] && t[4] == s[i + 4] && t[5] == s[i + 5]);
                assert(string_char(s, i) == Ok::<int, Fault>(i + 6));
            },
        }
    }
}

// ---------------------------------------------------------------------------
// Canonical spelling
// ---------------------------------------------------------------------------

/// Bytes that may stand literally in a string.
pub open spec fn plain(o: Seq<u8>) -> bool {
    forall|k: int| 0 <= k < o.len() ==> #[trigger] o[k] != BACKSLASH && o[k] != QUOTE && o[k] > 0x1F
}

/// Literal bytes in front of a body are read as themselves.
pub proof fn lemma_plain_prefix(o: Seq<u8>, r: Seq<u8>)
    requires
        plain(o),
    ensures
        sound(o + r) == sound(r),
        lone(o + r) == lone(r),
        unescaped(o + r) == o + unescaped(r),
        canonical_body(o + r) == o + canonical_body(r),
    decreases o.len(),
{
    if o.len() == 0 {
        assert(o + r =~= r);
        assert(o + unescaped(r) =~= unescaped(r));
        assert(o + canonical_body(r) =~= canonical_body(r));
    } else {
        let rest = o.drop_first();
        lemma_plain_prefix(rest, r);
        assert(head(o + r) == Unit::Literal(o[0]));
        assert(tail(o + r) =~= rest + r);
        assert(seq![o[0]] + (rest + unescaped(r)) =~= o + unescaped(r));
        assert(seq![o[0]] + (rest + canonical_body(r)) =~= o + canonical_body(r));
    }
}

/// A short escape in front of a body is read as one unit.
proof fn lemma_short_prefix(b: u8, r: Seq<u8>)
    requires
        is_short_escape(b),
    ensures
        ({
            let t = seq![BACKSLASH, b] + r;
            &&& head(t) == Unit::Short(b)
            &&& tail(t) == r
        }),
{
    assert(tail(seq![BACKSLASH, b] + r) =~= r);
}

/// The `\u` escape of a control character in front of a body is read as one unit.
proof fn lemma_control_prefix(cp: int, r: Seq<u8>)
    requires
        0 <= cp < 0x20,
    ensures
        ({
            let t = seq![BACKSLASH, LOWER_U] + hex4_text(cp) + r;
            &&& head(t) == Unit::Scalar(cp)
            &&& tail(t) == r
        }),
{
    let t = seq![BACKSLASH, LOWER_U] + hex4_text(cp) + r;
    assert(t[2] == 0x30);
    assert(t[3] == 0x30);
    assert(t[4] == hex_digit(cp / 0x10 % 16));
    assert(t[5] == hex_digit(cp % 16));
    assert(hex4(t, 2) == Some(cp));
    assert(t.skip(6) =~= r);
}

/// The bytes of a scalar past ASCII may stand literally in a string.
pub proof fn lemma_scalar_plain(scalar: u32)
    requires
        vstd::utf8::is_scalar(scalar),
        scalar >= 0x20,
        scalar != 0x22,
        scalar != 0x5C,
    ensures
        plain(encode_scalar(scalar)),
{
    assert(scalar <= 0x7F ==> (scalar & 0x7F) as u8 == scalar) by (bit_vector);
    let a = ((scalar >> 6) & 0x1F) as u8;
    let b = ((scalar >> 12) & 0x0F) as u8;
    let c = ((scalar >> 18) & 0x7) as u8;
    let d = (scalar & 0x3F) as u8;
    let e = ((scalar >> 6) & 0x3F) as u8;
    let f = ((scalar >> 12) & 0x3F) as u8;
    assert((0xC0u8 | a) >= 0x80 && (0xE0u8 | b) >= 0x80 && (0xF0u8 | c) >= 0x80 && (0x80u8 | d)
        >= 0x80 && (0x80u8 | e) >= 0x80 && (0x80u8 | f) >= 0x80) by (bit_vector);
}

/// The scalar of an ASCII character is encoded as the one byte.
pub proof fn lemma_encode_low(cp: int)
    requires
        0 <= cp < 0x80,
    ensures
        encode_scalar(cp as u32) == seq![cp as u8],
{
    let v = cp as u32;
    assert(v < 0x80 ==> (v & 0x7F) as u8 == v) by (bit_vector);
    assert(encode_scalar(v) =~= seq![cp as u8]);
}

pub proof fn lemma_hex4_bound(t: Seq<u8>, k: int)
    ensures
        hex4(t, k) matches Some(cp) ==> 0 <= cp <= 0xFFFF,
{
}

/// The canonical spelling of a sound unit, in front of any body, says what the unit says and
/// is its own canonical spelling.
proof fn lemma_head_text(t: Seq<u8>, r: Seq<u8>)
    requires
        t.len() > 0,
        sound_unit(head(t)),
        !(head(t) is Lone),
    ensures
        ({
            let o = head_text(t) + r;
            &&& sound(o) == sound(r)
            &&& lone(o) == lone(r)
            &&& unescaped(o) == unit_value(head(t)) + unescaped(r)
            &&& canonical_body(o) == head_text(t) + canonical_body(r)
        }),
{
    let o = head_text(t) + r;
    lemma_hex4_bound(t, 2);
    lemma_hex4_bound(t, 8);
    match head(t) {
        Unit::Literal(b) => {
            lemma_plain_prefix(seq![b], r);
        },
        Unit::Short(b) => {
            if b == SLASH {
                lemma_plain_prefix(seq![SLASH], r);
            } else {
                lemma_short_prefix(b, r);
            }
        },
        Unit::Scalar(cp) => {
            if cp < 0x80 {
                lemma_encode_low(cp);
            }
            if cp == 0x08 {
                lemma_short_prefix(LOWER_B, r);
            } else if cp == 0x09 {
                lemma_short_prefix(LOWER_T, r);
            } else if cp == 0x0A {
                lemma_short_prefix(LOWER_N, r);
            } else if cp == 0x0C {
                lemma_short_prefix(LOWER_F, r);
            } else if cp == 0x0D {
                lemma_short_prefix(LOWER_R, r);
            } else if cp == 0x22 {
                lemma_short_prefix(QUOTE, r);
            } else if cp == 0x5C {
                lemma_short_prefix(BACKSLASH, r);
            } else if cp < 0x20 {
                lemma_control_prefix(cp, r);
            } else {
                lemma_scalar_plain(cp as u32);
                lemma_plain_prefix(encode_scalar(cp as u32), r);
            }
        },
        Unit::Pair(scalar) => {
            assert(0x1_0000 <= scalar <= 0x10_FFFF);
            lemma_scalar_plain(scalar as u32);
            lemma_plain_prefix(encode_scalar(scalar as u32), r);
        },
        _ => {},
    }
}

/// Canonicalizing a sound body keeps what it says, and does nothing the second time.
pub proof fn lemma_canonical_body(t: Seq<u8>)
    requires
        sound(t),
        !lone(t),
    ensures
        sound(canonical_body(t)),
        !lone(canonical_body(t)),
        unescaped(canonical_body(t)) == unescaped(t),
        canonical_body(canonical_body(t)) == canonical_body(t),
    decreases t.len(),
{
    if t.len() > 0 {
        lemma_tail(t);
        lemma_canonical_body(tail(t));
        lemma_head_text(t, canonical_body(tail(t)));
    }
}

/// The canonical spelling of a string is a string that says the same, and it is its own
/// canonical spelling.
pub proof fn law_canonical_keeps_meaning(lexeme: Seq<u8>)
    requires
        string_lexeme(lexeme),
    ensures
        string_lexeme(canonical(lexeme)),
        string_value(canonical(lexeme)) == string_value(lexeme),
        canonical(canonical(lexeme)) == canonical(lexeme),
{
    let t = body(lexeme);
    if !lone(t) {
        lemma_canonical_body(t);
        assert(body(quote(canonical_body(t))) =~= canonical_body(t));
    }
}

/// The canonical spelling of a byte of text.
spec fn byte_text(b: u8) -> Seq<u8> {
    if b < 0x20 || b == QUOTE || b == BACKSLASH {
        scalar_text(b as int)
    } else {
        seq![b]
    }
}

/// The canonical spelling of a text, byte by byte.
spec fn respelled(text: Seq<u8>) -> Seq<u8>
    decreases text.len(),
{
    if text.len() == 0 {
        Seq::empty()
    } else {
        byte_text(text[0]) + respelled(text.drop_first())
    }
}

proof fn lemma_respelled_concat(a: Seq<u8>, b: Seq<u8>)
    ensures
        respelled(a + b) == respelled(a) + respelled(b),
    decreases a.len(),
{
    if a.len() == 0 {
        assert(a + b =~= b);
        assert(respelled(a) + respelled(b) =~= respelled(b));
    } else {
        assert((a + b).drop_first() =~= a.drop_first() + b);
        lemma_respelled_concat(a.drop_first(), b);
        assert(byte_text(a[0]) + (respelled(a.drop_first()) + respelled(b)) =~= byte_text(a[0])
            + respelled(a.drop_first()) + respelled(b));
    }
}

proof fn lemma_respelled_plain(o: Seq<u8>)
    requires
        plain(o),
    ensures
        respelled(o) == o,
    decreases o.len(),
{
    if o.len() > 0 {
        lemma_respelled_plain(o.drop_first());
        assert(seq![o[0]] + o.drop_first() =~= o);
    }
}

proof fn lemma_respelled_byte(b: u8)
    ensures
        respelled(seq![b]) == byte_text(b),
{
    assert(seq![b].drop_first() =~= Seq::empty());
    assert(respelled(Seq::<u8>::empty()) =~= Seq::empty());
    assert(byte_text(b) + Seq::<u8>::empty() =~= byte_text(b));
}

/// The canonical spelling of a sound body depends on its text alone.
proof fn lemma_canonical_respells(t: Seq<u8>)
    requires
        sound(t),
        !lone(t),
    ensures
        canonical_body(t) == respelled(unescaped(t)),
    decreases t.len(),
{
    if t.len() > 0 {
        lemma_tail(t);
        lemma_canonical_respells(tail(t));
        lemma_respelled_concat(unit_value(head(t)), unescaped(tail(t)));
        lemma_hex4_bound(t, 2);
        lemma_hex4_bound(t, 8);
        match head(t) {
            Unit::Literal(b) => {
                lemma_respelled_byte(b);
            },
            Unit::Short(b) => {
                lemma_respelled_byte(short_value(b));
            },
            Unit::Scalar(cp) => {
                if cp < 0x80 {
                    lemma_encode_low(cp);
                    lemma_respelled_byte(cp as u8);
                } else {
                    lemma_scalar_plain(cp as u32);
                    lemma_respelled_plain(encode_scalar(cp as u32));
                }
            },
            Unit::Pair(scalar) => {
                assert(0x1_0000 <= scalar <= 0x10_FFFF);
                lemma_scalar_plain(scalar as u32);
                lemma_respelled_plain(encode_scalar(scalar as u32));
            },
            _ => {},
        }
    }
}

/// Strings that say the same have the same canonical spelling.
pub proof fn law_one_canonical_spelling(a: Seq<u8>, b: Seq<u8>)
    requires
        string_lexeme(a),
        string_lexeme(b),
        string_value(a) == string_value(b),
    ensures
        canonical(a) == canonical(b),
{
    if lone(body(a)) {
        assert(a =~= quote(body(a)));
        assert(b =~= quote(body(b)));
    } else {
        lemma_canonical_respells(body(a));
        lemma_canonical_respells(body(b));
    }
}

// ---------------------------------------------------------------------------
// What the characters of a string say
// ---------------------------------------------------------------------------

/// A byte that is no quote, no backslash and no control says itself.
pub proof fn law_byte_says_itself(b: u8, t: Seq<u8>)
    requires
        b >= 0x20,
        b != 0x22,
        b != 0x5C,
    ensures
        unescaped(seq![b] + t) == seq![b] + unescaped(t),
        lone(seq![b] + t) == lone(t),
{
    lemma_plain_prefix(seq![b], t);
}

/// The byte that a backslash and a letter or mark stand for.
pub open spec fn short_escape_says(b: u8) -> u8 {
    if b == 0x62 {
        0x08
    } else if b == 0x74 {
        0x09
    } else if b == 0x6E {
        0x0A
    } else if b == 0x66 {
        0x0C
    } else if b == 0x72 {
        0x0D
    } else {
        b
    }
}

/// A backslash and one of `b t n f r` says a control, and one and a quote, a backslash or a
/// slash says the latter.
pub proof fn law_short_escape_says(b: u8, t: Seq<u8>)
    requires
        b == 0x22 || b == 0x5C || b == 0x2F || b == 0x62 || b == 0x66 || b == 0x6E || b == 0x72 || b
            == 0x74,
    ensures
        unescaped(seq![0x5Cu8, b] + t) == seq![short_escape_says(b)] + unescaped(t),
        lone(seq![0x5Cu8, b] + t) == lone(t),
{
    lemma_short_prefix(b, t);
}

/// The value of a hexadecimal digit, in either case.
pub open spec fn digit_says(b: u8) -> int {
    if 0x30 <= b <= 0x39 {
        b - 0x30
    } else if 0x41 <= b <= 0x46 {
        b - 0x37
    } else {
        b - 0x57
    }
}

/// What four hexadecimal digits stand for, if they are that.
pub open spec fn digits_say(d: Seq<u8>) -> Option<int> {
    if d.len() == 4 && (forall|k: int|
        0 <= k < 4 ==> (0x30 <= #[trigger] d[k] <= 0x39 || 0x41 <= d[k] <= 0x46 || 0x61 <= d[k]
            <= 0x66)) {
        Some(
            4096 * digit_says(d[0]) + 256 * digit_says(d[1]) + 16 * digit_says(d[2]) + digit_says(
                d[3],
            ),
        )
    } else {
        None
    }
}

proof fn lemma_escape(d: Seq<u8>, t: Seq<u8>)
    requires
        digits_say(d) is Some,
    ensures
        hex4(seq![0x5Cu8, 0x75] + d + t, 2) == digits_say(d),
        (seq![0x5Cu8, 0x75] + d + t).skip(6) == t,
{
    let w = seq![0x5Cu8, 0x75] + d + t;
    assert(w[2] == d[0] && w[3] == d[1] && w[4] == d[2] && w[5] == d[3]);
    assert(w.skip(6) =~= t);
}

/// A backslash, a `u` and four digits say the character with that number, if it is no
/// surrogate.
pub proof fn law_unicode_escape_says(d: Seq<u8>, t: Seq<u8>)
    requires
        digits_say(d) matches Some(n) && !(0xD800 <= n <= 0xDFFF),
    ensures
        unescaped(seq![0x5Cu8, 0x75] + d + t) == encode_scalar(digits_say(d)->0 as u32) + unescaped(
            t,
        ),
        lone(seq![0x5Cu8, 0x75] + d + t) == lone(t),
{
    let w = seq![0x5Cu8, 0x75] + d + t;
    lemma_escape(d, t);
    assert(head(w) == Unit::Scalar(digits_say(d)->0));
}

/// Two of them, the first a high surrogate and the second a low one, say the one character
/// that the pair stands for.
pub proof fn law_surrogate_pair_says(h: Seq<u8>, l: Seq<u8>, t: Seq<u8>)
    requires
        digits_say(h) matches Some(n) && 0xD800 <= n <= 0xDBFF,
        digits_say(l) matches Some(m) && 0xDC00 <= m <= 0xDFFF,
    ensures
        ({
            let w = seq![0x5Cu8, 0x75] + h + (seq![0x5Cu8, 0x75] + l + t);
            let c = 0x10000 + 0x400 * (digits_say(h)->0 - 0xD800) + (digits_say(l)->0 - 0xDC00);
            &&& unescaped(w) == encode_scalar(c as u32) + unescaped(t)
            &&& lone(w) == lone(t)
        }),
{
    let rest = seq![0x5Cu8, 0x75] + l + t;
    let w = seq![0x5Cu8, 0x75] + h + rest;
    lemma_escape(h, rest);
    lemma_escape(l, t);
    assert(w[6] == rest[0] && w[7] == rest[1] && w[8] == rest[2] && w[9] == rest[3] && w[10]
        == rest[4] && w[11] == rest[5]);
    assert(hex4(w, 8) == hex4(rest, 2));
    assert(w.skip(12) =~= t);
    assert(head(w) is Pair);
}

/// A surrogate without its other half makes a string that has no text.
pub proof fn law_unpaired_surrogate(d: Seq<u8>, t: Seq<u8>)
    requires
        digits_say(d) matches Some(n) && 0xD800 <= n <= 0xDFFF,
        digits_say(d) matches Some(n) && n <= 0xDBFF ==> !(t.len() >= 6 && t[0] == 0x5C && t[1]
            == 0x75 && (digits_say(t.subrange(2, 6)) matches Some(m) && 0xDC00 <= m <= 0xDFFF)),
    ensures
        lone(seq![0x5Cu8, 0x75] + d + t),
{
    let w = seq![0x5Cu8, 0x75] + d + t;
    lemma_escape(d, t);
    assert(t.len() > 0 ==> w[6] == t[0]);
    assert(t.len() > 1 ==> w[7] == t[1]);
    if hex4(w, 8) is Some {
        let m = t.subrange(2, 6);
        assert(w[8] == m[0] && w[9] == m[1] && w[10] == m[2] && w[11] == m[3]);
        assert(digits_say(m) == hex4(w, 8));
    }
    assert(head(w) is Lone);
}

/// The empty string says nothing.
pub proof fn law_nothing_says_nothing(t: Seq<u8>)
    requires
        t.len() == 0,
    ensures
        unescaped(t).len() == 0,
        !lone(t),
{
}

/// How a byte of text is spelled: a control as its short escape, or as `u` and four lower-case
/// digits if it has none; a quote and a backslash behind a backslash; anything else as itself.
pub open spec fn spelling(b: u8) -> Seq<u8> {
    if b == 0x08 {
        seq![0x5Cu8, 0x62]
    } else if b == 0x09 {
        seq![0x5Cu8, 0x74]
    } else if b == 0x0A {
        seq![0x5Cu8, 0x6E]
    } else if b == 0x0C {
        seq![0x5Cu8, 0x66]
    } else if b == 0x0D {
        seq![0x5Cu8, 0x72]
    } else if b == 0x22 || b == 0x5C {
        seq![0x5Cu8, b]
    } else if b < 0x10 {
        seq![
            0x5Cu8,
            0x75,
            0x30,
            0x30,
            0x30,
            if b < 10 {
                (b + 0x30) as u8
            } else {
                (b + 0x57) as u8
            },
        ]
    } else if b < 0x20 {
        seq![
            0x5Cu8,
            0x75,
            0x30,
            0x30,
            0x31,
            if b < 26 {
                (b + 0x20) as u8
            } else {
                (b + 0x47) as u8
            },
        ]
    } else {
        seq![b]
    }
}

/// A text, spelled byte by byte.
pub open spec fn spelled(text: Seq<u8>) -> Seq<u8>
    decreases text.len(),
{
    if text.len() == 0 {
        Seq::empty()
    } else {
        spelling(text[0]) + spelled(text.drop_first())
    }
}

proof fn lemma_spelled(text: Seq<u8>)
    ensures
        respelled(text) == spelled(text),
    decreases text.len(),
{
    if text.len() > 0 {
        lemma_spelled(text.drop_first());
        assert(byte_text(text[0]) =~= spelling(text[0]));
    }
}

/// The canonical spelling of a string that has a text is that text, spelled byte by byte,
/// between quotes. A string that has none stays as it is.
pub proof fn law_canonical_spells_the_text(lexeme: Seq<u8>)
    requires
        string_lexeme(lexeme),
    ensures
        !lone(body(lexeme)) ==> canonical(lexeme) == seq![0x22u8] + spelled(
            unescaped(body(lexeme)),
        ) + seq![0x22u8],
        lone(body(lexeme)) ==> canonical(lexeme) == lexeme,
{
    if !lone(body(lexeme)) {
        lemma_canonical_respells(body(lexeme));
        lemma_spelled(unescaped(body(lexeme)));
    }
}

/// What a string says is its text, or the body itself if it has none.
pub proof fn law_string_value(lexeme: Seq<u8>)
    ensures
        !lone(body(lexeme)) ==> string_value(lexeme) == StringValue::Text(unescaped(body(lexeme))),
        lone(body(lexeme)) ==> string_value(lexeme) == StringValue::Raw(body(lexeme)),
{
}

/// Whether a text goes on as an escape does behind its backslash: with one of the eight marks,
/// or with `u`.
pub open spec fn goes_on_as_escape(t: Seq<u8>) -> bool {
    t.len() > 0 && (t[0] == 0x22 || t[0] == 0x5C || t[0] == 0x2F || t[0] == 0x62 || t[0] == 0x66
        || t[0] == 0x6E || t[0] == 0x72 || t[0] == 0x74 || t[0] == 0x75)
}

/// Bytes that are no JSON string keep what does not belong: a byte that is no backslash, a
/// backslash that begins no escape, and a `u` escape without four digits stay as they are, and
/// what is not between quotes stays as a whole, as does what holds an unpaired surrogate.
pub proof fn law_other_bytes_stay(b: u8, t: Seq<u8>, lexeme: Seq<u8>)
    ensures
        b != 0x5C ==> canonical_body(seq![b] + t) == seq![b] + canonical_body(t) && lone(
            seq![b] + t,
        ) == lone(t),
        !goes_on_as_escape(t) ==> canonical_body(seq![0x5Cu8] + t) == seq![0x5Cu8] + canonical_body(
            t,
        ) && lone(seq![0x5Cu8] + t) == lone(t),
        t.len() < 4 || digits_say(t.take(4)) is None ==> canonical_body(seq![0x5Cu8, 0x75] + t)
            == seq![0x5Cu8, 0x75] + canonical_body(t) && lone(seq![0x5Cu8, 0x75] + t) == lone(t),
        !(lexeme.len() >= 2 && lexeme[0] == 0x22 && lexeme.last() == 0x22) ==> canonical(lexeme)
            == lexeme,
        lone(body(lexeme)) ==> canonical(lexeme) == lexeme,
{
    assert(tail(seq![b] + t) =~= t || b == 0x5C);
    let bare = seq![0x5Cu8] + t;
    if !goes_on_as_escape(t) {
        assert(t.len() > 0 ==> bare[1] == t[0]);
        assert(tail(bare) =~= t);
    }
    let short = seq![0x5Cu8, 0x75] + t;
    if t.len() < 4 || digits_say(t.take(4)) is None {
        if hex4(short, 2) is Some {
            let d = t.take(4);
            assert(short[2] == d[0] && short[3] == d[1] && short[4] == d[2] && short[5] == d[3]);
            assert(digits_say(d) is Some);
        }
        assert(tail(short) =~= t);
    }
}

} // verus!
