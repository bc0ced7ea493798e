//! E1: JSON minification.
//!
//! Re-emits a parsed tape with every insignificant byte removed. Member order, duplicate keys
//! and number lexemes are kept; strings are written in canonical spelling
//! ([`crate::strings::canonical`]), except that a protected string
//! ([`crate::never_compress`]) and a string with an unpaired surrogate stay as they are.
//!
//! Protection is decided on the lexeme as it is spelled: a protected phrase written with `\u`
//! escapes is canonicalized like any other string, which keeps what it says.

use crate::ascii::{
    BACKSLASH, LOWER_A, LOWER_B, LOWER_F, LOWER_N, LOWER_R, LOWER_T, LOWER_U, QUOTE, SLASH, ZERO,
};
use crate::encoder::writer::{
    lemma_written_part, lemma_written_whole, write_nodes, written, written_doc,
};
use crate::grammar::{is_hex, Tree};
use crate::json::{recordable, styled, Style};
use crate::never_compress::is_protected;
use crate::strings::{
    canonical, canonical_body, head, head_text, hex4, hex4_text, hex_digit, hex_value,
    lemma_plain_prefix, lemma_tail, lone, paired, quote, scalar_text, surrogate, tail, width,
};
use crate::tape::{is_hex_digit, tree_nodes, Tape};
use crate::text::{lemma_encode_push, push_ascii, push_str, slice_str};
use vstd::prelude::*;
use vstd::utf8::{
    encode_utf8, encode_utf8_valid_utf8, is_char_boundary,
    is_char_boundary_iff_not_is_continuation_byte, is_char_boundary_start_end_of_seq,
    valid_utf8, valid_utf8_split,
};

verus! {

/// Minify `input` from its tape, or `None` if a lexeme cannot be cut out of `input`. The
/// body carries no sentinel.
pub fn render(tape: &Tape, input: &str) -> (r: Option<String>)
    ensures
        tape@.len() == 0 ==> (r matches Some(text) && text@.len() == 0),
        forall|tree: Tree|
            recordable(tree) && tape@ == #[trigger] tree_nodes(tree, 0) ==> ({
                let wanted = written_doc(tree, encode_utf8(input@), Style::Canonical);
                match r {
                    Some(text) => wanted == Some(encode_utf8(text@)),
                    None => wanted is None,
                }
            }),
{
    let ghost s = encode_utf8(input@);
    let mut out = String::new();
    let done = write_nodes(tape.nodes(), input, &mut out, Style::Canonical);
    proof {
        assert(encode_utf8(Seq::<char>::empty()) =~= Seq::<u8>::empty());
        lemma_written_part(tape@, s, Style::Canonical, Seq::empty());
        assert forall|tree: Tree|
            recordable(tree) && tape@ == #[trigger] tree_nodes(tree, 0) implies written(
            tape@,
            s,
            Style::Canonical,
            Seq::empty(),
        ) == written_doc(tree, s, Style::Canonical) by {
            lemma_written_whole(tree, 0, s, Style::Canonical);
        }
        if let Some(text) = written(tape@, s, Style::Canonical, Seq::empty()) {
            assert(Seq::<u8>::empty() + text =~= text);
            if tape@.len() == 0 {
                crate::text::lemma_encode_injective(out@, Seq::empty());
            }
        }
    }
    if done {
        Some(out)
    } else {
        None
    }
}

/// Emit a string lexeme, quotes included: verbatim if protected, else in canonical spelling.
pub fn emit_string(lexeme: &str, out: &mut String)
    ensures
        encode_utf8(final(out)@) == encode_utf8(old(out)@) + styled(
            encode_utf8(lexeme@),
            Style::Canonical,
        ),
{
    if is_protected(lexeme).is_some() {
        push_str(out, lexeme);
    } else {
        canonicalize(lexeme, out);
    }
}

/// Re-emit a string lexeme in canonical spelling. A string with an unpaired surrogate, and
/// anything that is not quoted, is copied as it is.
pub fn canonicalize(lexeme: &str, out: &mut String)
    ensures
        encode_utf8(final(out)@) == encode_utf8(old(out)@) + canonical(encode_utf8(lexeme@)),
{
    let bytes = lexeme.as_bytes();
    let ghost l = bytes@;
    let n: usize = bytes.len();
    if n < 2 || bytes[0] != QUOTE || bytes[n - 1] != QUOTE {
        push_str(out, lexeme);
        return;
    }
    proof {
        encode_utf8_valid_utf8(lexeme@);
        lemma_ascii_boundary(l, 0);
        lemma_ascii_boundary(l, n - 1);
    }
    let inner = match slice_str(lexeme, 1, n - 1) {
        Some(inner) => inner,
        None => return,
    };
    if has_lone_surrogate(inner) {
        push_str(out, lexeme);
        return;
    }
    let ghost out0 = encode_utf8(out@);
    push_ascii(out, QUOTE);
    let ib = inner.as_bytes();
    let ghost t = ib@;
    let ghost text = out0 + seq![QUOTE] + canonical_body(t);
    let mut i: usize = 0;
    proof {
        encode_utf8_valid_utf8(inner@);
        is_char_boundary_start_end_of_seq(t);
        assert(t.skip(0) =~= t);
    }
    while i < ib.len()
        invariant
            t == ib@,
            t == encode_utf8(inner@),
            valid_utf8(t),
            i <= t.len(),
            is_char_boundary(t, i as int),
            encode_utf8(out@) + canonical_body(t.skip(i as int)) == text,
        decreases t.len() - i,
    {
        let ghost out1 = encode_utf8(out@);
        let ghost rest = t.skip(i as int);
        let b: u8 = ib[i];
        proof {
            lemma_tail(rest);
            assert(rest[0] == b);
        }
        if b == BACKSLASH {
            let next: usize = canonical_escape(inner, ib, i, out);
            proof {
                assert(tail(rest) =~= t.skip(next as int));
                assert(encode_utf8(out@) + canonical_body(t.skip(next as int)) =~= out1
                    + canonical_body(rest));
            }
            i = next;
        } else if b < 0x80 {
            push_ascii(out, b);
            proof {
                lemma_ascii_boundary(t, i as int);
                assert(tail(rest) =~= t.skip(i + 1));
                assert(encode_utf8(out@) + canonical_body(t.skip(i + 1)) =~= out1 + canonical_body(
                    rest,
                ));
            }
            i = i + 1;
        } else {
            let len: usize = utf8_len(b);
            proof {
                lemma_scalar_at(t, i as int);
            }
            match slice_str(inner, i, i + len) {
                Some(part) => {
                    push_str(out, part);
                    proof {
                        let o = t.subrange(i as int, i + len);
                        assert(rest =~= o + t.skip(i + len));
                        assert(crate::strings::plain(o));
                        lemma_plain_prefix(o, t.skip(i + len));
                        assert(encode_utf8(out@) + canonical_body(t.skip(i + len)) =~= out1
                            + canonical_body(rest));
                    }
                    i = i + len;
                },
                None => return,
            }
        }
    }
    push_ascii(out, QUOTE);
    proof {
        assert(t.skip(i as int) =~= Seq::empty());
        assert(encode_utf8(out@) =~= out0 + quote(canonical_body(t)));
    }
}

/// Both sides of an ASCII byte lie between characters.
pub proof fn lemma_ascii_boundary(s: Seq<u8>, i: int)
    requires
        valid_utf8(s),
        0 <= i < s.len(),
        s[i] < 0x80,
    ensures
        is_char_boundary(s, i),
        is_char_boundary(s, i + 1),
{
    is_char_boundary_iff_not_is_continuation_byte(s, i);
    lemma_scalar_at(s, i);
}

/// The scalar that starts at a boundary takes the bytes its first byte announces; the bytes
/// after the first are continuation bytes, and the next boundary follows.
proof fn lemma_scalar_at(s: Seq<u8>, i: int)
    requires
        valid_utf8(s),
        0 <= i < s.len(),
        is_char_boundary(s, i),
    ensures
        i + scalar_width(s[i]) <= s.len(),
        is_char_boundary(s, i + scalar_width(s[i])),
        forall|k: int| i < k < i + scalar_width(s[i]) ==> #[trigger] s[k] >= 0x80,
{
    valid_utf8_split(s, i);
    let rest = s.subrange(i, s.len() as int);
    let w = scalar_width(s[i]);
    assert(rest[0] == s[i]);
    assert(vstd::utf8::valid_first_scalar(rest));
    assert(vstd::utf8::length_of_first_scalar(rest) == w);
    assert forall|k: int| i < k < i + w implies #[trigger] s[k] >= 0x80 by {
        assert(s[k] == rest[k - i]);
    }
    if i + w == s.len() {
        is_char_boundary_start_end_of_seq(s);
    } else {
        let after = vstd::utf8::pop_first_scalar(rest);
        assert(valid_utf8(after));
        assert(after[0] == s[i + w]);
        assert(vstd::utf8::valid_first_scalar(after));
        is_char_boundary_iff_not_is_continuation_byte(s, i + w);
    }
}

/// How many bytes the UTF-8 scalar takes whose leading byte is `lead`.
pub open spec fn scalar_width(lead: u8) -> int {
    if lead >= 0xF0 {
        4
    } else if lead >= 0xE0 {
        3
    } else if lead >= 0xC0 {
        2
    } else {
        1
    }
}

/// Whether a string body contains a `\u` escape of an unpaired surrogate.
pub fn has_lone_surrogate(inner: &str) -> (found: bool)
    ensures
        found == lone(encode_utf8(inner@)),
{
    let ib = inner.as_bytes();
    let ghost t = ib@;
    let n: usize = ib.len();
    let mut i: usize = 0;
    proof {
        assert(t.skip(0) =~= t);
    }
    while i < n
        invariant
            t == ib@,
            t == encode_utf8(inner@),
            n == t.len(),
            i <= n,
            lone(t) == lone(t.skip(i as int)),
        decreases n - i,
    {
        let ghost rest = t.skip(i as int);
        proof {
            lemma_tail(rest);
            assert(rest[0] == t[i as int]);
        }
        if ib[i] != BACKSLASH {
            proof {
                assert(tail(rest) =~= t.skip(i + 1));
            }
            i = i + 1;
        } else if n - i < 2 {
            proof {
                assert(tail(rest) =~= Seq::empty());
                assert(!lone(tail(rest)));
            }
            return false;
        } else if ib[i + 1] != LOWER_U {
            proof {
                assert(rest[1] == t[i + 1]);
                let after = t.skip(i + 2);
                if head(rest) is Bare {
                    let one = t.skip(i + 1);
                    assert(tail(rest) =~= one);
                    assert(one[0] == t[i + 1]);
                    assert(tail(one) =~= after);
                    assert(lone(one) == lone(after));
                } else {
                    assert(tail(rest) =~= after);
                }
            }
            i = i + 2;
        } else {
            proof {
                assert(rest[1] == t[i + 1]);
                lemma_hex4_shift(t, i as int, 2);
            }
            match read_hex4(ib, i + 2) {
                None => {
                    proof {
                        assert(tail(rest) =~= t.skip(i + 2));
                    }
                    i = i + 2;
                },
                Some(cp) => {
                    if combine_surrogate_pair(cp, ib, i).is_some() {
                        proof {
                            assert(tail(rest) =~= t.skip(i + 12));
                        }
                        i = i + 12;
                    } else if is_surrogate(cp) {
                        return true;
                    } else {
                        proof {
                            assert(tail(rest) =~= t.skip(i + 6));
                        }
                        i = i + 6;
                    }
                },
            }
        }
    }
    proof {
        assert(t.skip(i as int) =~= Seq::empty());
    }
    false
}

/// Four hexadecimal digits are the same digits seen from further on.
proof fn lemma_hex4_shift(t: Seq<u8>, i: int, k: int)
    requires
        0 <= i <= t.len(),
        0 <= k,
    ensures
        hex4(t.skip(i), k) == hex4(t, i + k),
{
    if i + k + 4 <= t.len() {
        assert(t.skip(i)[k] == t[i + k]);
        assert(t.skip(i)[k + 1] == t[i + k + 1]);
        assert(t.skip(i)[k + 2] == t[i + k + 2]);
        assert(t.skip(i)[k + 3] == t[i + k + 3]);
    }
}

/// Canonicalize the escape at `i`, where `ib[i]` is a backslash. Returns the next index.
pub fn canonical_escape(inner: &str, ib: &[u8], i: usize, out: &mut String) -> (next: usize)
    requires
        ib@ == encode_utf8(inner@),
        i < ib@.len(),
        ib@[i as int] == BACKSLASH,
    ensures
        next == i + width(head(ib@.skip(i as int))),
        next <= ib@.len(),
        is_char_boundary(ib@, next as int),
        encode_utf8(final(out)@) == encode_utf8(old(out)@) + head_text(ib@.skip(i as int)),
{
    let ghost t = ib@;
    let ghost rest = t.skip(i as int);
    proof {
        encode_utf8_valid_utf8(inner@);
        lemma_ascii_boundary(t, i as int);
        assert(rest[0] == t[i as int]);
        if i + 1 < t.len() {
            assert(rest[1] == t[i + 1]);
        }
    }
    if ib.len() - i < 2 {
        push_ascii(out, BACKSLASH);
        return i + 1;
    }
    let e: u8 = ib[i + 1];
    if e == SLASH {
        push_ascii(out, SLASH);
        proof {
            lemma_ascii_boundary(t, i + 1);
        }
        i + 2
    } else if e == QUOTE || e == BACKSLASH || e == LOWER_B || e == LOWER_F || e == LOWER_N || e
        == LOWER_R || e == LOWER_T {
        push_escape(out, e);
        proof {
            lemma_ascii_boundary(t, i + 1);
        }
        i + 2
    } else if e == LOWER_U {
        canonical_unicode(inner, ib, i, out)
    } else {
        push_ascii(out, BACKSLASH);
        i + 1
    }
}

/// Append a backslash and an ASCII character.
fn push_escape(out: &mut String, e: u8)
    requires
        e < 0x80,
    ensures
        encode_utf8(final(out)@) == encode_utf8(old(out)@) + seq![BACKSLASH, e],
{
    push_ascii(out, BACKSLASH);
    push_ascii(out, e);
    proof {
        assert(encode_utf8(out@) =~= encode_utf8(old(out)@) + seq![BACKSLASH, e]);
    }
}

/// Canonicalize the `\u` escape at `i`, folding a surrogate pair when one follows. Returns
/// the next index.
pub fn canonical_unicode(inner: &str, ib: &[u8], i: usize, out: &mut String) -> (next: usize)
    requires
        ib@ == encode_utf8(inner@),
        i + 1 < ib@.len(),
        ib@[i as int] == BACKSLASH,
        ib@[i + 1] == LOWER_U,
    ensures
        next == i + width(head(ib@.skip(i as int))),
        next <= ib@.len(),
        is_char_boundary(ib@, next as int),
        encode_utf8(final(out)@) == encode_utf8(old(out)@) + head_text(ib@.skip(i as int)),
{
    let ghost t = ib@;
    let ghost rest = t.skip(i as int);
    let n: usize = ib.len();
    proof {
        assert(n == t.len());
        encode_utf8_valid_utf8(inner@);
        assert(rest[0] == t[i as int]);
        assert(rest[1] == t[i + 1]);
        lemma_hex4_shift(t, i as int, 2);
        lemma_hex4_shift(t, i as int, 8);
        lemma_ascii_boundary(t, i as int);
        lemma_ascii_boundary(t, i + 1);
    }
    let cp: u16 = match read_hex4(ib, i + 2) {
        None => {
            push_escape(out, LOWER_U);
            return i + 2;
        },
        Some(cp) => cp,
    };
    proof {
        lemma_ascii_boundary(t, i + 5);
    }
    if let Some(scalar) = combine_surrogate_pair(cp, ib, i) {
        proof {
            lemma_ascii_boundary(t, i + 11);
            lemma_encode_push(out@, scalar);
        }
        out.push(scalar);
        return i + 12;
    }
    if is_surrogate(cp) {
        if let Some(raw) = slice_str(inner, i, i + 6) {
            push_str(out, raw);
            proof {
                assert(rest.subrange(0, 6) =~= t.subrange(i as int, i + 6));
            }
        }
    } else {
        emit_scalar(cp, out);
    }
    i + 6
}

/// Whether `cp` is a surrogate code unit.
fn is_surrogate(cp: u16) -> (r: bool)
    ensures
        r == surrogate(cp as int),
{
    0xD800 <= cp && cp <= 0xDFFF
}

/// If `high` is a high surrogate and the escape of a low one follows at `i + 6`, the scalar
/// they form.
fn combine_surrogate_pair(high: u16, ib: &[u8], i: usize) -> (r: Option<char>)
    requires
        i + 6 <= ib@.len(),
    ensures
        match r {
            Some(c) => paired(ib@.skip(i as int), high as int) == Some(c as u32 as int) && i + 12
                <= ib@.len() && ib@[i + 11] < 0x80,
            None => paired(ib@.skip(i as int), high as int) is None,
        },
{
    let ghost t = ib@;
    let ghost rest = t.skip(i as int);
    if high < 0xD800 || high > 0xDBFF {
        return None;
    }
    if ib.len() - i < 8 {
        return None;
    }
    proof {
        assert(rest[6] == t[i + 6]);
        assert(rest[7] == t[i + 7]);
        lemma_hex4_shift(t, i as int, 8);
    }
    if ib[i + 6] != BACKSLASH || ib[i + 7] != LOWER_U {
        return None;
    }
    let low: u16 = match read_hex4(ib, i + 8) {
        None => return None,
        Some(low) => low,
    };
    if low < 0xDC00 || low > 0xDFFF {
        return None;
    }
    let scalar: u32 = 0x1_0000 + (high as u32 - 0xD800) * 0x400 + (low as u32 - 0xDC00);
    proof {
        assert(paired(rest, high as int) == Some(scalar as int));
        assert(is_hex(t[i + 11]));
    }
    char::from_u32(scalar)
}

/// Emit a code point that is no surrogate in canonical spelling.
fn emit_scalar(cp: u16, out: &mut String)
    requires
        !surrogate(cp as int),
    ensures
        encode_utf8(final(out)@) == encode_utf8(old(out)@) + scalar_text(cp as int),
{
    if cp == 0x08 {
        push_escape(out, LOWER_B);
    } else if cp == 0x09 {
        push_escape(out, LOWER_T);
    } else if cp == 0x0A {
        push_escape(out, LOWER_N);
    } else if cp == 0x0C {
        push_escape(out, LOWER_F);
    } else if cp == 0x0D {
        push_escape(out, LOWER_R);
    } else if cp == 0x22 {
        push_escape(out, QUOTE);
    } else if cp == 0x5C {
        push_escape(out, BACKSLASH);
    } else if cp < 0x20 {
        push_u_escape(cp, out);
    } else if let Some(c) = char::from_u32(cp as u32) {
        proof {
            lemma_encode_push(out@, c);
        }
        out.push(c);
    }
}

/// Write a `\u` escape with four lower-case hexadecimal digits.
fn push_u_escape(c: u16, out: &mut String)
    ensures
        encode_utf8(final(out)@) == encode_utf8(old(out)@) + (seq![BACKSLASH, LOWER_U] + hex4_text(
            c as int,
        )),
{
    push_escape(out, LOWER_U);
    push_hex4(c, out);
    proof {
        assert(encode_utf8(out@) =~= encode_utf8(old(out)@) + (seq![BACKSLASH, LOWER_U]
            + hex4_text(c as int)));
    }
}

/// Append `c` as four lower-case hexadecimal digits.
fn push_hex4(c: u16, out: &mut String)
    ensures
        encode_utf8(final(out)@) == encode_utf8(old(out)@) + hex4_text(c as int),
{
    push_hex_digit(c / 0x1000 % 16, out);
    push_hex_digit(c / 0x100 % 16, out);
    push_hex_digit(c / 0x10 % 16, out);
    push_hex_digit(c % 16, out);
    proof {
        assert(encode_utf8(out@) =~= encode_utf8(old(out)@) + hex4_text(c as int));
    }
}

/// Append a number below sixteen as a lower-case hexadecimal digit.
fn push_hex_digit(n: u16, out: &mut String)
    requires
        n < 16,
    ensures
        encode_utf8(final(out)@) == encode_utf8(old(out)@) + seq![hex_digit(n as int)],
{
    if n < 10 {
        push_ascii(out, ZERO + n as u8);
    } else {
        push_ascii(out, LOWER_A + (n - 10) as u8);
    }
}

/// Parse four hexadecimal digits at `pos`, or `None` if any is missing or not one.
fn read_hex4(ib: &[u8], pos: usize) -> (r: Option<u16>)
    requires
        pos <= ib@.len(),
    ensures
        match r {
            Some(v) => hex4(ib@, pos as int) == Some(v as int),
            None => hex4(ib@, pos as int) is None,
        },
{
    if ib.len() - pos < 4 {
        return None;
    }
    let a: u16 = match hex_val(ib[pos]) {
        None => return None,
        Some(v) => v as u16,
    };
    let b: u16 = match hex_val(ib[pos + 1]) {
        None => return None,
        Some(v) => v as u16,
    };
    let c: u16 = match hex_val(ib[pos + 2]) {
        None => return None,
        Some(v) => v as u16,
    };
    let d: u16 = match hex_val(ib[pos + 3]) {
        None => return None,
        Some(v) => v as u16,
    };
    Some(0x1000 * a + 0x100 * b + 0x10 * c + d)
}

/// The value of an ASCII hexadecimal digit, or `None`.
fn hex_val(d: u8) -> (r: Option<u8>)
    ensures
        match r {
            Some(v) => is_hex(d) && v == hex_value(d) && v < 16,
            None => !is_hex(d),
        },
{
    if !is_hex_digit(d) {
        None
    } else if d <= 0x39 {
        Some(d - 0x30)
    } else if d >= 0x61 {
        Some(d - 0x61 + 10)
    } else {
        Some(d - 0x41 + 10)
    }
}

/// Length in bytes of the UTF-8 scalar whose leading byte is `lead`.
fn utf8_len(lead: u8) -> (n: usize)
    ensures
        n == scalar_width(lead),
{
    if lead >= 0xF0 {
        4
    } else if lead >= 0xE0 {
        3
    } else if lead >= 0xC0 {
        2
    } else {
        1
    }
}

} // verus!
