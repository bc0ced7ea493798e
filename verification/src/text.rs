//! Strings, seen as their UTF-8 bytes.
//!
//! Contracts in this crate speak of a text through `encode_utf8` of its characters. This
//! module has the few operations on `str` and `String` that the encoders are built from,
//! stated that way.

use vstd::prelude::*;
use vstd::string::StringExecFns;
use vstd::utf8::{
    encode_scalar, encode_utf8, encode_utf8_decode_utf8, encode_utf8_valid_utf8,
    is_char_boundary, is_char_boundary_iff_not_is_continuation_byte,
    is_char_boundary_start_end_of_seq, valid_utf8, valid_utf8_split,
};

verus! {

/// `String::push` appends one character.
pub assume_specification[ std::string::String::push ](s: &mut std::string::String, c: char)
    ensures
        final(s)@ == old(s)@.push(c),
;

/// `char::from_u32` gives the character of a Unicode scalar value, and nothing for any other
/// number.
pub assume_specification[ char::from_u32 ](i: u32) -> (c: Option<char>)
    ensures
        match c {
            Some(ch) => ch as u32 == i,
            None => 0xD800 <= i <= 0xDFFF || i > 0x10FFFF,
        },
;

/// Whether the bytes of a text can be cut out from `start` to `end`: both lie between
/// characters.
pub open spec fn sliceable(text: Seq<u8>, start: int, end: int) -> bool {
    &&& 0 <= start <= end <= text.len()
    &&& is_char_boundary(text, start)
    &&& is_char_boundary(text, end)
}

/// Encoding goes character by character.
pub proof fn lemma_encode_concat(a: Seq<char>, b: Seq<char>)
    ensures
        encode_utf8(a + b) == encode_utf8(a) + encode_utf8(b),
    decreases a.len(),
{
    if a.len() == 0 {
        assert(a + b =~= b);
        assert(encode_utf8(a) + encode_utf8(b) =~= encode_utf8(b));
    } else {
        assert((a + b).drop_first() =~= a.drop_first() + b);
        lemma_encode_concat(a.drop_first(), b);
        assert(encode_scalar(a[0] as u32) + (encode_utf8(a.drop_first()) + encode_utf8(b))
            =~= encode_scalar(a[0] as u32) + encode_utf8(a.drop_first()) + encode_utf8(b));
    }
}

pub proof fn lemma_encode_push(a: Seq<char>, c: char)
    ensures
        encode_utf8(a.push(c)) == encode_utf8(a) + encode_scalar(c as u32),
{
    assert(a.push(c) =~= a + seq![c]);
    lemma_encode_concat(a, seq![c]);
    assert(seq![c].drop_first() =~= Seq::<char>::empty());
    assert(encode_utf8(seq![c]) =~= encode_scalar(c as u32)) by {
        assert(encode_utf8(Seq::<char>::empty()) =~= Seq::<u8>::empty());
        assert(seq![c][0] == c);
    }
}

/// Two texts with the same bytes are the same text.
pub proof fn lemma_encode_injective(a: Seq<char>, b: Seq<char>)
    requires
        encode_utf8(a) == encode_utf8(b),
    ensures
        a == b,
{
    encode_utf8_decode_utf8(a);
    encode_utf8_decode_utf8(b);
}

/// An ASCII byte is the encoding of the character with its number.
pub proof fn lemma_encode_ascii(b: u8)
    requires
        b < 0x80,
    ensures
        encode_scalar(b as char as u32) == seq![b],
{
    let v = b as u32;
    assert(b < 0x80 ==> (v & 0x7F) as u8 == b) by (bit_vector)
        requires
            v == b as u32,
    ;
    assert(encode_scalar(v) =~= seq![b]);
}

/// The part of `s` between two byte offsets, if both lie between characters.
pub fn slice_str(s: &str, start: usize, end: usize) -> (part: Option<&str>)
    ensures
        match part {
            Some(t) => sliceable(encode_utf8(s@), start as int, end as int) && encode_utf8(t@)
                == encode_utf8(s@).subrange(start as int, end as int),
            None => !sliceable(encode_utf8(s@), start as int, end as int),
        },
{
    let ghost bytes = encode_utf8(s@);
    proof {
        encode_utf8_valid_utf8(s@);
    }
    if start > end || end > s.as_bytes().len() || !s.is_char_boundary(start)
        || !s.is_char_boundary(end) {
        return None;
    }
    let (head, _) = s.split_at(end);
    proof {
        lemma_boundary_in_prefix(bytes, start as int, end as int);
    }
    let (_, part) = head.split_at(start);
    proof {
        assert(encode_utf8(part@) =~= bytes.subrange(start as int, end as int));
    }
    Some(part)
}

/// A boundary of a text is a boundary of every prefix that reaches it.
proof fn lemma_boundary_in_prefix(bytes: Seq<u8>, start: int, end: int)
    requires
        valid_utf8(bytes),
        0 <= start <= end <= bytes.len(),
        is_char_boundary(bytes, start),
        is_char_boundary(bytes, end),
    ensures
        valid_utf8(bytes.subrange(0, end)),
        is_char_boundary(bytes.subrange(0, end), start),
{
    valid_utf8_split(bytes, end);
    let prefix = bytes.subrange(0, end);
    if start == end {
        is_char_boundary_start_end_of_seq(prefix);
    } else {
        is_char_boundary_iff_not_is_continuation_byte(bytes, start);
        is_char_boundary_iff_not_is_continuation_byte(prefix, start);
        assert(prefix[start] == bytes[start]);
    }
}

/// Append a text.
pub fn push_str(out: &mut String, s: &str)
    ensures
        encode_utf8(final(out)@) == encode_utf8(old(out)@) + encode_utf8(s@),
{
    proof {
        lemma_encode_concat(out@, s@);
    }
    out.append(s);
}

/// Append an ASCII character, given by its byte.
pub fn push_ascii(out: &mut String, b: u8)
    requires
        b < 0x80,
    ensures
        encode_utf8(final(out)@) == encode_utf8(old(out)@) + seq![b],
{
    proof {
        lemma_encode_push(out@, b as char);
        lemma_encode_ascii(b);
    }
    out.push(b as char);
}

/// Append the decimal digits of a number.
pub fn push_usize(out: &mut String, n: usize)
    ensures
        encode_utf8(final(out)@) == encode_utf8(old(out)@) + decimal(n as nat),
    decreases n,
{
    if n >= 10 {
        push_usize(out, n / 10);
    }
    proof {
        if n < 10 {
            assert(encode_utf8(out@) + decimal(n as nat) =~= encode_utf8(old(out)@) + decimal(n as nat));
        }
    }
    push_ascii(out, 0x30 + (n % 10) as u8);
    proof {
        assert(encode_utf8(out@) =~= encode_utf8(old(out)@) + decimal(n as nat));
    }
}

/// The ASCII digits of a number, without leading zeros.
pub open spec fn decimal(n: nat) -> Seq<u8>
    decreases n,
{
    if n < 10 {
        seq![(0x30 + n) as u8]
    } else {
        decimal(n / 10) + seq![(0x30 + n % 10) as u8]
    }
}

/// `core::str::from_utf8` gives the text that bytes encode, if they are valid UTF-8.
#[verifier::external_body]
pub(crate) fn utf8_text(bytes: &[u8]) -> (text: Option<&str>)
    ensures
        match text {
            Some(t) => encode_utf8(t@) == bytes@,
            None => !valid_utf8(bytes@),
        },
{
    core::str::from_utf8(bytes).ok()
}

} // verus!
