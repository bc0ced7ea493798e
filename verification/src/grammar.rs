//! The JSON grammar, as a function from bytes to a located syntax tree.
//!
//! Everything here is mathematics: [`document`] says, for any byte sequence and any nesting
//! limit, which tree the bytes denote or which fault is met first, reading from left to
//! right. Positions are byte offsets into the text.

use crate::ascii::{
    BACKSLASH, COLON, COMMA, CR, DOT, LBRACE, LBRACKET, LF, LOWER_A, LOWER_B, LOWER_E, LOWER_F,
    LOWER_L, LOWER_N, LOWER_R, LOWER_S, LOWER_T, LOWER_U, MINUS, NINE, PLUS, QUOTE, RBRACE,
    RBRACKET, SLASH, SPACE, TAB, UPPER_A, UPPER_E, UPPER_F, ZERO,
};
use crate::tape::NodeKind;
use vstd::prelude::*;

verus! {

/// The first thing wrong with a text.
#[verifier::ext_equal]
pub enum Fault {
    /// The bytes at `at` do not continue a JSON document; `msg` says what was expected.
    Syntax { at: int, msg: Seq<char> },
    /// A container would sit at nesting depth `depth`, past the limit.
    TooDeep { depth: int },
}

/// A lexeme's place in the text: `start` inclusive, `end` exclusive.
#[verifier::ext_equal]
pub struct Place {
    pub start: int,
    pub end: int,
}

/// A JSON value together with the place of every lexeme in it.
#[verifier::ext_equal]
pub enum Tree {
    /// A literal, a number or a string.
    Leaf { kind: NodeKind, place: Place },
    /// An array: its brackets' offsets and its elements in source order.
    Array { open: int, items: Seq<Tree>, close: int },
    /// An object: its braces' offsets and its members in source order, duplicates included.
    Object { open: int, members: Seq<(Place, Tree)>, close: int },
}

pub open spec fn syntax<T>(at: int, msg: Seq<char>) -> Result<T, Fault> {
    Err(Fault::Syntax { at, msg })
}

// ---------------------------------------------------------------------------
// Lexical level
// ---------------------------------------------------------------------------

/// JSON's insignificant whitespace: space, tab, line feed, carriage return.
pub open spec fn is_space(b: u8) -> bool {
    b == SPACE || b == TAB || b == LF || b == CR
}

pub open spec fn is_digit(b: u8) -> bool {
    ZERO <= b <= NINE
}

pub open spec fn is_hex(b: u8) -> bool {
    is_digit(b) || UPPER_A <= b <= UPPER_F || LOWER_A <= b <= LOWER_F
}

/// The bytes that may follow a backslash, `u` apart: `" \ / b f n r t`.
pub open spec fn is_short_escape(b: u8) -> bool {
    b == QUOTE || b == BACKSLASH || b == SLASH || b == LOWER_B || b == LOWER_F || b == LOWER_N || b == LOWER_R || b
        == LOWER_T
}

/// The first offset at or after `i` that does not hold whitespace.
pub open spec fn skip_space(s: Seq<u8>, i: int) -> int
    decreases s.len() - i,
{
    if 0 <= i < s.len() && is_space(s[i]) {
        skip_space(s, i + 1)
    } else {
        i
    }
}

/// The first offset at or after `i` that does not hold a digit.
pub open spec fn skip_digits(s: Seq<u8>, i: int) -> int
    decreases s.len() - i,
{
    if 0 <= i < s.len() && is_digit(s[i]) {
        skip_digits(s, i + 1)
    } else {
        i
    }
}

/// Four hexadecimal digits are wanted at `i`; `k` of them have been read.
pub open spec fn hex_digits(s: Seq<u8>, i: int, k: int) -> Result<int, Fault>
    decreases 4 - k,
{
    if k >= 4 {
        Ok(i + 4)
    } else if i + k >= s.len() {
        syntax(i + k, "unterminated unicode escape"@)
    } else if is_hex(s[i + k]) {
        hex_digits(s, i, k + 1)
    } else {
        syntax(i + k, "invalid hex digit in unicode escape"@)
    }
}

/// One character of a string body at `i`, a byte that is neither the closing quote nor the
/// end of the text: the offset just past it.
pub open spec fn string_char(s: Seq<u8>, i: int) -> Result<int, Fault> {
    if s[i] == BACKSLASH {
        if i + 1 >= s.len() {
            syntax(i + 1, "unterminated escape in string"@)
        } else if is_short_escape(s[i + 1]) {
            Ok(i + 2)
        } else if s[i + 1] == LOWER_U {
            hex_digits(s, i + 2, 0)
        } else {
            syntax(i + 1, "invalid escape character in string"@)
        }
    } else if s[i] <= 0x1F {
        syntax(i, "unescaped control character in string"@)
    } else {
        Ok(i + 1)
    }
}

/// The rest of a string from offset `i` on, after its opening quote: the offset just past
/// the closing quote.
pub open spec fn string_rest(s: Seq<u8>, i: int) -> Result<int, Fault>
    decreases s.len() - i,
{
    if i >= s.len() {
        syntax(i, "unterminated string"@)
    } else if s[i] == QUOTE {
        Ok(i + 1)
    } else {
        match string_char(s, i) {
            Err(e) => Err(e),
            Ok(j) => if i < j <= s.len() {
                string_rest(s, j)
            } else {
                arbitrary()
            },
        }
    }
}

/// The integer part of a number: a single zero, or digits that do not start with one.
pub open spec fn integer_part(s: Seq<u8>, i: int) -> Result<int, Fault> {
    if i < s.len() && s[i] == ZERO {
        if i + 1 < s.len() && is_digit(s[i + 1]) {
            syntax(i, "leading zeros are not allowed in numbers"@)
        } else {
            Ok(i + 1)
        }
    } else if i < s.len() && is_digit(s[i]) {
        Ok(skip_digits(s, i + 1))
    } else {
        syntax(i, "invalid number: expected a digit"@)
    }
}

/// The optional fraction: a dot and at least one digit.
pub open spec fn fraction_part(s: Seq<u8>, i: int) -> Result<int, Fault> {
    if i < s.len() && s[i] == DOT {
        let j = skip_digits(s, i + 1);
        if j == i + 1 {
            syntax(j, "invalid number: expected a digit after '.'"@)
        } else {
            Ok(j)
        }
    } else {
        Ok(i)
    }
}

/// The optional exponent: `e` or `E`, an optional sign and at least one digit.
pub open spec fn exponent_part(s: Seq<u8>, i: int) -> Result<int, Fault> {
    if i < s.len() && (s[i] == LOWER_E || s[i] == UPPER_E) {
        let signed = i + 1 < s.len() && (s[i + 1] == PLUS || s[i + 1] == MINUS);
        let d = if signed {
            i + 2
        } else {
            i + 1
        };
        let j = skip_digits(s, d);
        if j == d {
            syntax(j, "invalid number: expected a digit in exponent"@)
        } else {
            Ok(j)
        }
    } else {
        Ok(i)
    }
}

/// A number at `i`: an optional minus sign, then integer part, fraction and exponent.
pub open spec fn number(s: Seq<u8>, i: int) -> Result<int, Fault> {
    let d = if i < s.len() && s[i] == MINUS {
        i + 1
    } else {
        i
    };
    match integer_part(s, d) {
        Err(e) => Err(e),
        Ok(f) => match fraction_part(s, f) {
            Err(e) => Err(e),
            Ok(x) => exponent_part(s, x),
        },
    }
}

/// Whether the text holds `word` at offset `i`.
pub open spec fn holds_at(s: Seq<u8>, i: int, word: Seq<u8>) -> bool {
    i + word.len() <= s.len() && s.subrange(i, i + word.len()) == word
}

/// The bytes of `null`.
pub open spec fn null_word() -> Seq<u8> {
    seq![LOWER_N, LOWER_U, LOWER_L, LOWER_L]
}

/// The bytes of `true`.
pub open spec fn true_word() -> Seq<u8> {
    seq![LOWER_T, LOWER_R, LOWER_U, LOWER_E]
}

/// The bytes of `false`.
pub open spec fn false_word() -> Seq<u8> {
    seq![LOWER_F, LOWER_A, LOWER_L, LOWER_S, LOWER_E]
}

pub open spec fn leaf(kind: NodeKind, start: int, end: int) -> (Tree, int) {
    (Tree::Leaf { kind, place: Place { start, end } }, end)
}

/// A value that is not a container, starting at the byte `s[p]`.
pub open spec fn scalar(s: Seq<u8>, p: int) -> Result<(Tree, int), Fault> {
    let b = s[p];
    if b == QUOTE {
        match string_rest(s, p + 1) {
            Err(e) => Err(e),
            Ok(end) => Ok(leaf(NodeKind::String, p, end)),
        }
    } else if b == LOWER_N {
        if holds_at(s, p, null_word()) {
            Ok(leaf(NodeKind::Null, p, p + 4))
        } else {
            syntax(p, "invalid literal, expected 'null'"@)
        }
    } else if b == LOWER_T {
        if holds_at(s, p, true_word()) {
            Ok(leaf(NodeKind::Bool(true), p, p + 4))
        } else {
            syntax(p, "invalid literal, expected 'true'"@)
        }
    } else if b == LOWER_F {
        if holds_at(s, p, false_word()) {
            Ok(leaf(NodeKind::Bool(false), p, p + 5))
        } else {
            syntax(p, "invalid literal, expected 'false'"@)
        }
    } else if b == MINUS || is_digit(b) {
        match number(s, p) {
            Err(e) => Err(e),
            Ok(end) => Ok(leaf(NodeKind::Number, p, end)),
        }
    } else {
        syntax(p, "expected a JSON value"@)
    }
}

// ---------------------------------------------------------------------------
// Syntactic level
// ---------------------------------------------------------------------------
//
// `depth` is the number of containers around the text being read, `limit` the most
// containers that may enclose anything. Each function skips leading whitespace and returns
// what it read with the offset it stopped at. A value is never empty, so every step moves
// on; the `arbitrary()` branches are never reached.

/// A value.
pub open spec fn value(s: Seq<u8>, i: int, depth: int, limit: int) -> Result<(Tree, int), Fault>
    decreases s.len() - i, 3int,
{
    let p = skip_space(s, i);
    if p >= s.len() {
        syntax(p, "unexpected end of input, expected a value"@)
    } else if s[p] == LBRACE {
        if depth + 1 > limit {
            Err(Fault::TooDeep { depth: depth + 1 })
        } else if p < i {
            arbitrary()
        } else {
            match first_member(s, p + 1, depth + 1, limit) {
                Err(e) => Err(e),
                Ok((members, close)) => Ok((Tree::Object { open: p, members, close }, close + 1)),
            }
        }
    } else if s[p] == LBRACKET {
        if depth + 1 > limit {
            Err(Fault::TooDeep { depth: depth + 1 })
        } else if p < i {
            arbitrary()
        } else {
            match first_item(s, p + 1, depth + 1, limit) {
                Err(e) => Err(e),
                Ok((items, close)) => Ok((Tree::Array { open: p, items, close }, close + 1)),
            }
        }
    } else {
        scalar(s, p)
    }
}

/// What follows `[`: the elements, and the offset of the closing bracket.
pub open spec fn first_item(s: Seq<u8>, i: int, depth: int, limit: int) -> Result<
    (Seq<Tree>, int),
    Fault,
>
    decreases s.len() - i, 5int,
{
    let p = skip_space(s, i);
    if p >= s.len() {
        syntax(p, "unexpected end of input, expected value or ']'"@)
    } else if s[p] == RBRACKET {
        Ok((Seq::empty(), p))
    } else if p < i {
        arbitrary()
    } else {
        items(s, p, depth, limit)
    }
}

/// An element, then the rest of the array.
pub open spec fn items(s: Seq<u8>, i: int, depth: int, limit: int) -> Result<
    (Seq<Tree>, int),
    Fault,
>
    decreases s.len() - i, 4int,
{
    match value(s, i, depth, limit) {
        Err(e) => Err(e),
        Ok((first, j)) => if i < j <= s.len() {
            match more_items(s, j, depth, limit) {
                Err(e) => Err(e),
                Ok((rest, close)) => Ok((seq![first] + rest, close)),
            }
        } else {
            arbitrary()
        },
    }
}

/// What follows an element: a comma and more elements, or the closing bracket.
pub open spec fn more_items(s: Seq<u8>, i: int, depth: int, limit: int) -> Result<
    (Seq<Tree>, int),
    Fault,
>
    decreases s.len() - i, 2int,
{
    let p = skip_space(s, i);
    if p >= s.len() {
        syntax(p, "unexpected end of input, expected ',' or ']'"@)
    } else if s[p] == COMMA {
        if p < i {
            arbitrary()
        } else {
            items(s, p + 1, depth, limit)
        }
    } else if s[p] == RBRACKET {
        Ok((Seq::empty(), p))
    } else {
        syntax(p, "expected ',' or ']' in array"@)
    }
}

/// The key string at `p` and the colon after it: the key's place and the offset past the
/// colon.
pub open spec fn key(s: Seq<u8>, p: int) -> Result<(Place, int), Fault> {
    match string_rest(s, p + 1) {
        Err(e) => Err(e),
        Ok(end) => {
            let colon = skip_space(s, end);
            if colon >= s.len() {
                syntax(colon, "unexpected end of input, expected ':'"@)
            } else if s[colon] == COLON {
                Ok((Place { start: p, end }, colon + 1))
            } else {
                syntax(colon, "expected ':' after object key"@)
            }
        },
    }
}

/// What follows `{`: the members, and the offset of the closing brace.
pub open spec fn first_member(s: Seq<u8>, i: int, depth: int, limit: int) -> Result<
    (Seq<(Place, Tree)>, int),
    Fault,
>
    decreases s.len() - i, 5int,
{
    let p = skip_space(s, i);
    if p >= s.len() {
        syntax(p, "unexpected end of input, expected string key or '}'"@)
    } else if s[p] == RBRACE {
        Ok((Seq::empty(), p))
    } else if s[p] == QUOTE {
        if p < i {
            arbitrary()
        } else {
            members(s, p, depth, limit)
        }
    } else {
        syntax(p, "expected string key or '}'"@)
    }
}

/// A member whose key starts at the quote `s[p]`, then the rest of the object.
pub open spec fn members(s: Seq<u8>, p: int, depth: int, limit: int) -> Result<
    (Seq<(Place, Tree)>, int),
    Fault,
>
    decreases s.len() - p, 4int,
{
    match key(s, p) {
        Err(e) => Err(e),
        Ok((place, v)) => if p < v <= s.len() {
            match value(s, v, depth, limit) {
                Err(e) => Err(e),
                Ok((first, j)) => if v < j <= s.len() {
                    match more_members(s, j, depth, limit) {
                        Err(e) => Err(e),
                        Ok((rest, close)) => Ok((seq![(place, first)] + rest, close)),
                    }
                } else {
                    arbitrary()
                },
            }
        } else {
            arbitrary()
        },
    }
}

/// What follows a comma in an object: another member.
pub open spec fn next_member(s: Seq<u8>, i: int, depth: int, limit: int) -> Result<
    (Seq<(Place, Tree)>, int),
    Fault,
>
    decreases s.len() - i, 5int,
{
    let p = skip_space(s, i);
    if p >= s.len() {
        syntax(p, "unexpected end of input, expected string key"@)
    } else if s[p] == QUOTE {
        if p < i {
            arbitrary()
        } else {
            members(s, p, depth, limit)
        }
    } else {
        syntax(p, "expected string key after ','"@)
    }
}

/// What follows a member: a comma and more members, or the closing brace.
pub open spec fn more_members(s: Seq<u8>, i: int, depth: int, limit: int) -> Result<
    (Seq<(Place, Tree)>, int),
    Fault,
>
    decreases s.len() - i, 2int,
{
    let p = skip_space(s, i);
    if p >= s.len() {
        syntax(p, "unexpected end of input, expected ',' or '}'"@)
    } else if s[p] == COMMA {
        if p < i {
            arbitrary()
        } else {
            next_member(s, p + 1, depth, limit)
        }
    } else if s[p] == RBRACE {
        Ok((Seq::empty(), p))
    } else {
        syntax(p, "expected ',' or '}' in object"@)
    }
}

/// What may follow the document's value: whitespace.
pub open spec fn only_space(s: Seq<u8>, i: int) -> Result<(), Fault> {
    let p = skip_space(s, i);
    if p < s.len() {
        syntax(p, "trailing data after top-level value"@)
    } else {
        Ok(())
    }
}

/// A whole document: one value and nothing but whitespace around it.
pub open spec fn document(s: Seq<u8>, limit: int) -> Result<Tree, Fault> {
    match value(s, 0, 0, limit) {
        Err(e) => Err(e),
        Ok((tree, end)) => match only_space(s, end) {
            Err(e) => Err(e),
            Ok(_) => Ok(tree),
        },
    }
}

// ---------------------------------------------------------------------------
// Progress
// ---------------------------------------------------------------------------

pub proof fn lemma_skip_space(s: Seq<u8>, i: int)
    requires
        0 <= i <= s.len(),
    ensures
        i <= skip_space(s, i) <= s.len(),
        skip_space(s, i) < s.len() ==> !is_space(s[skip_space(s, i)]),
        forall|k: int| i <= k < skip_space(s, i) ==> is_space(s[k]),
    decreases s.len() - i,
{
    if i < s.len() && is_space(s[i]) {
        lemma_skip_space(s, i + 1);
    }
}

pub proof fn lemma_skip_digits(s: Seq<u8>, i: int)
    requires
        0 <= i <= s.len(),
    ensures
        i <= skip_digits(s, i) <= s.len(),
        skip_digits(s, i) < s.len() ==> !is_digit(s[skip_digits(s, i)]),
        forall|k: int| i <= k < skip_digits(s, i) ==> is_digit(s[k]),
    decreases s.len() - i,
{
    if i < s.len() && is_digit(s[i]) {
        lemma_skip_digits(s, i + 1);
    }
}

pub proof fn lemma_string_char(s: Seq<u8>, i: int)
    requires
        0 <= i < s.len(),
        s[i] != QUOTE,
    ensures
        string_char(s, i) matches Ok(j) ==> i < j <= s.len(),
{
    reveal_with_fuel(hex_digits, 5);
}

pub proof fn lemma_string_rest(s: Seq<u8>, i: int)
    requires
        0 <= i <= s.len(),
    ensures
        string_rest(s, i) matches Ok(j) ==> i < j <= s.len() && s[j - 1] == QUOTE,
    decreases s.len() - i,
{
    if i < s.len() && s[i] != QUOTE {
        lemma_string_char(s, i);
        if let Ok(j) = string_char(s, i) {
            lemma_string_rest(s, j);
        }
    }
}

pub proof fn lemma_number(s: Seq<u8>, i: int)
    requires
        0 <= i < s.len(),
    ensures
        number(s, i) matches Ok(j) ==> i < j <= s.len(),
{
    let d = if s[i] == MINUS {
        i + 1
    } else {
        i
    };
    if let Ok(f) = integer_part(s, d) {
        if d + 1 <= s.len() {
            lemma_skip_digits(s, d + 1);
        }
        if let Ok(x) = fraction_part(s, f) {
            if f + 1 <= s.len() {
                lemma_skip_digits(s, f + 1);
            }
            if x + 1 <= s.len() {
                lemma_skip_digits(s, x + 1);
            }
            if x + 2 <= s.len() {
                lemma_skip_digits(s, x + 2);
            }
        }
    }
}

pub proof fn lemma_scalar(s: Seq<u8>, p: int)
    requires
        0 <= p < s.len(),
    ensures
        scalar(s, p) matches Ok((t, j)) ==> p < j <= s.len(),
{
    lemma_string_rest(s, p + 1);
    lemma_number(s, p);
}

pub proof fn lemma_key(s: Seq<u8>, p: int)
    requires
        0 <= p < s.len(),
    ensures
        key(s, p) matches Ok((place, v)) ==> p < place.end < v <= s.len() && place.start == p,
{
    lemma_string_rest(s, p + 1);
    if let Ok(end) = string_rest(s, p + 1) {
        lemma_skip_space(s, end);
    }
}

/// A value that is read ends past where it started and inside the text.
pub proof fn lemma_value(s: Seq<u8>, i: int, depth: int, limit: int)
    requires
        0 <= i <= s.len(),
    ensures
        value(s, i, depth, limit) matches Ok((t, j)) ==> i < j <= s.len(),
    decreases s.len() - i, 3int,
{
    lemma_skip_space(s, i);
    let p = skip_space(s, i);
    if p < s.len() {
        if s[p] == LBRACE {
            lemma_first_member(s, p + 1, depth + 1, limit);
        } else if s[p] == LBRACKET {
            lemma_first_item(s, p + 1, depth + 1, limit);
        } else {
            lemma_scalar(s, p);
        }
    }
}

pub proof fn lemma_first_item(s: Seq<u8>, i: int, depth: int, limit: int)
    requires
        0 <= i <= s.len(),
    ensures
        first_item(s, i, depth, limit) matches Ok((ts, c)) ==> i <= c < s.len() && s[c] == RBRACKET,
    decreases s.len() - i, 5int,
{
    lemma_skip_space(s, i);
    let p = skip_space(s, i);
    if p < s.len() && s[p] != RBRACKET {
        lemma_items(s, p, depth, limit);
    }
}

pub proof fn lemma_items(s: Seq<u8>, i: int, depth: int, limit: int)
    requires
        0 <= i <= s.len(),
    ensures
        items(s, i, depth, limit) matches Ok((ts, c)) ==> i < c < s.len() && s[c] == RBRACKET,
    decreases s.len() - i, 4int,
{
    lemma_value(s, i, depth, limit);
    if let Ok((t, j)) = value(s, i, depth, limit) {
        lemma_more_items(s, j, depth, limit);
    }
}

pub proof fn lemma_more_items(s: Seq<u8>, i: int, depth: int, limit: int)
    requires
        0 <= i <= s.len(),
    ensures
        more_items(s, i, depth, limit) matches Ok((ts, c)) ==> i <= c < s.len() && s[c] == RBRACKET,
    decreases s.len() - i, 2int,
{
    lemma_skip_space(s, i);
    let p = skip_space(s, i);
    if p < s.len() && s[p] == COMMA {
        lemma_items(s, p + 1, depth, limit);
    }
}

pub proof fn lemma_first_member(s: Seq<u8>, i: int, depth: int, limit: int)
    requires
        0 <= i <= s.len(),
    ensures
        first_member(s, i, depth, limit) matches Ok((ms, c)) ==> i <= c < s.len() && s[c] == RBRACE,
    decreases s.len() - i, 5int,
{
    lemma_skip_space(s, i);
    let p = skip_space(s, i);
    if p < s.len() && s[p] == QUOTE {
        lemma_members(s, p, depth, limit);
    }
}

pub proof fn lemma_members(s: Seq<u8>, p: int, depth: int, limit: int)
    requires
        0 <= p < s.len(),
    ensures
        members(s, p, depth, limit) matches Ok((ms, c)) ==> p < c < s.len() && s[c] == RBRACE,
    decreases s.len() - p, 4int,
{
    lemma_key(s, p);
    if let Ok((place, v)) = key(s, p) {
        lemma_value(s, v, depth, limit);
        if let Ok((t, j)) = value(s, v, depth, limit) {
            lemma_more_members(s, j, depth, limit);
        }
    }
}

pub proof fn lemma_next_member(s: Seq<u8>, i: int, depth: int, limit: int)
    requires
        0 <= i <= s.len(),
    ensures
        next_member(s, i, depth, limit) matches Ok((ms, c)) ==> i < c < s.len() && s[c] == RBRACE,
    decreases s.len() - i, 5int,
{
    lemma_skip_space(s, i);
    let p = skip_space(s, i);
    if p < s.len() && s[p] == QUOTE {
        lemma_members(s, p, depth, limit);
    }
}

pub proof fn lemma_more_members(s: Seq<u8>, i: int, depth: int, limit: int)
    requires
        0 <= i <= s.len(),
    ensures
        more_members(s, i, depth, limit) matches Ok((ms, c)) ==> i <= c < s.len() && s[c] == RBRACE,
    decreases s.len() - i, 2int,
{
    lemma_skip_space(s, i);
    let p = skip_space(s, i);
    if p < s.len() && s[p] == COMMA {
        lemma_next_member(s, p + 1, depth, limit);
    }
}

} // verus!
