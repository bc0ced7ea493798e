//! Token estimation for encoder selection.
//!
//! Selection compares estimates: the candidate rule keeps a rendering only if
//! [`TokenEstimator::estimate`] rates it below the input. An estimator counts tokens, not
//! bytes, and is a pure function of the text, so that equal inputs always select equal
//! renderings.
//!
//! The id of the estimator that drove a selection is reported beside the result and is never
//! written to an archive.

pub use crate::estimator::exact::{Cl100kEstimator, O200kEstimator, TokenizerLoadError};

use crate::ascii::{
    CR, FORM_FEED, LF, LOWER_A, LOWER_Z, NINE, SPACE, TAB, UPPER_A, UPPER_Z, ZERO,
};
use vstd::prelude::*;
use vstd::utf8::encode_utf8;

pub mod exact;
pub mod ids;

verus! {

/// A cost model that rates texts in tokens.
///
/// The candidate rule rates the input and every candidate, so a model must be pure: a text,
/// given by its UTF-8 bytes, always counts for the same number of tokens. A model that says
/// which number overrides [`TokenEstimator::tokens`].
pub trait TokenEstimator: Send + Sync {
    /// The texts that the model can rate.
    open spec fn rates(&self, text: Seq<u8>) -> bool {
        true
    }

    /// How many tokens a text counts for.
    open spec fn tokens(&self, text: Seq<u8>) -> nat {
        arbitrary()
    }

    /// The id of the model.
    open spec fn id(&self) -> u16 {
        arbitrary()
    }

    /// The saving, in basis points of the input, that the model may claim where there is none.
    open spec fn over_claim(&self) -> u32 {
        0
    }

    /// Estimate the token count of `text`.
    fn estimate(&self, text: &str) -> (count: usize)
        requires
            self.rates(encode_utf8(text@)),
        ensures
            count == self.tokens(encode_utf8(text@)),
    ;

    /// The stable id under which selections are reported; see [`ids`].
    fn tokenizer_id(&self) -> (id: u16)
        ensures
            id == self.id(),
    ;

    /// The margin, in basis points, that a selection applies unless it is configured.
    fn over_claim_bps(&self) -> (bps: u32)
        ensures
            bps == self.over_claim(),
    ;
}

/// A cost model that can tell which texts it can rate.
pub trait CheckedEstimator: TokenEstimator {
    /// Whether the model can rate `text`.
    fn can_rate(&self, text: &str) -> (ok: bool)
        ensures
            ok == self.rates(encode_utf8(text@)),
    ;
}

/// Density of alphanumeric runs, in tenths of a character per token: 3.7 characters.
pub const ALPHANUMERIC_CHARS_PER_TOKEN_TENTHS: usize = 37;

/// The scale of [`ALPHANUMERIC_CHARS_PER_TOKEN_TENTHS`].
pub const TENTHS_SCALE: usize = 10;

/// The shortest run of whitespace that costs a token.
pub const WHITESPACE_RUN_MIN_TOKENIZED: usize = 2;

/// What one ASCII punctuation, symbol or control character costs.
pub const PUNCTUATION_TOKEN_WEIGHT: usize = 1;

/// Bytes per token in a run of non-ASCII characters.
pub const NON_ASCII_BYTES_PER_TOKEN: usize = 2;

/// The classes that the heuristic sorts the bytes of a text into. All bytes of a non-ASCII
/// character are `Wide`.
#[derive(Clone, Copy, PartialEq, Eq, Structural)]
pub enum Class {
    Word,
    Blank,
    Mark,
    Wide,
}

/// The class of a byte.
pub open spec fn class_of(b: u8) -> Class {
    if ZERO <= b <= NINE || UPPER_A <= b <= UPPER_Z || LOWER_A <= b <= LOWER_Z {
        Class::Word
    } else if b == SPACE || b == TAB || b == LF || b == FORM_FEED || b == CR {
        Class::Blank
    } else if b < 0x80 {
        Class::Mark
    } else {
        Class::Wide
    }
}

/// A quotient, rounded up.
pub open spec fn ceiling(a: nat, b: nat) -> nat {
    (a / b + (if a % b == 0 {
        0nat
    } else {
        1nat
    })) as nat
}

/// What a run of `len` alphanumeric characters costs: a token for every 3.7 of them, rounded
/// up. The tenths are counted in a `usize` and stop at its end.
pub open spec fn word_tokens(len: nat) -> nat {
    ceiling(
        if len * TENTHS_SCALE > usize::MAX {
            usize::MAX as nat
        } else {
            (len * TENTHS_SCALE) as nat
        },
        ALPHANUMERIC_CHARS_PER_TOKEN_TENTHS as nat,
    )
}

/// What a run of `len` bytes of one class costs.
pub open spec fn run_tokens(class: Class, len: nat) -> nat {
    match class {
        Class::Word => word_tokens(len),
        Class::Blank => if len >= WHITESPACE_RUN_MIN_TOKENIZED {
            1
        } else {
            0
        },
        Class::Mark => len * PUNCTUATION_TOKEN_WEIGHT as nat,
        Class::Wide => ceiling(len, NON_ASCII_BYTES_PER_TOKEN as nat),
    }
}

/// What is still to be paid when `len` bytes of class `class` stand right before `text`: the
/// run that these bytes begin, and every run after it.
pub open spec fn runs_cost(text: Seq<u8>, class: Class, len: nat) -> nat
    decreases text.len(),
{
    if text.len() == 0 {
        run_tokens(class, len)
    } else if class_of(text[0]) == class {
        runs_cost(text.drop_first(), class, len + 1)
    } else {
        run_tokens(class, len) + runs_cost(text.drop_first(), class_of(text[0]), 1)
    }
}

/// The heuristic's estimate of a text: the sum of what its maximal runs of one class cost.
pub open spec fn heuristic_tokens(text: Seq<u8>) -> nat {
    runs_cost(text, Class::Mark, 0)
}

/// Longer runs cost no less, and a run never costs more tokens than it has bytes.
proof fn lemma_run_tokens(class: Class, a: nat, b: nat)
    requires
        a <= b,
    ensures
        run_tokens(class, a) <= run_tokens(class, b),
        run_tokens(class, a) <= a,
{
}

proof fn lemma_runs_cost_bound(text: Seq<u8>, class: Class, len: nat)
    ensures
        run_tokens(class, len) <= runs_cost(text, class, len) <= len + text.len(),
    decreases text.len(),
{
    lemma_run_tokens(class, len, len + 1);
    if text.len() > 0 {
        if class_of(text[0]) == class {
            lemma_runs_cost_bound(text.drop_first(), class, len + 1);
        } else {
            lemma_runs_cost_bound(text.drop_first(), class_of(text[0]), 1);
        }
    }
}

/// A longer run before a text costs no less.
proof fn lemma_runs_cost_grows(text: Seq<u8>, class: Class, a: nat, b: nat)
    requires
        a <= b,
    ensures
        runs_cost(text, class, a) <= runs_cost(text, class, b),
    decreases text.len(),
{
    lemma_run_tokens(class, a, b);
    if text.len() > 0 && class_of(text[0]) == class {
        lemma_runs_cost_grows(text.drop_first(), class, a + 1, b + 1);
    }
}

proof fn lemma_runs_cost_prefix(a: Seq<u8>, b: Seq<u8>, class: Class, len: nat)
    ensures
        runs_cost(a, class, len) <= runs_cost(a + b, class, len),
    decreases a.len(),
{
    if a.len() == 0 {
        assert(a + b =~= b);
        lemma_runs_cost_bound(b, class, len);
    } else {
        assert((a + b).drop_first() =~= a.drop_first() + b);
        if class_of(a[0]) == class {
            lemma_runs_cost_prefix(a.drop_first(), b, class, len + 1);
        } else {
            lemma_runs_cost_prefix(a.drop_first(), b, class_of(a[0]), 1);
        }
    }
}

proof fn lemma_runs_cost_suffix(a: Seq<u8>, b: Seq<u8>, class: Class, len: nat)
    ensures
        heuristic_tokens(b) <= runs_cost(a + b, class, len),
    decreases a.len(),
{
    if a.len() == 0 {
        assert(a + b =~= b);
        if b.len() > 0 && class_of(b[0]) == class {
            lemma_runs_cost_grows(b.drop_first(), class, 1, len + 1);
        }
    } else {
        assert((a + b).drop_first() =~= a.drop_first() + b);
        if class_of(a[0]) == class {
            lemma_runs_cost_suffix(a.drop_first(), b, class, len + 1);
        } else {
            lemma_runs_cost_suffix(a.drop_first(), b, class_of(a[0]), 1);
        }
    }
}

/// One step along a text.
pub proof fn lemma_runs_cost_step(text: Seq<u8>, at: int, class: Class, len: nat)
    requires
        0 <= at < text.len(),
    ensures
        runs_cost(text.skip(at), class, len) == (if class_of(text[at]) == class {
            runs_cost(text.skip(at + 1), class, len + 1)
        } else {
            run_tokens(class, len) + runs_cost(text.skip(at + 1), class_of(text[at]), 1)
        }),
{
    assert(text.skip(at).drop_first() =~= text.skip(at + 1));
}

/// Joining two texts never costs less than either of them.
pub proof fn law_concatenation_is_monotone(a: Seq<u8>, b: Seq<u8>)
    ensures
        heuristic_tokens(a) <= heuristic_tokens(a + b),
        heuristic_tokens(b) <= heuristic_tokens(a + b),
{
    lemma_runs_cost_prefix(a, b, Class::Mark, 0);
    lemma_runs_cost_suffix(a, b, Class::Mark, 0);
}

/// Two runs of one class cost what the run that they make together does, up to a token.
proof fn lemma_run_tokens_seam(class: Class, a: nat, b: nat)
    requires
        (a + b) * TENTHS_SCALE <= usize::MAX,
    ensures
        -1 <= run_tokens(class, a + b) - run_tokens(class, a) - run_tokens(class, b) <= 1,
{
}

/// The bytes before a text may be paid apart from it, up to a token.
proof fn lemma_runs_cost_seam(text: Seq<u8>, class: Class, a: nat, b: nat)
    requires
        (a + b + text.len()) * TENTHS_SCALE <= usize::MAX,
    ensures
        -1 <= runs_cost(text, class, a + b) - run_tokens(class, a) - runs_cost(text, class, b) <= 1,
    decreases text.len(),
{
    if text.len() > 0 && class_of(text[0]) == class {
        lemma_runs_cost_seam(text.drop_first(), class, a, b + 1);
    } else {
        lemma_run_tokens_seam(class, a, b);
    }
}

proof fn lemma_joined(a: Seq<u8>, b: Seq<u8>, class: Class, len: nat)
    requires
        (len + a.len() + b.len()) * TENTHS_SCALE <= usize::MAX,
    ensures
        -1 <= runs_cost(a + b, class, len) - runs_cost(a, class, len) - heuristic_tokens(b) <= 1,
    decreases a.len(),
{
    if a.len() == 0 {
        assert(a + b =~= b);
        if b.len() > 0 && class_of(b[0]) == class {
            lemma_runs_cost_seam(b.drop_first(), class, len, 1);
        }
    } else {
        assert((a + b).drop_first() =~= a.drop_first() + b);
        if class_of(a[0]) == class {
            lemma_joined(a.drop_first(), b, class, len + 1);
        } else {
            lemma_joined(a.drop_first(), b, class_of(a[0]), 1);
        }
    }
}

/// Joining two texts costs what they cost apart, up to a token at the seam, for texts whose
/// length in tenths a `usize` holds.
pub proof fn law_seam_costs_at_most_one(a: Seq<u8>, b: Seq<u8>)
    requires
        (a.len() + b.len()) * TENTHS_SCALE <= usize::MAX,
    ensures
        -1 <= heuristic_tokens(a + b) - heuristic_tokens(a) - heuristic_tokens(b) <= 1,
{
    lemma_joined(a, b, Class::Mark, 0);
}

/// A text never counts for more tokens than it has bytes, and the empty text for none.
pub proof fn law_heuristic_within_bytes(text: Seq<u8>)
    ensures
        heuristic_tokens(text) <= text.len(),
        text.len() == 0 ==> heuristic_tokens(text) == 0,
{
    lemma_runs_cost_bound(text, Class::Mark, 0);
}

// ---------------------------------------------------------------------------
// Laws of the heuristic
// ---------------------------------------------------------------------------

/// An ASCII letter or digit, in either case.
pub open spec fn letter_or_digit(b: u8) -> bool {
    0x30 <= b <= 0x39 || 0x41 <= b <= 0x5A || 0x61 <= b <= 0x7A
}

/// ASCII whitespace: space, tab, line feed, form feed, carriage return.
pub open spec fn ascii_space(b: u8) -> bool {
    b == 0x20 || b == 0x09 || b == 0x0A || b == 0x0C || b == 0x0D
}

/// Any other ASCII character.
pub open spec fn ascii_other(b: u8) -> bool {
    b < 0x80 && !letter_or_digit(b) && !ascii_space(b)
}

/// Whether two bytes are charged together when they stand side by side.
pub open spec fn alike(a: u8, b: u8) -> bool {
    ||| letter_or_digit(a) && letter_or_digit(b)
    ||| ascii_space(a) && ascii_space(b)
    ||| ascii_other(a) && ascii_other(b)
    ||| a >= 0x80 && b >= 0x80
}

/// Whether two bytes are the same letter in either ASCII case, or the same byte.
pub open spec fn same_but_for_case(a: u8, b: u8) -> bool {
    ||| a == b
    ||| 0x41 <= a <= 0x5A && b == a + 0x20
    ||| 0x41 <= b <= 0x5A && a == b + 0x20
}

proof fn lemma_one_run(text: Seq<u8>, class: Class, len: nat)
    requires
        forall|k: int| 0 <= k < text.len() ==> class_of(#[trigger] text[k]) == class,
    ensures
        runs_cost(text, class, len) == run_tokens(class, len + text.len()),
    decreases text.len(),
{
    if text.len() > 0 {
        assert forall|k: int| 0 <= k < text.drop_first().len() implies class_of(
            #[trigger] text.drop_first()[k],
        ) == class by {
            assert(text.drop_first()[k] == text[k + 1]);
        }
        lemma_one_run(text.drop_first(), class, len + 1);
    }
}

proof fn lemma_whole_run(text: Seq<u8>, class: Class)
    requires
        forall|k: int| 0 <= k < text.len() ==> class_of(#[trigger] text[k]) == class,
    ensures
        heuristic_tokens(text) == run_tokens(class, text.len()),
{
    if text.len() > 0 {
        assert(class_of(text[0]) == class);
        assert forall|k: int| 0 <= k < text.drop_first().len() implies class_of(
            #[trigger] text.drop_first()[k],
        ) == class by {
            assert(text.drop_first()[k] == text[k + 1]);
        }
        lemma_one_run(text.drop_first(), class, 1);
    }
}

/// A text of ASCII letters and digits, of either case, costs a token for every 3.7 of them,
/// rounded up, as long as a `usize` holds ten times their number; past that, what the largest
/// `usize` makes.
pub proof fn law_letters_and_digits_cost(text: Seq<u8>)
    requires
        forall|k: int| 0 <= k < text.len() ==> letter_or_digit(#[trigger] text[k]),
    ensures
        text.len() * 10 <= usize::MAX ==> HeuristicEstimator.tokens(text) == (10 * text.len() + 36)
            / 37,
        text.len() * 10 > usize::MAX ==> HeuristicEstimator.tokens(text) == (usize::MAX + 36) / 37,
{
    assert forall|k: int| 0 <= k < text.len() implies class_of(#[trigger] text[k])
        == Class::Word by {
        assert(letter_or_digit(text[k]));
    }
    lemma_whole_run(text, Class::Word);
}

/// A text of whitespace costs one token from two characters on, and nothing before.
pub proof fn law_spaces_cost(text: Seq<u8>)
    requires
        forall|k: int| 0 <= k < text.len() ==> ascii_space(#[trigger] text[k]),
    ensures
        HeuristicEstimator.tokens(text) == (if text.len() < 2 {
            0nat
        } else {
            1nat
        }),
{
    assert forall|k: int| 0 <= k < text.len() implies class_of(#[trigger] text[k])
        == Class::Blank by {
        assert(ascii_space(text[k]));
    }
    lemma_whole_run(text, Class::Blank);
}

/// A text of other ASCII characters costs a token for each.
pub proof fn law_other_ascii_costs(text: Seq<u8>)
    requires
        forall|k: int| 0 <= k < text.len() ==> ascii_other(#[trigger] text[k]),
    ensures
        HeuristicEstimator.tokens(text) == text.len(),
{
    assert forall|k: int| 0 <= k < text.len() implies class_of(#[trigger] text[k])
        == Class::Mark by {
        assert(ascii_other(text[k]));
    }
    lemma_whole_run(text, Class::Mark);
}

/// A text without ASCII characters costs a token for every two bytes, rounded up.
pub proof fn law_non_ascii_costs(text: Seq<u8>)
    requires
        forall|k: int| 0 <= k < text.len() ==> #[trigger] text[k] >= 0x80,
    ensures
        HeuristicEstimator.tokens(text) == (text.len() + 1) / 2,
{
    assert forall|k: int| 0 <= k < text.len() implies class_of(#[trigger] text[k])
        == Class::Wide by {
        assert(text[k] >= 0x80);
    }
    lemma_whole_run(text, Class::Wide);
}

proof fn lemma_apart(a: Seq<u8>, b: Seq<u8>, class: Class, len: nat)
    requires
        b.len() > 0,
        class_of(b[0]) != (if a.len() == 0 {
            class
        } else {
            class_of(a.last())
        }),
    ensures
        runs_cost(a + b, class, len) == runs_cost(a, class, len) + heuristic_tokens(b),
    decreases a.len(),
{
    if a.len() == 0 {
        assert(a + b =~= b);
        assert(run_tokens(Class::Mark, 0) == 0);
    } else {
        let rest = a.drop_first();
        assert((a + b).drop_first() =~= rest + b);
        assert(a.len() > 1 ==> rest.last() == a.last());
        if class_of(a[0]) == class {
            lemma_apart(rest, b, class, len + 1);
        } else {
            lemma_apart(rest, b, class_of(a[0]), 1);
        }
    }
}

/// Where two bytes that are not alike meet, the texts on both sides are charged apart: the
/// estimate of a text is the sum of what its runs of like bytes cost.
pub proof fn law_unlike_runs_add_up(a: Seq<u8>, b: Seq<u8>)
    requires
        a.len() > 0,
        b.len() > 0,
        !alike(a.last(), b[0]),
    ensures
        HeuristicEstimator.tokens(a + b) == HeuristicEstimator.tokens(a)
            + HeuristicEstimator.tokens(b),
{
    lemma_apart(a, b, Class::Mark, 0);
}

/// The empty text costs nothing.
pub proof fn law_nothing_costs_nothing(text: Seq<u8>)
    ensures
        text.len() == 0 ==> HeuristicEstimator.tokens(text) == 0,
        HeuristicEstimator.rates(text),
{
}

proof fn lemma_classes_decide(a: Seq<u8>, b: Seq<u8>, class: Class, len: nat)
    requires
        a.len() == b.len(),
        forall|k: int| 0 <= k < a.len() ==> class_of(#[trigger] a[k]) == class_of(b[k]),
    ensures
        runs_cost(a, class, len) == runs_cost(b, class, len),
    decreases a.len(),
{
    if a.len() > 0 {
        let ra = a.drop_first();
        let rb = b.drop_first();
        assert(class_of(a[0]) == class_of(b[0]));
        assert forall|k: int| 0 <= k < ra.len() implies class_of(#[trigger] ra[k]) == class_of(
            rb[k],
        ) by {
            assert(ra[k] == a[k + 1] && rb[k] == b[k + 1]);
        }
        if class_of(a[0]) == class {
            lemma_classes_decide(ra, rb, class, len + 1);
        } else {
            lemma_classes_decide(ra, rb, class_of(a[0]), 1);
        }
    }
}

/// The estimate of a text does not change when the ASCII case of its letters does.
pub proof fn law_case_does_not_matter(a: Seq<u8>, b: Seq<u8>)
    requires
        a.len() == b.len(),
        forall|k: int| 0 <= k < a.len() ==> same_but_for_case(#[trigger] a[k], b[k]),
    ensures
        HeuristicEstimator.tokens(a) == HeuristicEstimator.tokens(b),
{
    assert forall|k: int| 0 <= k < a.len() implies class_of(#[trigger] a[k]) == class_of(b[k]) by {
        assert(same_but_for_case(a[k], b[k]));
    }
    lemma_classes_decide(a, b, Class::Mark, 0);
}

/// What the models say of themselves: their frozen ids, and that they claim no saving where
/// there is none.
pub proof fn law_models_are_told_apart(cl100k: Cl100kEstimator, o200k: O200kEstimator)
    ensures
        HeuristicEstimator.id() == 0,
        ByteLenEstimator.id() == 1,
        cl100k.id() == 2,
        o200k.id() == 3,
        HeuristicEstimator.over_claim() == 0,
        ByteLenEstimator.over_claim() == 0,
        cl100k.over_claim() == 0,
        o200k.over_claim() == 0,
{
}

/// The byte model counts bytes: joining texts adds their counts, and a byte counts for one.
pub proof fn law_bytes_are_counted(a: Seq<u8>, b: Seq<u8>, byte: u8)
    ensures
        ByteLenEstimator.tokens(a + b) == ByteLenEstimator.tokens(a) + ByteLenEstimator.tokens(b),
        ByteLenEstimator.tokens(seq![byte]) == 1,
        ByteLenEstimator.rates(a),
{
}

/// Class of a byte.
fn class(b: u8) -> (class: Class)
    ensures
        class == class_of(b),
{
    if (ZERO <= b && b <= NINE) || (UPPER_A <= b && b <= UPPER_Z) || (LOWER_A <= b && b
        <= LOWER_Z) {
        Class::Word
    } else if b == SPACE || b == TAB || b == LF || b == FORM_FEED || b == CR {
        Class::Blank
    } else if b < 0x80 {
        Class::Mark
    } else {
        Class::Wide
    }
}

/// Tokens of a run of `len` alphanumeric characters.
pub fn alphanumeric_run_tokens(len: usize) -> (tokens: usize)
    ensures
        tokens == word_tokens(len as nat),
{
    let tenths: usize = match len.checked_mul(TENTHS_SCALE) {
        Some(tenths) => tenths,
        None => usize::MAX,
    };
    let whole: usize = tenths / ALPHANUMERIC_CHARS_PER_TOKEN_TENTHS;
    if tenths % ALPHANUMERIC_CHARS_PER_TOKEN_TENTHS == 0 {
        whole
    } else {
        whole + 1
    }
}

/// Tokens of a run of `len` whitespace characters.
pub fn whitespace_run_tokens(len: usize) -> (tokens: usize)
    ensures
        tokens == run_tokens(Class::Blank, len as nat),
{
    if len >= WHITESPACE_RUN_MIN_TOKENIZED {
        1
    } else {
        0
    }
}

/// Tokens of a run of non-ASCII characters that has `bytes` bytes.
pub fn non_ascii_run_tokens(bytes: usize) -> (tokens: usize)
    ensures
        tokens == run_tokens(Class::Wide, bytes as nat),
{
    let whole: usize = bytes / NON_ASCII_BYTES_PER_TOKEN;
    if bytes % NON_ASCII_BYTES_PER_TOKEN == 0 {
        whole
    } else {
        whole + 1
    }
}

/// Tokens of a run of `len` bytes of one class.
fn charge(class: Class, len: usize) -> (tokens: usize)
    ensures
        tokens == run_tokens(class, len as nat),
{
    match class {
        Class::Word => alphanumeric_run_tokens(len),
        Class::Blank => whitespace_run_tokens(len),
        Class::Mark => len * PUNCTUATION_TOKEN_WEIGHT,
        Class::Wide => non_ascii_run_tokens(len),
    }
}

/// The default cost model: a scanner that approximates a byte-pair tokenizer.
///
/// Runs of alphanumeric characters cost a token per 3.7 characters, rounded up; runs of two or
/// more whitespace characters cost one token and single ones nothing; other ASCII characters
/// cost one token each; runs of non-ASCII characters cost a token per two bytes, rounded up.
/// The numbers decide which encoder wins, so they are fixed.
#[derive(Debug, Clone, Copy)]
pub struct HeuristicEstimator;

impl Default for HeuristicEstimator {
    fn default() -> (estimator: Self)
        ensures
            estimator == HeuristicEstimator,
    {
        HeuristicEstimator
    }
}

impl TokenEstimator for HeuristicEstimator {
    open spec fn rates(&self, text: Seq<u8>) -> bool {
        true
    }

    open spec fn tokens(&self, text: Seq<u8>) -> nat {
        heuristic_tokens(text)
    }

    open spec fn id(&self) -> u16 {
        ids::HEURISTIC
    }

    open spec fn over_claim(&self) -> u32 {
        0
    }

    fn estimate(&self, text: &str) -> usize {
        let bytes = text.as_bytes();
        let n: usize = bytes.len();
        let mut total: usize = 0;
        let mut run_class: Class = Class::Mark;
        let mut run: usize = 0;
        let mut i: usize = 0;
        proof {
            assert(bytes@.skip(0) =~= bytes@);
        }
        while i < n
            invariant
                n == bytes@.len(),
                i <= n,
                run <= i,
                total + run <= i,
                heuristic_tokens(bytes@) == total + runs_cost(
                    bytes@.skip(i as int),
                    run_class,
                    run as nat,
                ),
            decreases n - i,
        {
            let here: Class = class(bytes[i]);
            proof {
                assert(bytes@.skip(i as int).drop_first() =~= bytes@.skip(i + 1));
                lemma_run_tokens(run_class, run as nat, run as nat);
            }
            if here == run_class {
                run = run + 1;
            } else {
                total = total + charge(run_class, run);
                run_class = here;
                run = 1;
            }
            i = i + 1;
        }
        proof {
            lemma_run_tokens(run_class, run as nat, run as nat);
        }
        total + charge(run_class, run)
    }

    fn tokenizer_id(&self) -> u16 {
        ids::HEURISTIC
    }

    fn over_claim_bps(&self) -> u32 {
        0
    }
}

impl CheckedEstimator for HeuristicEstimator {
    fn can_rate(&self, text: &str) -> bool {
        true
    }
}

/// A cost model that counts bytes.
///
/// A reference point and never the default: fewer bytes are not fewer tokens.
#[derive(Debug, Clone, Copy)]
pub struct ByteLenEstimator;

impl Default for ByteLenEstimator {
    fn default() -> (estimator: Self)
        ensures
            estimator == ByteLenEstimator,
    {
        ByteLenEstimator
    }
}

impl TokenEstimator for ByteLenEstimator {
    open spec fn rates(&self, text: Seq<u8>) -> bool {
        true
    }

    open spec fn tokens(&self, text: Seq<u8>) -> nat {
        text.len()
    }

    open spec fn id(&self) -> u16 {
        ids::BYTE_LEN
    }

    open spec fn over_claim(&self) -> u32 {
        0
    }

    fn estimate(&self, text: &str) -> usize {
        text.as_bytes().len()
    }

    fn tokenizer_id(&self) -> u16 {
        ids::BYTE_LEN
    }

    fn over_claim_bps(&self) -> u32 {
        0
    }
}

impl CheckedEstimator for ByteLenEstimator {
    fn can_rate(&self, text: &str) -> bool {
        true
    }
}

} // verus!
