//! Exact token counts of the GPT vocabularies, by the `tiktoken_rs` crate.
//!
//! These estimators count with a real byte-pair tokenizer, so a selection that they drive is
//! right for the models that use its vocabulary. Making one loads the vocabulary's tables,
//! which is why the heuristic is the default. They change which rendering is selected and the
//! id that is reported; an archive never depends on them.

use crate::estimator::{ids, CheckedEstimator, TokenEstimator};
use tiktoken_rs::CoreBPE;
use vstd::prelude::*;
use vstd::utf8::{decode_utf8, encode_utf8, encode_utf8_decode_utf8};

verus! {

/// `tiktoken_rs::CoreBPE`, a byte-pair tokenizer with its vocabulary.
#[verifier::external_type_specification]
#[verifier::external_body]
pub struct ExCoreBpe(CoreBPE);

/// `anyhow::Error`, with which `tiktoken_rs` reports that a vocabulary could not be loaded.
#[verifier::external_type_specification]
#[verifier::external_body]
pub struct ExAnyhowError(anyhow::Error);

/// The name of the vocabulary that a tokenizer holds.
pub uninterp spec fn bpe_vocabulary(bpe: CoreBPE) -> Seq<char>;

/// How many tokens a text has in a vocabulary.
pub uninterp spec fn bpe_tokens(vocabulary: Seq<char>, text: Seq<char>) -> nat;

/// How many characters, at most, one match may take while a text is split.
pub const RUN_LIMIT: usize = 999_900;

/// How many letters, at most, one match may take with the vocabulary `o200k_base`.
pub const O200K_LETTER_LIMIT: usize = 499_900;

/// The runs of which one match takes as much as there is: letters and combining marks;
/// punctuation and symbols, with the newlines and slashes after them; whitespace.
#[derive(Clone, Copy, PartialEq, Eq, Structural)]
pub enum Run {
    Letters,
    Marks,
    Spaces,
}

/// The characters with the Unicode property `White_Space`.
pub open spec fn white_space(v: u32) -> bool {
    ||| 0x09 <= v <= 0x0D
    ||| v == 0x20
    ||| v == 0x85
    ||| v == 0xA0
    ||| v == 0x1680
    ||| 0x2000 <= v <= 0x200A
    ||| v == 0x2028
    ||| v == 0x2029
    ||| v == 0x202F
    ||| v == 0x205F
    ||| v == 0x3000
}

/// Characters that are neither letters nor combining marks: those of ASCII and Latin-1,
/// punctuation, currency signs, symbols, and emoji.
pub open spec fn no_letter(v: u32) -> bool {
    ||| v <= 0x40
    ||| 0x5B <= v <= 0x60
    ||| 0x7B <= v <= 0xA9
    ||| 0x2000 <= v <= 0x206F
    ||| 0x20A0 <= v <= 0x20CF
    ||| 0x2190 <= v <= 0x2BFF
    ||| 0x3000 <= v <= 0x3004
    ||| 0x3008 <= v <= 0x3029
    ||| 0xFF01 <= v <= 0xFF20
    ||| 0x1F000 <= v <= 0x1FAFF
}

/// Characters that are letters or digits: those of ASCII, and of the Latin, Greek, Cyrillic,
/// Armenian, Hebrew, Arabic, Devanagari, Thai, Georgian, Japanese, Chinese and Korean blocks.
pub open spec fn alphanumeric(v: u32) -> bool {
    ||| 0x30 <= v <= 0x39
    ||| 0x41 <= v <= 0x5A
    ||| 0x61 <= v <= 0x7A
    ||| 0xC0 <= v <= 0xD6
    ||| 0xD8 <= v <= 0xF6
    ||| 0xF8 <= v <= 0x2C1
    ||| 0x391 <= v <= 0x3A1
    ||| 0x3A3 <= v <= 0x3F5
    ||| 0x3F7 <= v <= 0x481
    ||| 0x48A <= v <= 0x52F
    ||| 0x531 <= v <= 0x556
    ||| 0x560 <= v <= 0x588
    ||| 0x5D0 <= v <= 0x5EA
    ||| 0x620 <= v <= 0x64A
    ||| 0x671 <= v <= 0x6D3
    ||| 0x904 <= v <= 0x939
    ||| 0xE01 <= v <= 0xE30
    ||| 0x10D0 <= v <= 0x10FA
    ||| 0x1E00 <= v <= 0x1F15
    ||| 0x3041 <= v <= 0x3096
    ||| 0x30A1 <= v <= 0x30FA
    ||| 0x3400 <= v <= 0x4DBF
    ||| 0x4E00 <= v <= 0x9FFF
    ||| 0xAC00 <= v <= 0xD7A3
}

/// Whether a run ends before a character, wherever it stands.
pub open spec fn ends(run: Run, c: char) -> bool {
    let v = c as u32;
    match run {
        Run::Letters => no_letter(v),
        Run::Marks => alphanumeric(v) || (white_space(v) && v != 0x0A && v != 0x0D),
        Run::Spaces => !white_space(v),
    }
}

/// Whether a run that begins at `i` ends within `limit` characters. What its first character
/// is does not count: a match may begin with one of another kind.
pub open spec fn ends_within(text: Seq<char>, i: int, limit: int, run: Run) -> bool {
    exists|k: int| i < k < i + limit && ends(run, #[trigger] text[k])
}

/// Whether no run goes on for `limit` characters.
pub open spec fn broken(text: Seq<char>, limit: int, run: Run) -> bool {
    forall|i: int| 0 <= i && i + limit <= text.len() ==> #[trigger] ends_within(text, i, limit, run)
}

/// Whether no run of a text is too long for it to be split, where `letters` is the limit for
/// letters.
pub open spec fn splittable(text: Seq<char>, letters: int) -> bool {
    &&& broken(text, letters, Run::Letters)
    &&& broken(text, RUN_LIMIT as int, Run::Marks)
    &&& broken(text, RUN_LIMIT as int, Run::Spaces)
}

/// Whether a text, given by its UTF-8 bytes, can be split into tokens: it is short, or has no
/// run that is too long.
pub open spec fn countable(text: Seq<u8>, letters: int) -> bool {
    text.len() < letters || splittable(decode_utf8(text), letters)
}

/// A character takes a byte at least.
proof fn lemma_encoded_length(text: Seq<char>)
    ensures
        text.len() <= encode_utf8(text).len(),
    decreases text.len(),
{
    if text.len() > 0 {
        lemma_encoded_length(text.drop_first());
    }
}

proof fn lemma_countable(text: Seq<char>, letters: int)
    requires
        letters <= RUN_LIMIT,
    ensures
        decode_utf8(encode_utf8(text)) == text,
        countable(encode_utf8(text), letters) == splittable(text, letters),
{
    encode_utf8_decode_utf8(text);
    lemma_encoded_length(text);
}

/// Whether a run ends before a character.
fn ends_run(run: Run, c: char) -> (yes: bool)
    ensures
        yes == ends(run, c),
{
    let v: u32 = c as u32;
    match run {
        Run::Letters => v <= 0x40 || (0x5B <= v && v <= 0x60) || (0x7B <= v && v <= 0xA9) || (0x2000
            <= v && v <= 0x206F) || (0x20A0 <= v && v <= 0x20CF) || (0x2190 <= v && v <= 0x2BFF)
            || (0x3000 <= v && v <= 0x3004) || (0x3008 <= v && v <= 0x3029) || (0xFF01 <= v && v
            <= 0xFF20) || (0x1F000 <= v && v <= 0x1FAFF),
        Run::Marks => is_alphanumeric(v) || (is_white_space(v) && v != 0x0A && v != 0x0D),
        Run::Spaces => !is_white_space(v),
    }
}

fn is_white_space(v: u32) -> (yes: bool)
    ensures
        yes == white_space(v),
{
    (0x09 <= v && v <= 0x0D) || v == 0x20 || v == 0x85 || v == 0xA0 || v == 0x1680 || (0x2000 <= v
        && v <= 0x200A) || v == 0x2028 || v == 0x2029 || v == 0x202F || v == 0x205F || v == 0x3000
}

fn is_alphanumeric(v: u32) -> (yes: bool)
    ensures
        yes == alphanumeric(v),
{
    (0x30 <= v && v <= 0x39) || (0x41 <= v && v <= 0x5A) || (0x61 <= v && v <= 0x7A) || (0xC0 <= v
        && v <= 0xD6) || (0xD8 <= v && v <= 0xF6) || (0xF8 <= v && v <= 0x2C1) || (0x391 <= v && v
        <= 0x3A1) || (0x3A3 <= v && v <= 0x3F5) || (0x3F7 <= v && v <= 0x481) || (0x48A <= v && v
        <= 0x52F) || (0x531 <= v && v <= 0x556) || (0x560 <= v && v <= 0x588) || (0x5D0 <= v && v
        <= 0x5EA) || (0x620 <= v && v <= 0x64A) || (0x671 <= v && v <= 0x6D3) || (0x904 <= v && v
        <= 0x939) || (0xE01 <= v && v <= 0xE30) || (0x10D0 <= v && v <= 0x10FA) || (0x1E00 <= v && v
        <= 0x1F15) || (0x3041 <= v && v <= 0x3096) || (0x30A1 <= v && v <= 0x30FA) || (0x3400 <= v
        && v <= 0x4DBF) || (0x4E00 <= v && v <= 0x9FFF) || (0xAC00 <= v && v <= 0xD7A3)
}

/// Whether the `n` characters before `read` end no run, and are not the last of more such.
spec fn going(text: Seq<char>, read: int, n: int, run: Run) -> bool {
    &&& 0 <= n <= read <= text.len()
    &&& forall|k: int| read - n <= k < read ==> !ends(run, #[trigger] text[k])
    &&& n < read ==> ends(run, text[read - n - 1])
}

/// Whether no run of `text` goes on for `limit` characters.
fn runs_end(text: &str, limit: usize, run: Run) -> (ok: bool)
    requires
        limit > 0,
    ensures
        ok == broken(text@, limit as int, run),
{
    let bytes: usize = text.as_bytes().len();
    proof {
        lemma_encoded_length(text@);
    }
    let mut read: usize = 0;
    let mut since: usize = 0;
    for c in iter: text.chars()
        invariant
            iter.seq() == text@,
            read == iter.index(),
            text@.len() <= bytes,
            limit > 0,
            going(text@, read as int, since as int, run),
            forall|i: int|
                0 <= i && i + limit <= read ==> #[trigger] ends_within(
                    text@,
                    i,
                    limit as int,
                    run,
                ),
    {
        proof {
            assert(c == text@[read as int]);
        }
        if ends_run(run, c) {
            since = 0;
        } else {
            since = since + 1;
        }
        read = read + 1;
        if read >= limit {
            let ghost start = read - limit;
            if since >= limit - 1 {
                proof {
                    assert(!ends_within(text@, start, limit as int, run));
                }
                return false;
            }
            proof {
                assert(ends(run, text@[read - since - 1]));
                assert(ends_within(text@, start, limit as int, run));
            }
        }
    }
    true
}

/// Whether `text` can be split into tokens, where `letters` is the limit for letters.
pub fn can_count(text: &str, letters: usize) -> (ok: bool)
    requires
        0 < letters <= RUN_LIMIT,
    ensures
        ok == countable(encode_utf8(text@), letters as int),
{
    proof {
        lemma_countable(text@, letters as int);
    }
    runs_end(text, letters, Run::Letters) && runs_end(text, RUN_LIMIT, Run::Marks) && runs_end(
        text,
        RUN_LIMIT,
        Run::Spaces,
    )
}

/// The limit for letters with a vocabulary.
pub open spec fn letter_limit(vocabulary: Seq<char>) -> int {
    if vocabulary == "cl100k_base"@ {
        RUN_LIMIT as int
    } else {
        O200K_LETTER_LIMIT as int
    }
}

proof fn lemma_vocabularies_differ()
    ensures
        "cl100k_base"@ != "o200k_base"@,
{
    reveal_strlit("cl100k_base");
    reveal_strlit("o200k_base");
    assert("cl100k_base"@.len() == 11);
    assert("o200k_base"@.len() == 10);
}

/// `tiktoken_rs::cl100k_base` loads the vocabulary `cl100k_base`, which GPT-3.5 and GPT-4 use.
/// It reads a table and a pattern that are part of the crate and well formed, so it succeeds.
#[verifier::external_body]
pub(crate) fn load_cl100k() -> (bpe: Result<CoreBPE, anyhow::Error>)
    ensures
        bpe is Ok,
        bpe_vocabulary(bpe->Ok_0) == "cl100k_base"@,
{
    tiktoken_rs::cl100k_base()
}

/// `tiktoken_rs::o200k_base` loads the vocabulary `o200k_base`, which GPT-4o uses. It reads a
/// table and a pattern that are part of the crate and well formed, so it succeeds.
#[verifier::external_body]
pub(crate) fn load_o200k() -> (bpe: Result<CoreBPE, anyhow::Error>)
    ensures
        bpe is Ok,
        bpe_vocabulary(bpe->Ok_0) == "o200k_base"@,
{
    tiktoken_rs::o200k_base()
}

/// `CoreBPE::encode_ordinary` splits a text into tokens as plain content: text that looks like
/// a special token is split like any other. How many tokens come out depends on the vocabulary
/// and the text alone, and the empty text has none.
///
/// The split is by a regular expression that backtracks. A match of a run of letters, of
/// punctuation or of whitespace puts an entry on a stack for each character. With `cl100k_base`
/// it then takes at most one step back for each; with `o200k_base` it may take two for each
/// letter. At a million entries, or a million steps, the call panics. No match of a splittable
/// text comes near.
#[verifier::external_body]
pub(crate) fn count(bpe: &CoreBPE, text: &str) -> (tokens: usize)
    requires
        bpe_vocabulary(*bpe) == "cl100k_base"@ || bpe_vocabulary(*bpe) == "o200k_base"@,
        splittable(text@, letter_limit(bpe_vocabulary(*bpe))),
    ensures
        tokens == bpe_tokens(bpe_vocabulary(*bpe), text@),
        text@.len() == 0 ==> tokens == 0,
{
    bpe.encode_ordinary(text).len()
}

/// `ToString::to_string` on an `anyhow::Error` gives its message. Nothing is said of the
/// wording.
#[verifier::external_body]
pub(crate) fn error_text(error: &anyhow::Error) -> (text: String) {
    error.to_string()
}

/// A tokenizer's tables could not be loaded.
///
/// Loading is the only step that can fail: an estimator that exists can estimate.
#[derive(Debug)]
pub struct TokenizerLoadError {
    tokenizer: &'static str,
    message: String,
}

impl TokenizerLoadError {
    /// The name of the tokenizer that could not be loaded.
    pub closed spec fn tokenizer(&self) -> Seq<char> {
        self.tokenizer@
    }

    /// The reason that was given.
    pub closed spec fn reason(&self) -> Seq<char> {
        self.message@
    }

    /// What to tell a user.
    pub fn message(&self) -> (text: String)
        ensures
            text@ == "failed to load the "@ + self.tokenizer() + " tokenizer: "@ + self.reason(),
    {
        let mut text = String::new();
        text.append("failed to load the ");
        text.append(self.tokenizer);
        text.append(" tokenizer: ");
        text.append(self.message.as_str());
        proof {
            assert(Seq::<char>::empty() + "failed to load the "@ =~= "failed to load the "@);
        }
        text
    }
}

/// A loaded tokenizer, or the error that names the one that could not be loaded.
pub fn loaded(tokenizer: &'static str, bpe: Result<CoreBPE, anyhow::Error>) -> (r: Result<
    CoreBPE,
    TokenizerLoadError,
>)
    ensures
        match bpe {
            Ok(b) => r == Ok::<CoreBPE, TokenizerLoadError>(b),
            Err(_) => r matches Err(e) && e.tokenizer() == tokenizer@,
        },
{
    match bpe {
        Ok(b) => Ok(b),
        Err(e) => Err(TokenizerLoadError { tokenizer, message: error_text(&e) }),
    }
}

/// The exact tokenizer `cl100k_base`, which GPT-3.5 and GPT-4 use.
pub struct Cl100kEstimator {
    bpe: CoreBPE,
}

impl Cl100kEstimator {
    #[verifier::type_invariant]
    spec fn well_formed(self) -> bool {
        bpe_vocabulary(self.bpe) == "cl100k_base"@
    }

    /// Load the tokenizer's tables.
    pub fn new() -> (r: Result<Self, TokenizerLoadError>)
        ensures
            r is Ok,
    {
        match loaded("cl100k_base", load_cl100k()) {
            Ok(bpe) => Ok(Self { bpe }),
            Err(e) => Err(e),
        }
    }
}

impl TokenEstimator for Cl100kEstimator {
    open spec fn rates(&self, text: Seq<u8>) -> bool {
        countable(text, RUN_LIMIT as int)
    }

    open spec fn tokens(&self, text: Seq<u8>) -> nat {
        bpe_tokens("cl100k_base"@, decode_utf8(text))
    }

    open spec fn id(&self) -> u16 {
        ids::CL100K_BASE
    }

    open spec fn over_claim(&self) -> u32 {
        0
    }

    fn estimate(&self, text: &str) -> usize {
        proof {
            use_type_invariant(self);
            lemma_countable(text@, RUN_LIMIT as int);
        }
        count(&self.bpe, text)
    }

    fn tokenizer_id(&self) -> u16 {
        ids::CL100K_BASE
    }

    fn over_claim_bps(&self) -> u32 {
        0
    }
}

impl CheckedEstimator for Cl100kEstimator {
    fn can_rate(&self, text: &str) -> bool {
        can_count(text, RUN_LIMIT)
    }
}

/// The exact tokenizer `o200k_base`, which GPT-4o uses.
pub struct O200kEstimator {
    bpe: CoreBPE,
}

impl O200kEstimator {
    #[verifier::type_invariant]
    spec fn well_formed(self) -> bool {
        bpe_vocabulary(self.bpe) == "o200k_base"@
    }

    /// Load the tokenizer's tables.
    pub fn new() -> (r: Result<Self, TokenizerLoadError>)
        ensures
            r is Ok,
    {
        match loaded("o200k_base", load_o200k()) {
            Ok(bpe) => Ok(Self { bpe }),
            Err(e) => Err(e),
        }
    }
}

impl TokenEstimator for O200kEstimator {
    open spec fn rates(&self, text: Seq<u8>) -> bool {
        countable(text, O200K_LETTER_LIMIT as int)
    }

    open spec fn tokens(&self, text: Seq<u8>) -> nat {
        bpe_tokens("o200k_base"@, decode_utf8(text))
    }

    open spec fn id(&self) -> u16 {
        ids::O200K_BASE
    }

    open spec fn over_claim(&self) -> u32 {
        0
    }

    fn estimate(&self, text: &str) -> usize {
        proof {
            use_type_invariant(self);
            lemma_countable(text@, O200K_LETTER_LIMIT as int);
            lemma_vocabularies_differ();
        }
        count(&self.bpe, text)
    }

    fn tokenizer_id(&self) -> u16 {
        ids::O200K_BASE
    }

    fn over_claim_bps(&self) -> u32 {
        0
    }
}

impl CheckedEstimator for O200kEstimator {
    fn can_rate(&self, text: &str) -> bool {
        can_count(text, O200K_LETTER_LIMIT)
    }
}

/// An exact model counts what the tokenizer of its vocabulary does, whatever the text, and can
/// rate every text that is shorter than its limit.
pub proof fn law_exact_models_count(
    cl100k: Cl100kEstimator,
    o200k: O200kEstimator,
    text: Seq<char>,
)
    ensures
        cl100k.tokens(encode_utf8(text)) == bpe_tokens("cl100k_base"@, text),
        o200k.tokens(encode_utf8(text)) == bpe_tokens("o200k_base"@, text),
        text.len() < 999_900 ==> cl100k.rates(encode_utf8(text)),
        text.len() < 499_900 ==> o200k.rates(encode_utf8(text)),
{
    lemma_countable(text, 999_900);
    lemma_countable(text, 499_900);
}

/// Whether a decimal digit stands among the thousand characters from `i` on, the first apart.
pub open spec fn digit_follows(text: Seq<char>, i: int) -> bool {
    exists|k: int| i < k < i + 1000 && '0' <= #[trigger] text[k] <= '9'
}

/// A text of any length can be rated if a decimal digit stands among every thousand
/// characters of it: a digit ends every run.
pub proof fn law_digits_end_runs(cl100k: Cl100kEstimator, o200k: O200kEstimator, text: Seq<char>)
    requires
        forall|i: int| 0 <= i && i + 1000 <= text.len() ==> #[trigger] digit_follows(text, i),
    ensures
        cl100k.rates(encode_utf8(text)),
        o200k.rates(encode_utf8(text)),
{
    lemma_countable(text, 999_900);
    lemma_countable(text, 499_900);
    assert forall|run: Run, limit: int| limit >= 1000 implies #[trigger] broken(
        text,
        limit,
        run,
    ) by {
        assert forall|i: int| 0 <= i && i + limit <= text.len() implies #[trigger] ends_within(
            text,
            i,
            limit,
            run,
        ) by {
            assert(digit_follows(text, i));
            let k = choose|k: int| i < k < i + 1000 && '0' <= #[trigger] text[k] <= '9';
            assert(ends(run, text[k]));
        }
    }
}

} // verus!
