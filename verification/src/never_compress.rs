//! Versioned list of lines that must survive compression verbatim.
//!
//! Some lines carry more value than their token cost: a compiler error, an HTTP `4xx` or
//! `5xx` status, an `EACCES`, a panic trace, a certificate failure. This module names them so
//! that the encoders can leave them untouched.
//!
//! Matching is a literal substring test, never a regular expression, so it is a bounded scan
//! of the line. Case folding is ASCII-only, which suffices because every literal is ASCII: a
//! byte of a multi-byte character never equals an ASCII byte under it.
//!
//! The minifier is the only encoder that consults this table, on each JSON string lexeme,
//! quotes and escapes included. This is a fidelity safeguard, not a security control.

use crate::estimator::same_but_for_case;
use vstd::prelude::*;
use vstd::utf8::encode_utf8;

verus! {

/// Version of the rule table. Changing which lines are protected changes compressor output.
pub const LIST_VERSION: u32 = 1;

/// One entry of the table. A line matches when [`literal`](Self::literal) occurs in it,
/// compared ASCII-case-insensitively unless [`case_sensitive`](Self::case_sensitive) is set.
#[derive(Debug, Clone, Copy, PartialEq, Eq)]
#[non_exhaustive]
pub struct NeverCompressRule {
    /// Semantic category, for auditing; carries no matching behaviour.
    pub class: &'static str,
    /// The fixed substring to search for.
    pub literal: &'static str,
    /// When `true`, match byte for byte; when `false`, fold ASCII case.
    pub case_sensitive: bool,
}

/// A byte with an ASCII upper-case letter replaced by its lower-case form.
pub open spec fn fold(b: u8) -> u8 {
    if 0x41 <= b <= 0x5A {
        (b + 0x20) as u8
    } else {
        b
    }
}

/// Whether two bytes are the same, up to ASCII case unless `exact`.
pub open spec fn same_letter(a: u8, b: u8, exact: bool) -> bool {
    if exact {
        a == b
    } else {
        fold(a) == fold(b)
    }
}

/// Whether `needle` stands in `hay` at offset `at`.
pub open spec fn stands_at(hay: Seq<u8>, needle: Seq<u8>, exact: bool, at: int) -> bool {
    &&& 0 <= at
    &&& at + needle.len() <= hay.len()
    &&& forall|k: int|
        #![trigger needle[k]]
        0 <= k < needle.len() ==> same_letter(hay[at + k], needle[k], exact)
}

/// Whether `needle` occurs in `hay`.
pub open spec fn occurs(hay: Seq<u8>, needle: Seq<u8>, exact: bool) -> bool {
    exists|at: int| stands_at(hay, needle, exact, at)
}

impl NeverCompressRule {
    /// Whether the rule's literal occurs in a line, given by its UTF-8 bytes.
    pub open spec fn applies(self, line: Seq<u8>) -> bool {
        occurs(line, encode_utf8(self.literal@), self.case_sensitive)
    }

    /// Whether this rule's literal occurs in `line` under the rule's case policy.
    pub fn matches_line(&self, line: &str) -> (hit: bool)
        ensures
            hit == self.applies(encode_utf8(line@)),
    {
        contains(line.as_bytes(), self.literal.as_bytes(), self.case_sensitive)
    }
}

pub open spec fn rule(
    class: &'static str,
    literal: &'static str,
    case_sensitive: bool,
) -> NeverCompressRule {
    NeverCompressRule { class, literal, case_sensitive }
}

/// The rule table, ordered by class.
pub open spec fn rule_table() -> Seq<NeverCompressRule> {
    seq![
        // compiler and build errors
        rule("compiler", "error[", false),
        rule("compiler", "error:", false),
        rule("compiler", "error TS", false),
        // HTTP 4xx/5xx status lines
        rule("http-status", "400 Bad Request", false),
        rule("http-status", "401 Unauthorized", false),
        rule("http-status", "403 Forbidden", false),
        rule("http-status", "404 Not Found", false),
        rule("http-status", "405 Method Not Allowed", false),
        rule("http-status", "408 Request Timeout", false),
        rule("http-status", "409 Conflict", false),
        rule("http-status", "410 Gone", false),
        rule("http-status", "422 Unprocessable", false),
        rule("http-status", "429 Too Many Requests", false),
        rule("http-status", "500 Internal Server Error", false),
        rule("http-status", "501 Not Implemented", false),
        rule("http-status", "502 Bad Gateway", false),
        rule("http-status", "503 Service Unavailable", false),
        rule("http-status", "504 Gateway Timeout", false),
        // errno symbols of the access family
        rule("errno", "EACCES", true),
        rule("errno", "EPERM", true),
        rule("errno", "EROFS", true),
        // panic traces
        rule("panic", "panicked at", false),
        rule("panic", "panic:", false),
        // stack traces
        rule("stack-trace", "Traceback (most recent call last)", false),
        rule("stack-trace", "stack backtrace:", false),
        rule("stack-trace", "goroutine ", false),
        // denial
        rule("denial", "denied", false),
        // authorization
        rule("authz", "unauthorized", false),
        rule("authz", "forbidden", false),
        // certificate and TLS failures
        rule("certificate", "certificate verify failed", false),
        rule("certificate", "certificate verification failed", false),
        rule("certificate", "certificate has expired", false),
        rule("certificate", "certificate is not valid", false),
        rule("certificate", "self-signed certificate", false),
        rule("certificate", "self signed certificate", false),
        rule("certificate", "unable to get local issuer certificate", false),
        rule("certificate", "SSL certificate problem", false),
        rule("certificate", "x509: certificate", false),
        rule("certificate", "tls: bad certificate", false),
        // warnings
        rule("warning", "warning:", false),
    ]
}

/// The first rule of the table from the `i`-th on that applies to a line.
pub open spec fn first_rule(line: Seq<u8>, i: int) -> Option<NeverCompressRule>
    decreases rule_table().len() - i,
{
    if i >= rule_table().len() {
        None
    } else if rule_table()[i].applies(line) {
        Some(rule_table()[i])
    } else {
        first_rule(line, i + 1)
    }
}

/// Whether a line, given by its UTF-8 bytes, must survive verbatim.
pub open spec fn protected(line: Seq<u8>) -> bool {
    exists|i: int| 0 <= i < rule_table().len() && (#[trigger] rule_table()[i]).applies(line)
}

/// The full rule table, for auditing and grouping by class. There is one table: a rule that
/// [`is_protected`] gives is one of these.
#[inline(never)]
pub fn rules() -> (table: &'static [NeverCompressRule])
    ensures
        table@ == rule_table(),
{
    let table: &'static [NeverCompressRule] = &[
        // compiler and build errors
        NeverCompressRule { class: "compiler", literal: "error[", case_sensitive: false },
        NeverCompressRule { class: "compiler", literal: "error:", case_sensitive: false },
        NeverCompressRule { class: "compiler", literal: "error TS", case_sensitive: false },
        // HTTP 4xx/5xx status lines
        NeverCompressRule { class: "http-status", literal: "400 Bad Request", case_sensitive: false },
        NeverCompressRule { class: "http-status", literal: "401 Unauthorized", case_sensitive: false },
        NeverCompressRule { class: "http-status", literal: "403 Forbidden", case_sensitive: false },
        NeverCompressRule { class: "http-status", literal: "404 Not Found", case_sensitive: false },
        NeverCompressRule { class: "http-status", literal: "405 Method Not Allowed", case_sensitive: false },
        NeverCompressRule { class: "http-status", literal: "408 Request Timeout", case_sensitive: false },
        NeverCompressRule { class: "http-status", literal: "409 Conflict", case_sensitive: false },
        NeverCompressRule { class: "http-status", literal: "410 Gone", case_sensitive: false },
        NeverCompressRule { class: "http-status", literal: "422 Unprocessable", case_sensitive: false },
        NeverCompressRule { class: "http-status", literal: "429 Too Many Requests", case_sensitive: false },
        NeverCompressRule { class: "http-status", literal: "500 Internal Server Error", case_sensitive: false },
        NeverCompressRule { class: "http-status", literal: "501 Not Implemented", case_sensitive: false },
        NeverCompressRule { class: "http-status", literal: "502 Bad Gateway", case_sensitive: false },
        NeverCompressRule { class: "http-status", literal: "503 Service Unavailable", case_sensitive: false },
        NeverCompressRule { class: "http-status", literal: "504 Gateway Timeout", case_sensitive: false },
        // errno symbols of the access family
        NeverCompressRule { class: "errno", literal: "EACCES", case_sensitive: true },
        NeverCompressRule { class: "errno", literal: "EPERM", case_sensitive: true },
        NeverCompressRule { class: "errno", literal: "EROFS", case_sensitive: true },
        // panic traces
        NeverCompressRule { class: "panic", literal: "panicked at", case_sensitive: false },
        NeverCompressRule { class: "panic", literal: "panic:", case_sensitive: false },
        // stack traces
        NeverCompressRule { class: "stack-trace", literal: "Traceback (most recent call last)", case_sensitive: false },
        NeverCompressRule { class: "stack-trace", literal: "stack backtrace:", case_sensitive: false },
        NeverCompressRule { class: "stack-trace", literal: "goroutine ", case_sensitive: false },
        // denial
        NeverCompressRule { class: "denial", literal: "denied", case_sensitive: false },
        // authorization
        NeverCompressRule { class: "authz", literal: "unauthorized", case_sensitive: false },
        NeverCompressRule { class: "authz", literal: "forbidden", case_sensitive: false },
        // certificate and TLS failures
        NeverCompressRule { class: "certificate", literal: "certificate verify failed", case_sensitive: false },
        NeverCompressRule { class: "certificate", literal: "certificate verification failed", case_sensitive: false },
        NeverCompressRule { class: "certificate", literal: "certificate has expired", case_sensitive: false },
        NeverCompressRule { class: "certificate", literal: "certificate is not valid", case_sensitive: false },
        NeverCompressRule { class: "certificate", literal: "self-signed certificate", case_sensitive: false },
        NeverCompressRule { class: "certificate", literal: "self signed certificate", case_sensitive: false },
        NeverCompressRule { class: "certificate", literal: "unable to get local issuer certificate", case_sensitive: false },
        NeverCompressRule { class: "certificate", literal: "SSL certificate problem", case_sensitive: false },
        NeverCompressRule { class: "certificate", literal: "x509: certificate", case_sensitive: false },
        NeverCompressRule { class: "certificate", literal: "tls: bad certificate", case_sensitive: false },
        // warnings
        NeverCompressRule { class: "warning", literal: "warning:", case_sensitive: false },
    ];
    proof {
        assert(table@ =~= rule_table());
    }
    table
}

/// The rule protecting `line`, or `None` if the line is compressible. When several rules
/// apply, the first in table order is returned.
pub fn is_protected(line: &str) -> (hit: Option<&'static NeverCompressRule>)
    ensures
        match hit {
            Some(r) => first_rule(encode_utf8(line@), 0) == Some(*r),
            None => first_rule(encode_utf8(line@), 0) is None,
        },
        hit is Some == protected(encode_utf8(line@)),
{
    let table = rules();
    let ghost text = encode_utf8(line@);
    let mut i: usize = 0;
    while i < table.len()
        invariant
            table@ == rule_table(),
            text == encode_utf8(line@),
            i <= table@.len(),
            first_rule(text, 0) == first_rule(text, i as int),
            forall|k: int| 0 <= k < i ==> !(#[trigger] rule_table()[k]).applies(text),
        decreases table@.len() - i,
    {
        if table[i].matches_line(line) {
            return Some(&table[i]);
        }
        i = i + 1;
    }
    None
}

/// ASCII-case-insensitive substring test.
pub fn contains_ascii_case_insensitive(haystack: &str, needle: &str) -> (found: bool)
    ensures
        found == occurs(encode_utf8(haystack@), encode_utf8(needle@), false),
{
    contains(haystack.as_bytes(), needle.as_bytes(), false)
}

/// Substring test on bytes, folding ASCII case unless `exact`.
fn contains(hay: &[u8], need: &[u8], exact: bool) -> (found: bool)
    ensures
        found == occurs(hay@, need@, exact),
{
    if need.len() > hay.len() {
        return false;
    }
    let last_start: usize = hay.len() - need.len();
    let mut start: usize = 0;
    loop
        invariant
            last_start + need@.len() == hay@.len() <= usize::MAX,
            start <= last_start,
            forall|at: int| 0 <= at < start ==> !stands_at(hay@, need@, exact, at),
        decreases last_start - start,
    {
        if window_matches(hay, need, exact, start) {
            return true;
        }
        if start == last_start {
            return false;
        }
        start = start + 1;
    }
}

/// Whether `need` stands in `hay` at `start`.
fn window_matches(hay: &[u8], need: &[u8], exact: bool, start: usize) -> (same: bool)
    requires
        start + need@.len() <= hay@.len(),
    ensures
        same == stands_at(hay@, need@, exact, start as int),
{
    let end: usize = hay.len();
    let mut k: usize = 0;
    while k < need.len()
        invariant
            start + need@.len() <= hay@.len(),
            hay@.len() == end,
            k <= need@.len(),
            forall|j: int|
                #![trigger need@[j]]
                0 <= j < k ==> same_letter(hay@[start + j], need@[j], exact),
        decreases need@.len() - k,
    {
        let same = if exact {
            hay[start + k] == need[k]
        } else {
            fold_byte(hay[start + k]) == fold_byte(need[k])
        };
        if !same {
            return false;
        }
        k = k + 1;
    }
    true
}

/// A byte with an ASCII upper-case letter replaced by its lower-case form.
fn fold_byte(b: u8) -> (r: u8)
    ensures
        r == fold(b),
{
    if 0x41 <= b && b <= 0x5A {
        b + 0x20
    } else {
        b
    }
}

// ---------------------------------------------------------------------------
// Laws
// ---------------------------------------------------------------------------

/// The reported rule is the first of the table that applies: no earlier one does.
pub proof fn law_first_rule_wins(line: Seq<u8>, i: int)
    requires
        0 <= i < rule_table().len(),
        rule_table()[i].applies(line),
        forall|k: int| 0 <= k < i ==> !(#[trigger] rule_table()[k]).applies(line),
    ensures
        first_rule(line, 0) == Some(rule_table()[i]),
{
    lemma_first_rule_from(line, 0, i);
}

proof fn lemma_first_rule_from(line: Seq<u8>, from: int, i: int)
    requires
        0 <= from <= i < rule_table().len(),
        rule_table()[i].applies(line),
        forall|k: int| from <= k < i ==> !(#[trigger] rule_table()[k]).applies(line),
    ensures
        first_rule(line, from) == Some(rule_table()[i]),
    decreases i - from,
{
    if from < i {
        assert(!rule_table()[from].applies(line));
        lemma_first_rule_from(line, from + 1, i);
    }
}

/// Any line that holds a rule's literal as written is protected, wherever it stands.
pub proof fn law_literal_protects(i: int, before: Seq<u8>, after: Seq<u8>)
    requires
        0 <= i < rule_table().len(),
    ensures
        protected(before + encode_utf8(rule_table()[i].literal@) + after),
{
    let r = rule_table()[i];
    let literal = encode_utf8(r.literal@);
    let line = before + literal + after;
    assert(stands_at(line, literal, r.case_sensitive, before.len() as int));
    assert(r.applies(line));
}

/// Whether a word stands in a line as it is.
pub open spec fn stands_exactly(word: Seq<u8>, line: Seq<u8>) -> bool {
    exists|before: Seq<u8>, after: Seq<u8>| line == #[trigger] (before + word + after)
}

/// Whether a word stands in a line but for the ASCII case of its letters.
pub open spec fn stands_folded(word: Seq<u8>, line: Seq<u8>) -> bool {
    exists|before: Seq<u8>, written: Seq<u8>, after: Seq<u8>|
        written.len() == word.len() && (forall|k: int|
            0 <= k < word.len() ==> same_but_for_case(written[k], #[trigger] word[k])) && line
            == #[trigger] (before + written + after)
}

/// What a search finds: the word as it is if case counts, else the word in letters of either
/// ASCII case; and nothing else.
#[verifier::spinoff_prover]
#[verifier::rlimit(40)]
pub proof fn law_search_finds(line: Seq<u8>, word: Seq<u8>)
    ensures
        occurs(line, word, true) <==> stands_exactly(word, line),
        occurs(line, word, false) <==> stands_folded(word, line),
{
    if occurs(line, word, true) {
        let at = choose|at: int| stands_at(line, word, true, at);
        let before = line.take(at);
        let after = line.skip(at + word.len());
        assert forall|k: int| 0 <= k < word.len() implies line[at + k] == word[k] by {}
        assert(line =~= before + word + after);
    }
    if stands_exactly(word, line) {
        let (before, after) = choose|before: Seq<u8>, after: Seq<u8>|
            line == #[trigger] (before + word + after);
        assert(stands_at(line, word, true, before.len() as int));
    }
    if occurs(line, word, false) {
        let at = choose|at: int| stands_at(line, word, false, at);
        let before = line.take(at);
        let written = line.subrange(at, at + word.len());
        let after = line.skip(at + word.len());
        assert forall|k: int| 0 <= k < word.len() implies same_but_for_case(
            written[k],
            #[trigger] word[k],
        ) by {
            assert(same_letter(line[at + k], word[k], false));
        }
        assert(line =~= before + written + after);
    }
    if stands_folded(word, line) {
        let (before, written, after) = choose|before: Seq<u8>, written: Seq<u8>, after: Seq<u8>|
            written.len() == word.len() && (forall|k: int|
                0 <= k < word.len() ==> same_but_for_case(written[k], #[trigger] word[k])) && line
                == #[trigger] (before + written + after);
        let at = before.len() as int;
        assert forall|k: int| #![trigger word[k]] 0 <= k < word.len() implies same_letter(
            line[at + k],
            word[k],
            false,
        ) by {
            assert(line[at + k] == written[k]);
            assert(same_but_for_case(written[k], word[k]));
        }
        assert(stands_at(line, word, false, at));
    }
}

proof fn lemma_rule_protects(i: int, line: Seq<u8>)
    requires
        0 <= i < rule_table().len(),
    ensures
        ({
            let r = rule_table()[i];
            if r.case_sensitive {
                stands_exactly(encode_utf8(r.literal@), line) ==> protected(line)
            } else {
                stands_folded(encode_utf8(r.literal@), line) ==> protected(line)
            }
        }),
{
    let r = rule_table()[i];
    law_search_finds(line, encode_utf8(r.literal@));
    if r.applies(line) {
        assert(rule_table()[i].applies(line));
    }
}

/// The lines that must survive: those in which one of these words stands, the errno symbols in
/// upper case, the others in letters of either case.
#[verifier::spinoff_prover]
#[verifier::rlimit(40)]
pub proof fn law_protected_words(line: Seq<u8>)
    ensures
        stands_folded(encode_utf8("error["@), line) ==> protected(line),
        stands_folded(encode_utf8("error:"@), line) ==> protected(line),
        stands_folded(encode_utf8("error TS"@), line) ==> protected(line),
        stands_folded(encode_utf8("400 Bad Request"@), line) ==> protected(line),
        stands_folded(encode_utf8("401 Unauthorized"@), line) ==> protected(line),
        stands_folded(encode_utf8("403 Forbidden"@), line) ==> protected(line),
        stands_folded(encode_utf8("404 Not Found"@), line) ==> protected(line),
        stands_folded(encode_utf8("405 Method Not Allowed"@), line) ==> protected(line),
        stands_folded(encode_utf8("408 Request Timeout"@), line) ==> protected(line),
        stands_folded(encode_utf8("409 Conflict"@), line) ==> protected(line),
        stands_folded(encode_utf8("410 Gone"@), line) ==> protected(line),
        stands_folded(encode_utf8("422 Unprocessable"@), line) ==> protected(line),
        stands_folded(encode_utf8("429 Too Many Requests"@), line) ==> protected(line),
        stands_folded(encode_utf8("500 Internal Server Error"@), line) ==> protected(line),
        stands_folded(encode_utf8("501 Not Implemented"@), line) ==> protected(line),
        stands_folded(encode_utf8("502 Bad Gateway"@), line) ==> protected(line),
        stands_folded(encode_utf8("503 Service Unavailable"@), line) ==> protected(line),
        stands_folded(encode_utf8("504 Gateway Timeout"@), line) ==> protected(line),
        stands_folded(encode_utf8("panicked at"@), line) ==> protected(line),
        stands_folded(encode_utf8("panic:"@), line) ==> protected(line),
        stands_folded(encode_utf8("Traceback (most recent call last)"@), line) ==> protected(line),
        stands_folded(encode_utf8("stack backtrace:"@), line) ==> protected(line),
        stands_folded(encode_utf8("goroutine "@), line) ==> protected(line),
        stands_folded(encode_utf8("denied"@), line) ==> protected(line),
        stands_folded(encode_utf8("unauthorized"@), line) ==> protected(line),
        stands_folded(encode_utf8("forbidden"@), line) ==> protected(line),
        stands_folded(encode_utf8("certificate verify failed"@), line) ==> protected(line),
        stands_folded(encode_utf8("certificate verification failed"@), line) ==> protected(line),
        stands_folded(encode_utf8("certificate has expired"@), line) ==> protected(line),
        stands_folded(encode_utf8("certificate is not valid"@), line) ==> protected(line),
        stands_folded(encode_utf8("self-signed certificate"@), line) ==> protected(line),
        stands_folded(encode_utf8("self signed certificate"@), line) ==> protected(line),
        stands_folded(encode_utf8("unable to get local issuer certificate"@), line) ==> protected(line),
        stands_folded(encode_utf8("SSL certificate problem"@), line) ==> protected(line),
        stands_folded(encode_utf8("x509: certificate"@), line) ==> protected(line),
        stands_folded(encode_utf8("tls: bad certificate"@), line) ==> protected(line),
        stands_folded(encode_utf8("warning:"@), line) ==> protected(line),
        stands_exactly(encode_utf8("EACCES"@), line) ==> protected(line),
        stands_exactly(encode_utf8("EPERM"@), line) ==> protected(line),
        stands_exactly(encode_utf8("EROFS"@), line) ==> protected(line),
{
    lemma_rule_protects(0, line);
    lemma_rule_protects(1, line);
    lemma_rule_protects(2, line);
    lemma_rule_protects(3, line);
    lemma_rule_protects(4, line);
    lemma_rule_protects(5, line);
    lemma_rule_protects(6, line);
    lemma_rule_protects(7, line);
    lemma_rule_protects(8, line);
    lemma_rule_protects(9, line);
    lemma_rule_protects(10, line);
    lemma_rule_protects(11, line);
    lemma_rule_protects(12, line);
    lemma_rule_protects(13, line);
    lemma_rule_protects(14, line);
    lemma_rule_protects(15, line);
    lemma_rule_protects(16, line);
    lemma_rule_protects(17, line);
    lemma_rule_protects(18, line);
    lemma_rule_protects(19, line);
    lemma_rule_protects(20, line);
    lemma_rule_protects(21, line);
    lemma_rule_protects(22, line);
    lemma_rule_protects(23, line);
    lemma_rule_protects(24, line);
    lemma_rule_protects(25, line);
    lemma_rule_protects(26, line);
    lemma_rule_protects(27, line);
    lemma_rule_protects(28, line);
    lemma_rule_protects(29, line);
    lemma_rule_protects(30, line);
    lemma_rule_protects(31, line);
    lemma_rule_protects(32, line);
    lemma_rule_protects(33, line);
    lemma_rule_protects(34, line);
    lemma_rule_protects(35, line);
    lemma_rule_protects(36, line);
    lemma_rule_protects(37, line);
    lemma_rule_protects(38, line);
    lemma_rule_protects(39, line);
}

/// Nothing else is protected: there are forty words, and a protected line holds one of them.
pub proof fn law_only_words_protect(line: Seq<u8>)
    ensures
        rule_table().len() == 40,
        protected(line) ==> exists|i: int|
            0 <= i < rule_table().len() && stands_folded(
                encode_utf8((#[trigger] rule_table()[i]).literal@),
                line,
            ),
{
    if protected(line) {
        let i = choose|i: int|
            0 <= i < rule_table().len() && (#[trigger] rule_table()[i]).applies(line);
        let word = encode_utf8(rule_table()[i].literal@);
        law_search_finds(line, word);
        if rule_table()[i].case_sensitive {
            let (before, after) = choose|before: Seq<u8>, after: Seq<u8>|
                line == #[trigger] (before + word + after);
            assert(forall|k: int|
                0 <= k < word.len() ==> same_but_for_case(word[k], #[trigger] word[k]));
            assert(stands_folded(word, line));
        }
    }
}

} // verus!
