//! The report on a compression: names for the ids, and the lines of figures.

use crate::ascii::{LF, SPACE};
use crate::compressor::Stats;
use crate::estimator::ids;
use crate::standard::joined;
use crate::text::{decimal, push_ascii, push_str, push_usize};
use vstd::prelude::*;
use vstd::utf8::{encode_utf8, is_ascii_chars_encode_utf8};

verus! {

/// Width of the column of labels.
pub const STATS_LABEL_WIDTH: usize = 20;

/// The name of an encoder id.
pub open spec fn encoder_label(id: u8) -> Seq<char> {
    if id == 0 {
        "passthrough"@
    } else if id == 1 {
        "e1-minify"@
    } else if id == 2 {
        "e2-tabular"@
    } else {
        "unknown"@
    }
}

/// The name of a tokenizer id.
pub open spec fn tokenizer_label(id: u16) -> Seq<char> {
    if id == ids::HEURISTIC {
        "heuristic"@
    } else if id == ids::BYTE_LEN {
        "byte-length"@
    } else if id == ids::CL100K_BASE {
        "cl100k-base"@
    } else if id == ids::O200K_BASE {
        "o200k-base"@
    } else if id == ids::HUGGING_FACE {
        "hugging-face"@
    } else {
        "unknown"@
    }
}

/// The name of an encoder id, or `unknown`.
pub fn encoder_name(id: u8) -> (name: &'static str)
    ensures
        name@ == encoder_label(id),
{
    match id {
        0 => "passthrough",
        1 => "e1-minify",
        2 => "e2-tabular",
        _ => "unknown",
    }
}

/// The name of a tokenizer id, or `unknown`.
pub fn tokenizer_name(id: u16) -> (name: &'static str)
    ensures
        name@ == tokenizer_label(id),
{
    if id == ids::HEURISTIC {
        "heuristic"
    } else if id == ids::BYTE_LEN {
        "byte-length"
    } else if id == ids::CL100K_BASE {
        "cl100k-base"
    } else if id == ids::O200K_BASE {
        "o200k-base"
    } else if id == ids::HUGGING_FACE {
        "hugging-face"
    } else {
        "unknown"
    }
}

/// A number of spaces.
pub open spec fn spaces(n: nat) -> Seq<u8> {
    Seq::new(n, |i: int| SPACE)
}

/// A line of the report: the label, filled up with spaces to the column's width, and the
/// figure.
pub open spec fn line(label: Seq<char>, figure: Seq<u8>) -> Seq<u8> {
    let text = encode_utf8(label);
    text + spaces(
        if text.len() < STATS_LABEL_WIDTH {
            (STATS_LABEL_WIDTH - text.len()) as nat
        } else {
            0
        },
    ) + figure + seq![LF]
}

/// A name and the id that it stands for.
pub open spec fn named(name: Seq<char>, id: nat) -> Seq<u8> {
    encode_utf8(name) + encode_utf8(" (id "@) + decimal(id) + encode_utf8(")"@)
}

/// The report: eight lines in a fixed order.
pub open spec fn report(stats: Stats, byte_ratio: Seq<char>, token_ratio: Seq<char>) -> Seq<u8> {
    line("bytes before:"@, decimal(stats.bytes_before as nat)) + line(
        "bytes after:"@,
        decimal(stats.bytes_after as nat),
    ) + line("byte ratio:"@, encode_utf8(byte_ratio)) + line(
        "est tokens before:"@,
        decimal(stats.est_tokens_before as nat),
    ) + line("est tokens after:"@, decimal(stats.est_tokens_after as nat)) + line(
        "token ratio:"@,
        encode_utf8(token_ratio),
    ) + line("encoder:"@, named(encoder_label(stats.encoder.0), stats.encoder.0 as nat)) + line(
        "tokenizer:"@,
        named(tokenizer_label(stats.tokenizer_id), stats.tokenizer_id as nat),
    )
}

/// Append a line of the report.
fn push_line(out: &mut String, label: &str, figure: &str)
    ensures
        encode_utf8(final(out)@) == encode_utf8(old(out)@) + line(label@, encode_utf8(figure@)),
{
    let width: usize = label.as_bytes().len();
    push_str(out, label);
    let ghost labelled = encode_utf8(out@);
    let mut filled: usize = width;
    proof {
        assert(labelled + spaces(0) =~= labelled);
    }
    while filled < STATS_LABEL_WIDTH
        invariant
            width <= filled,
            filled <= STATS_LABEL_WIDTH || filled == width,
            encode_utf8(out@) == labelled + spaces((filled - width) as nat),
        decreases STATS_LABEL_WIDTH - filled,
    {
        push_ascii(out, SPACE);
        filled = filled + 1;
        proof {
            assert(spaces((filled - 1 - width) as nat) + seq![SPACE] =~= spaces(
                (filled - width) as nat,
            ));
            assert(encode_utf8(out@) =~= labelled + spaces((filled - width) as nat));
        }
    }
    push_str(out, figure);
    push_ascii(out, LF);
    proof {
        assert(encode_utf8(out@) =~= encode_utf8(old(out)@) + line(label@, encode_utf8(figure@)));
    }
}

/// A number as text.
fn number_text(n: usize) -> (text: String)
    ensures
        encode_utf8(text@) == decimal(n as nat),
{
    let mut text = String::new();
    push_usize(&mut text, n);
    proof {
        assert(encode_utf8(Seq::<char>::empty()) =~= Seq::<u8>::empty());
        assert(encode_utf8(text@) =~= decimal(n as nat));
    }
    text
}

/// A name and the id that it stands for.
fn named_text(name: &str, id: usize) -> (text: String)
    ensures
        encode_utf8(text@) == named(name@, id as nat),
{
    let mut text = String::new();
    push_str(&mut text, name);
    push_str(&mut text, " (id ");
    push_usize(&mut text, id);
    push_str(&mut text, ")");
    proof {
        assert(encode_utf8(Seq::<char>::empty()) =~= Seq::<u8>::empty());
        assert(encode_utf8(text@) =~= named(name@, id as nat));
    }
    text
}

/// The report on a compression. The two ratios are given as text.
pub fn format_stats(stats: &Stats, byte_ratio: &str, token_ratio: &str) -> (text: String)
    ensures
        encode_utf8(text@) == report(*stats, byte_ratio@, token_ratio@),
{
    let mut out = String::new();
    push_line(&mut out, "bytes before:", number_text(stats.bytes_before).as_str());
    push_line(&mut out, "bytes after:", number_text(stats.bytes_after).as_str());
    push_line(&mut out, "byte ratio:", byte_ratio);
    push_line(&mut out, "est tokens before:", number_text(stats.est_tokens_before).as_str());
    push_line(&mut out, "est tokens after:", number_text(stats.est_tokens_after).as_str());
    push_line(&mut out, "token ratio:", token_ratio);
    push_line(
        &mut out,
        "encoder:",
        named_text(encoder_name(stats.encoder.0), stats.encoder.0 as usize).as_str(),
    );
    push_line(
        &mut out,
        "tokenizer:",
        named_text(tokenizer_name(stats.tokenizer_id), stats.tokenizer_id as usize).as_str(),
    );
    proof {
        assert(encode_utf8(Seq::<char>::empty()) =~= Seq::<u8>::empty());
        assert(encode_utf8(out@) =~= report(*stats, byte_ratio@, token_ratio@));
    }
    out
}

/// A line of the report holds its label, spaces up to the twentieth column, its figure, and a
/// line feed.
pub proof fn law_report_columns(label: Seq<char>, figure: Seq<u8>)
    requires
        encode_utf8(label).len() <= 20,
    ensures
        ({
            let n = encode_utf8(label).len() as int;
            let t = line(label, figure);
            &&& t.len() == 21 + figure.len()
            &&& t.take(n) == encode_utf8(label)
            &&& forall|k: int| n <= k < 20 ==> #[trigger] t[k] == 0x20
            &&& t.subrange(20, 20 + figure.len() as int) == figure
            &&& t.last() == 0x0A
        }),
{
    let n = encode_utf8(label).len() as int;
    let t = line(label, figure);
    assert(t.take(n) =~= encode_utf8(label));
    assert(t.subrange(20, 20 + figure.len() as int) =~= figure);
}

/// The report says each figure under its own label, in this order and nothing else.
pub proof fn law_report_says_each_figure(
    stats: Stats,
    byte_ratio: Seq<char>,
    token_ratio: Seq<char>,
)
    ensures
        joined(
            seq![
                line("bytes before:"@, decimal(stats.bytes_before as nat)),
                line("bytes after:"@, decimal(stats.bytes_after as nat)),
                line("byte ratio:"@, encode_utf8(byte_ratio)),
                line("est tokens before:"@, decimal(stats.est_tokens_before as nat)),
                line("est tokens after:"@, decimal(stats.est_tokens_after as nat)),
                line("token ratio:"@, encode_utf8(token_ratio)),
                line("encoder:"@, named(encoder_label(stats.encoder.0), stats.encoder.0 as nat)),
                line(
                    "tokenizer:"@,
                    named(tokenizer_label(stats.tokenizer_id), stats.tokenizer_id as nat),
                ),
            ],
        ) == report(stats, byte_ratio, token_ratio),
{
    let a = line("bytes before:"@, decimal(stats.bytes_before as nat));
    let b = line("bytes after:"@, decimal(stats.bytes_after as nat));
    let c = line("byte ratio:"@, encode_utf8(byte_ratio));
    let d = line("est tokens before:"@, decimal(stats.est_tokens_before as nat));
    let e = line("est tokens after:"@, decimal(stats.est_tokens_after as nat));
    let f = line("token ratio:"@, encode_utf8(token_ratio));
    let g = line("encoder:"@, named(encoder_label(stats.encoder.0), stats.encoder.0 as nat));
    let h = line(
        "tokenizer:"@,
        named(tokenizer_label(stats.tokenizer_id), stats.tokenizer_id as nat),
    );
    lemma_joined(a, b, c, d, e, f, g, h);
}

proof fn lemma_joined_first(x: Seq<u8>, rest: Seq<Seq<u8>>)
    ensures
        joined(seq![x] + rest) == x + joined(rest),
{
    assert((seq![x] + rest).drop_first() =~= rest);
}

proof fn lemma_joined(
    a: Seq<u8>,
    b: Seq<u8>,
    c: Seq<u8>,
    d: Seq<u8>,
    e: Seq<u8>,
    f: Seq<u8>,
    g: Seq<u8>,
    h: Seq<u8>,
)
    ensures
        joined(seq![a, b, c, d, e, f, g, h]) == a + b + c + d + e + f + g + h,
{
    let none = Seq::<Seq<u8>>::empty();
    let h1 = seq![h] + none;
    let g1 = seq![g] + h1;
    let f1 = seq![f] + g1;
    let e1 = seq![e] + f1;
    let d1 = seq![d] + e1;
    let c1 = seq![c] + d1;
    let b1 = seq![b] + c1;
    lemma_joined_first(h, none);
    lemma_joined_first(g, h1);
    lemma_joined_first(f, g1);
    lemma_joined_first(e, f1);
    lemma_joined_first(d, e1);
    lemma_joined_first(c, d1);
    lemma_joined_first(b, c1);
    lemma_joined_first(a, b1);
    assert(seq![a, b, c, d, e, f, g, h] =~= seq![a] + b1);
    assert(joined(none) =~= Seq::<u8>::empty());
    assert(a + (b + (c + (d + (e + (f + (g + (h + Seq::<u8>::empty()))))))) =~= a + b + c + d + e + f
        + g + h);
}

/// The names of the ids.
pub proof fn law_names_of_ids()
    ensures
        encoder_label(0) == "passthrough"@,
        encoder_label(1) == "e1-minify"@,
        encoder_label(2) == "e2-tabular"@,
        forall|id: u8| id > 2 ==> #[trigger] encoder_label(id) == "unknown"@,
        tokenizer_label(0) == "heuristic"@,
        tokenizer_label(1) == "byte-length"@,
        tokenizer_label(2) == "cl100k-base"@,
        tokenizer_label(3) == "o200k-base"@,
        tokenizer_label(4) == "hugging-face"@,
        forall|id: u16| id > 4 ==> #[trigger] tokenizer_label(id) == "unknown"@,
{
}

/// A name goes before its id, which stands in decimal between round brackets.
pub proof fn law_named_ids(name: Seq<char>, id: nat)
    ensures
        named(name, id) == encode_utf8(name) + seq![0x20u8, 0x28, 0x69, 0x64, 0x20] + decimal(id)
            + seq![0x29u8],
{
    reveal_strlit(" (id ");
    reveal_strlit(")");
    is_ascii_chars_encode_utf8(" (id "@);
    is_ascii_chars_encode_utf8(")"@);
    assert(encode_utf8(" (id "@) =~= seq![0x20u8, 0x28, 0x69, 0x64, 0x20]);
    assert(encode_utf8(")"@) =~= seq![0x29u8]);
}

} // verus!
