//! What the command line answers: for each command the bytes for standard output, the archive
//! to write, the messages for the user and the exit code.
//!
//! Compression is an optimization and never a gate: `compress` forwards an input that it
//! cannot compress and succeeds. `expand` fails closed and emits nothing that was not verified.
//! `stats` has nothing to report on an input that cannot be compressed, and says so.

use crate::bytes::push_bytes;
use crate::compressor::{
    accounts, answers, archive_of, candidates, recovered, winner, Artifact, Compressor, Config,
    Profile, Stats,
};
use crate::documents::nesting;
use crate::encoder::{law_minifier_applies, offer, wins, Encoder};
use crate::error::{
    invalid_json_text, not_utf8_text, too_deep_text, too_large_text, CompressError,
};
use crate::format::hashable;
use crate::grammar::{document, Fault};
use crate::json::Json;
use crate::standard::{law_json_is_read, law_only_json_is_read, spells};
use crate::text::push_str;
use vstd::prelude::*;
use vstd::utf8::{encode_utf8, valid_utf8};

verus! {

/// Exit code for success.
pub const EXIT_SUCCESS: u8 = 0;

/// Exit code for bad usage, a failure to read or write, or an input that `stats` cannot
/// measure.
pub const EXIT_BAD_INPUT: u8 = 2;

/// Exit code for an archive that cannot be expanded.
pub const EXIT_CORRUPT: u8 = 3;

/// Exit code for the `mcp` command, which is not available.
pub const EXIT_MCP_UNAVAILABLE: u8 = 69;

/// What a command answers.
pub struct Reply {
    /// Lines for standard error, in order.
    pub messages: Vec<String>,
    /// The archive to write before anything goes to standard output.
    pub archive: Option<Vec<u8>>,
    /// What goes to standard output.
    pub output: Vec<u8>,
    /// The exit code.
    pub exit_code: u8,
}

/// The default configuration with a profile.
pub open spec fn profiled(profile: Profile) -> Config {
    Config { profile, ..Config::defaults() }
}

/// The default configuration with a profile.
pub fn config_for(profile: Profile) -> (config: Config)
    ensures
        config == profiled(profile),
{
    Config::builder().profile(profile).build()
}

/// Why an input cannot be compressed, as the text for the user; `None` if it can.
pub open spec fn refusal(config: Config, input: Seq<u8>) -> Option<Seq<u8>> {
    if input.len() > config.max_input_bytes {
        Some(too_large_text(input.len(), config.max_input_bytes as nat))
    } else if !valid_utf8(input) {
        Some(not_utf8_text())
    } else if input.len() > u32::MAX {
        Some(too_large_text(input.len(), u32::MAX as nat))
    } else {
        match document(input, config.max_depth as int) {
            Ok(_) => None,
            Err(Fault::Syntax { at, msg }) => Some(invalid_json_text(at as nat, msg)),
            Err(Fault::TooDeep { depth }) => Some(
                too_deep_text(depth as nat, config.max_depth as nat),
            ),
        }
    }
}

/// The rendering of an input that can be compressed.
pub open spec fn rendering_of(config: Config, input: Seq<u8>) -> Option<Seq<u8>> {
    match document(input, config.max_depth as int) {
        Ok(tree) => offer(winner(config, tree, input), Some(tree), input),
        Err(_) => None,
    }
}

/// A message that ends in a reason.
fn message(prefix: &str, reason: &str) -> (text: String)
    ensures
        encode_utf8(text@) == encode_utf8(prefix@) + encode_utf8(reason@),
{
    let mut text = String::new();
    push_str(&mut text, prefix);
    push_str(&mut text, reason);
    proof {
        assert(encode_utf8(Seq::<char>::empty()) =~= Seq::<u8>::empty());
        assert(encode_utf8(text@) =~= encode_utf8(prefix@) + encode_utf8(reason@));
    }
    text
}

/// A copy of some bytes.
fn copied(bytes: &[u8]) -> (copy: Vec<u8>)
    ensures
        copy@ == bytes@,
{
    let mut copy: Vec<u8> = Vec::new();
    push_bytes(&mut copy, bytes);
    proof {
        assert(copy@ =~= bytes@);
    }
    copy
}

/// What `compress` answers. `archive_wanted` says whether an archive is to be written.
pub fn compress_reply(input: &[u8], profile: Profile, archive_wanted: bool) -> (reply: Reply)
    ensures
        reply.exit_code == EXIT_SUCCESS,
        match refusal(profiled(profile), input@) {
            None => {
                &&& Some(reply.output@) == rendering_of(profiled(profile), input@)
                &&& reply.messages@.len() == 0
                &&& match reply.archive {
                    Some(archive) => archive_wanted && archive@ == archive_of(input@),
                    None => !archive_wanted,
                }
            },
            Some(reason) => {
                &&& reply.output@ == input@
                &&& reply.archive is None
                &&& reply.messages@.len() == (if archive_wanted {
                    2int
                } else {
                    1int
                })
                &&& encode_utf8(reply.messages@[0]@) == encode_utf8(
                    "tokfold: passing input through uncompressed: "@,
                ) + reason
                &&& archive_wanted ==> reply.messages@[1]@
                    == "tokfold: no recovery archive written (compression did not run)"@
            },
        },
{
    let compressor = Compressor::new(config_for(profile));
    let mut messages: Vec<String> = Vec::new();
    match compressor.compress(input) {
        Ok(artifact) => {
            let output = copied(artifact.rendering.as_str().as_bytes());
            let archive = if archive_wanted {
                Some(artifact.archive)
            } else {
                None
            };
            Reply { messages, archive, output, exit_code: EXIT_SUCCESS }
        },
        Err(error) => {
            messages.push(
                message(
                    "tokfold: passing input through uncompressed: ",
                    error.message().as_str(),
                ),
            );
            if archive_wanted {
                let mut note = String::new();
                note.append("tokfold: no recovery archive written (compression did not run)");
                proof {
                    assert(note@
                        =~= "tokfold: no recovery archive written (compression did not run)"@);
                }
                messages.push(note);
            }
            Reply { messages, archive: None, output: copied(input), exit_code: EXIT_SUCCESS }
        },
    }
}

/// What `expand` answers.
pub fn expand_reply(archive: &[u8]) -> (reply: Reply)
    requires
        hashable(archive@),
    ensures
        reply.archive is None,
        match recovered(archive@) {
            Ok(input) => {
                &&& reply.exit_code == EXIT_SUCCESS
                &&& reply.output@ == input
                &&& reply.messages@.len() == 0
            },
            Err(error) => {
                &&& reply.exit_code == EXIT_CORRUPT
                &&& reply.output@.len() == 0
                &&& reply.messages@.len() == 1
                &&& encode_utf8(reply.messages@[0]@) == encode_utf8(
                    "tokfold: cannot expand archive: "@,
                ) + error.text()
            },
        },
{
    let compressor = Compressor::new(Config::default());
    let mut messages: Vec<String> = Vec::new();
    match compressor.decompress(archive) {
        Ok(output) => Reply { messages, archive: None, output, exit_code: EXIT_SUCCESS },
        Err(error) => {
            messages.push(message("tokfold: cannot expand archive: ", error.message().as_str()));
            Reply { messages, archive: None, output: Vec::new(), exit_code: EXIT_CORRUPT }
        },
    }
}

/// What `stats` reports on, or what it answers if there is nothing to report on.
pub fn measure(input: &[u8], profile: Profile) -> (r: Result<Stats, Reply>)
    ensures
        match refusal(profiled(profile), input@) {
            None => r matches Ok(stats) && (document(
                input@,
                profiled(profile).max_depth as int,
            ) matches Ok(tree) && accounts(stats, profiled(profile), tree, input@)),
            Some(reason) => r matches Err(reply) && {
                &&& reply.exit_code == EXIT_BAD_INPUT
                &&& reply.output@.len() == 0
                &&& reply.archive is None
                &&& reply.messages@.len() == 1
                &&& encode_utf8(reply.messages@[0]@) == encode_utf8(
                    "tokfold: cannot compute stats: "@,
                ) + reason
            },
        },
{
    let compressor = Compressor::new(config_for(profile));
    match compressor.compress(input) {
        Ok(artifact) => Ok(artifact.stats),
        Err(error) => {
            let mut messages: Vec<String> = Vec::new();
            messages.push(message("tokfold: cannot compute stats: ", error.message().as_str()));
            Err(Reply { messages, archive: None, output: Vec::new(), exit_code: EXIT_BAD_INPUT })
        },
    }
}

/// Exactly the inputs that hold JSON of at most 512 levels, in at most 16 MiB of UTF-8, are
/// compressed by the command line; they alone have a rendering there that is not the input.
pub proof fn law_commands_compress_json(profile: Profile, input: Seq<u8>)
    ensures
        refusal(profiled(profile), input) is None <==> input.len() <= 16 * 1024 * 1024
            && valid_utf8(input) && exists|j: Json| #[trigger] spells(input, j) && nesting(j) <= 512,
        refusal(profiled(profile), input) is None ==> rendering_of(
            profiled(profile),
            input,
        ) is Some,
{
    let config = profiled(profile);
    if input.len() <= 16 * 1024 * 1024 && valid_utf8(input) {
        if document(input, 512) is Ok {
            law_only_json_is_read(input, 512);
            law_minifier_applies(input, 512);
        }
        if exists|j: Json| #[trigger] spells(input, j) && nesting(j) <= 512 {
            let j = choose|j: Json| #[trigger] spells(input, j) && nesting(j) <= 512;
            law_json_is_read(input, j, 512);
        }
    }
    if let Ok(tree) = document(input, 512) {
        let enc = winner(config, tree, input);
        if exists|e: Encoder|
            wins(
                &*config.estimator,
                e,
                Some(tree),
                input,
                candidates(profile),
                config.margin() as int,
            ) {
            assert(wins(
                &*config.estimator,
                enc,
                Some(tree),
                input,
                candidates(profile),
                config.margin() as int,
            ));
        }
    }
}

/// The exit codes.
pub proof fn law_exit_codes()
    ensures
        EXIT_SUCCESS == 0,
        EXIT_BAD_INPUT == 2,
        EXIT_CORRUPT == 3,
        EXIT_MCP_UNAVAILABLE == 69,
{
}

/// The command line refuses what compression refuses, with its message, and renders what
/// compression renders.
pub proof fn law_commands_follow_compression(
    r: Result<Artifact, CompressError>,
    profile: Profile,
    input: Seq<u8>,
)
    requires
        answers(r, profiled(profile), input),
    ensures
        r matches Err(error) ==> refusal(profiled(profile), input) == Some(error.text()),
        r matches Ok(artifact) ==> {
            &&& refusal(profiled(profile), input) is None
            &&& rendering_of(profiled(profile), input) == Some(encode_utf8(artifact.rendering@))
        },
{
}

} // verus!
