# tokfold_core

A verified library that reversibly compresses the context of language-model agents (tool
output, JSON, logs) to cut its token cost.

`Compressor::compress` takes a JSON document and gives two things: a denser rendering for the
model to read, and an archive from which the input is recovered byte for byte. Both are stated
and proved in Verus; `src/lib.rs` lists what holds and where it is proved.

## Layout

- `src/` is the library. `grammar`, `tape`, `json`, `strings`, `documents` and `lexemes` are
  about JSON texts and what they mean; `encoder` has the encoders and the rule that chooses one;
  `estimator` has the cost models; `format` is the archive header; `compressor` ties them
  together; `commands` and `report` are what the command line answers.
- `tests/` runs the library on concrete inputs.
- `app/` is the `tokfold` command: arguments, files and standard streams, and the two ratios,
  which are floating point.

What is taken on trust is marked `external_body` or `assume_specification`, with a comment that
says what is claimed: SHA-256 (`sha2`), the hash map and hasher of `rustc_hash`, the tokenizers
of `tiktoken_rs` with the errors of `anyhow`, and three functions of the standard library.
