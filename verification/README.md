# taffle

The Tonie Audio Format (TAF), read and written: audiobooks as a Toniebox plays them, in a library that
is verified with [Verus](https://github.com/verus-lang/verus).

A TAF is a header block of 4096 bytes and an audio region behind it: one Opus stream in Ogg pages, laid
out so that every page ends where a block does and every chapter starts at one. The header states the
SHA-1 of that region, its length, the audio id and the blocks the chapters start at.

## What is proved

Functions say what they return and what they change for every input they take, and errors come exactly
where they are owed. Beyond the single functions:

- What is written reads back. The pages a writer closes are accepted block by block, and a finished file
  is found to hold what was put into it: the audio id, every sample, and every chapter where it was
  started. What a writer emitted and stated is accepted by a validator as a whole (`round_trip`).
- Nothing is lost on the way. Every packet is carried, in order and with every sample: byte for byte as
  it came, but for the one that is padded to close a page, which keeps its frames (`writer::carried`,
  `opus_packet`), and every page counts the samples up to its last one.
- A file gains exactly the pages that are emitted, and nothing once it has failed (`writer::file`).
- Headers, pages and varints read back as what they were written from (`header`, `ogg`), and what a
  clock shows reads back as what it shows (`duration`).
- A cover is never written over its book, and nothing is created while an input is still to be opened
  (`convert`).
- A queue takes only books that can run together, and gives one back exactly as it was typed (`window`).

## Layout

- `src/` is the library.
  - The format: `bytes`, `id`, `digest`, `ogg`, `opus_packet`, `header`, `reader`, `writer`,
    `round_trip`.
  - Files: `path`, `duration`, `inspect`, `job`, `collision`, `convert`.
  - The command line: `cli`, `convert_cmd`, `info_cmd`.
  - The window: `boot`, `plan`, `queue`, `worker`, `window`.
- `tests/` runs it on concrete values.
- `app/` is the programs around it: files, threads, Qt, and the engine that decodes and encodes.

What is not proved is what the `sha1` crate computes: `digest` names its result and says of the hasher
what it is fed. Of std, `text` takes `String::push` at its documented word.
