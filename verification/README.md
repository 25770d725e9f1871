# kura-core

The core of a search store: what goes into a segment, how a file of segments
moves from one commit to the next, and how segments are folded together. The
library is written in Verus, and every function of it is proved to do what its
contract says.

## Layout

- `src/analysis.rs` splits text into terms.
- `src/codec.rs`, `src/bitpack.rs`, `src/checksum.rs`, `src/length.rs` hold the
  encodings that everything else is written in.
- `src/bitmap.rs` and `src/bitmap/` are sets of document numbers, each chunk of one
  held in one of three forms, with their byte format. A bulk build and a set
  operation choose the smallest form again; a single insert only lets an array that
  has outgrown itself go, and a single remove changes nothing.
- `src/filter.rs`, `src/keys.rs`, `src/bound.rs` are the filter over keys, the key
  table, and the ceilings on what a block of postings can score.
- `src/index.rs` and `src/index/` build an index out of documents and read it.
- `src/compact.rs` folds several indexes into one.
- `src/file.rs` and `src/file/` are the rules of a store: where the next bytes go,
  what a commit may say, what a view reads, and how the log is walked.
- `src/ingest.rs` and `src/ingest/` turn documents under keys into a commit.
- `src/keeper.rs` counts what folding a store has done, and looks at a view only where
  the policy it is given says that something is due.
- `src/error.rs` names what can be wrong, and says it in words.
- `app/` is the file, the syncs, the thread and the floating point around it.

Properties that relate several functions are public proof functions whose names
begin with `law_`. What is taken on trust is a handful of functions of the standard
library: counting the ones of a word, sorting a slice, and asking what class a
character is of and what it lowercases to.
