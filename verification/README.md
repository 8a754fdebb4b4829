# lib — a verified inverted-index search engine

A folder of text documents is indexed word by word; a query returns the
documents that contain every query word, ranked by their number of hits; the
index can be written to disk in a fixed binary layout.

- `src/text.rs` — standard-library string operations used by the tokenizer
  (lower-casing, the alphabetic test, trimming) with what is known of them.
- `src/parser.rs` — tokenizing a document into words with their offsets.
- `src/doctable.rs` — numbering documents and looking them up both ways.
- `src/search.rs` — combining per-word rank lists and sorting by rank.
- `src/memindex.rs` — the in-memory index: adding documents, answering queries.
- `src/marshaller.rs` — the on-disk layout (big-endian words, absolute
  offsets, chained hash tables whose buckets follow the default hasher applied
  to each key as its type hashes it) and the header check of the reader.
- `src/shell.rs` — reading a line of the interactive search shell.
- `app/main.rs` — walking directories, reading and writing files, the shell loop.
