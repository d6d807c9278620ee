# minisearch

A small search engine library, verified with Verus: tokenization into
lowercased alphanumeric terms, a positional inverted index, a query language
(`+term`, `-term`, `"phrase"`, `"phrase"~n`, fuzzy terms and metadata
filters), proximity phrase matching, term statistics, JSON output of the
engine's values, and a plain-text index format for saving and loading.

Layout:

- `src/` is the verified library. `src/index.rs` holds the engine and its
  model (the token terms of every document); `src/search.rs` decides which
  documents a query returns; `src/storage.rs` writes and reads the index
  format and proves that a saved index reads back as the same index;
  `src/laws.rs` states properties that relate the operations.
- `app/` is the command line and what needs the file system or floating
  point: directory indexing, index files, BM25 ranking and the C interface.
- `tests/` runs the library on concrete values.
