//! # minisearch
//!
//! A small search engine: tokenization into lowercased alphanumeric terms,
//! a positional inverted index, a query language with required and excluded
//! terms and phrases, proximity phrase matching, term statistics, and a
//! plain-text format for saving and loading an index.
//!
//! Every operation is specified against a model of the indexed documents:
//! the sequence of token terms of each one. Ranking by BM25 scores is left
//! to callers, which get from `SearchEngine::match_documents` the term and
//! phrase hits that a score needs.
use vstd::prelude::*;

pub mod document;
pub mod error;
pub mod format;
pub mod index;
pub mod json;
pub mod laws;
pub mod options;
pub mod order;
pub mod query;
pub mod search;
pub mod storage;
pub mod text;
pub mod tokenizer;

pub use document::DocumentMeta;
pub use error::SearchError;
pub use index::{SearchEngine, TermStat};
pub use options::IndexOptions;
pub use query::{parse_query, ParsedQuery, PhraseQuery};

verus! {
}
