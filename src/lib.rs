//! An embeddable full-text search engine: typed documents, per-field inverted
//! indices, BM25 and exact-match ranking, and a length-prefixed binary codec.

pub mod collection;
pub mod document;
pub mod error;
pub mod field;
pub mod file;
pub mod inverted_index;
pub mod numtext;
pub mod ranker;
pub mod search;
pub mod term;
pub mod tokenizer;
