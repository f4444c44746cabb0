//! A term-to-document inverted index: documents are split into terms on the
//! space character, each document yields a single-document index, and
//! indices are merged by concatenating the postings of shared terms.
pub mod document;
pub mod tokenize;
pub mod inverted_index;
pub mod indexer;
pub mod laws;
pub mod http;

pub use document::{Document, DocumentView};
pub use http::{
    decimal, decimal_string, host_of, record_url, scheme_of, DummyIP, HttpHeader, HttpServer,
    TlsEndpoint,
};
pub use indexer::{fold_view, index, index_all, index_view, merge, merge_view};
pub use laws::{
    ids_with_term, lemma_fold_concat, lemma_fold_postings, lemma_index_one_posting_per_term, lemma_index_single_term,
    lemma_merge_associative, lemma_merge_empty,
};
pub use inverted_index::{entries_view, postings_of, postings_view, IndexMap, InvertedIndex};
pub use tokenize::{split_on_space, tokenize};
