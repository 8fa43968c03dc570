//! A TF-IDF (term-frequency / inverse-document-frequency) engine over an
//! in-memory corpus, together with a small generic action/reducer store.
//!
//! Floating-point weights are kept in exact closed form: every TF-IDF weight
//! is `ln(N/(df+1)+1) / n` for integers `N` (corpus size), `df` (document
//! frequency) and `n` (distinct terms of the document), so the library stores
//! and reasons about those integers and leaves numeric evaluation of the
//! logarithm to its callers.

pub mod document;
pub mod engine;
pub mod store;
pub mod tokenizer;
