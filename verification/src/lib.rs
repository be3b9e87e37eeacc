//! An n-gram substring-search index for text columns in a columnar store.
//!
//! The index is built once per column by streaming batches of
//! `(row id, text)` pairs through a bounded-memory accumulator that spills
//! sorted partial indexes when a budget is exceeded, merging all partial
//! indexes into one sorted on-disk structure, and is then queried with
//! string-containment predicates.  A query returns a candidate set of row
//! ids that is guaranteed to contain every row whose text contains the
//! needle (no false negatives); the caller performs the final exact check.

pub mod errors;
pub mod laws;
pub mod lex;
pub mod posting;
pub mod run;
pub mod accum;
pub mod merge;
pub mod codec;
pub mod reader;
pub mod builder;
pub mod catalog;
pub mod query;
pub mod tokenizer;
