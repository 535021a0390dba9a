//! An in-memory database of string records indexed by field name and field
//! value, queryable by fuzzy string predicates (edit distance, phonetic and
//! n-gram similarity).
//!
//! The crate holds the query engine proper: the similarity predicates, the
//! inverted index from field name to field value to posting list, the entity
//! store, and the conjunctive query evaluator.  Edit-distance scores come
//! from the `strsim` crate through a small set of trusted declarations.

pub mod metrics;
pub mod soundex;
pub mod ngram;
pub mod index;
pub mod format;
pub mod query;
