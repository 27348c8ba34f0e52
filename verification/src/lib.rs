//! An in-process autocomplete scorer.
//!
//! Named, weighted items are indexed by the tokens of their names
//! ([`build_index`], [`index_documents`]). A query is matched fragment by
//! fragment against that index, exactly, by prefix and by edit distance
//! ([`by_fragment`], [`match_fragments`], [`candidates`]), and the items it
//! matches are ranked by score, best first ([`rank`]). [`run`] does both.
//!
//! The library decides which items match, how their matches combine and how
//! they rank, and it proves what it decides. It does no arithmetic on reals:
//! the relevance of an item is an exact expression over counts and lengths
//! ([`Term`], [`Candidate`]), to which the caller of [`run`] gives a value; and
//! weights, relevances and scores cross the library's boundary as IEEE 754
//! binary64 bit patterns, which it orders but never computes with.
pub mod fragment;
pub mod index;
pub mod query;
pub mod ranking;
pub mod text;

pub use fragment::{by_fragment, match_token, Match, Term, MAX_DISTANCE};
pub use index::{build_index, index_documents, Document, Index, Item, Posting, Ratio};
pub use query::{candidates, match_fragments, run, Candidate};
pub use ranking::{order_key, rank, Result, DEFAULT_LIMIT};
pub use text::{is_whitespace, split, tokenize};
