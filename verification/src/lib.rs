//! A multi-keyword search-and-replace engine.
//!
//! A [`KeywordProcessor`] holds a dictionary of keywords, each mapped to a
//! "clean" replacement string, in a trie keyed by unicode word segments.
//! A single left-to-right pass over an input text finds every keyword that
//! occurs as a whole word, preferring the longest match from each start
//! position, and can replace each match with its clean form.
//!
//! All offsets this library reports count characters (unicode scalar
//! values) of the input text, not bytes.

mod casefold;
mod processor;
mod splitter;
mod trie;
pub mod scan;
mod segment;

pub use processor::KeywordProcessor;
pub use splitter::split_text_idx;
