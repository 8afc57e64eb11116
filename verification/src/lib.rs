//! Pairwise word-similarity computation.
//!
//! The library loads a list of words, computes the full N x N matrix of
//! normalized edit-distance similarities, and renders the pairs above a
//! threshold as a report, sorted by descending similarity.
//!
//! A similarity is the exact rational `1 - d/L`, where `d` is the
//! Levenshtein distance between the two lowercased words and `L` the length
//! of the longer one; it is kept as the integer pair `(d, L)` so that every
//! comparison and the rendering of the report are exact.

pub mod lev;
pub mod matrix;
pub mod render;
pub mod report;
pub mod score;
pub mod threshold;
pub mod words;

pub use matrix::{calculate_similarity_matrix, SimilarityMatrix};
pub use render::render_report;
pub use report::{match_pairs, MatchPair};
pub use score::Score;
pub use threshold::{parse_percent, Threshold};
pub use words::{load_word_list, ValidationError, WordEntry, WordList};
