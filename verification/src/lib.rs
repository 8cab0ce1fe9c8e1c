//! Aggregate statistics over a body of text: the number of distinct words, the
//! number of letters, the most frequent words and the longest words.
//!
//! A word is what is left of a whitespace-delimited token once everything but
//! its letters is dropped and ASCII capitals are lowered. Letters and whitespace
//! are told apart as Unicode does; only ASCII letters change case.
//!
//! Ranked results are fully determined: the higher score comes first, and of two
//! words with the same score the one that is smaller in lexicographic order of
//! code points comes first. The length of a word is the number of its
//! characters.
//!
//! The modules, from the bottom up: `letters` classifies characters, `tokens`
//! splits text into tokens and words, `table` counts words, `order` and `rank`
//! define the ranking, `heap` and `select` pick the best-ranked entries, `top`
//! says what a ranked result is, `stats` holds the two analyses, `laws` what
//! holds of every analysis, `sample` makes sample text, and `clock` names the
//! clock by which an analysis is timed.

pub mod letters;
pub mod order;
pub mod tokens;
pub mod table;
pub mod rank;
pub mod heap;
pub mod select;
pub mod top;
pub mod clock;
pub mod stats;
pub mod sample;
pub mod laws;

pub use sample::generate_test_text;
pub use stats::{analyze_text_fast, analyze_text_slow, TextStats};
