//! A rule-based morphological stemmer for German words.
//!
//! The engine lowercases and normalizes a word, conditionally strips a
//! leading "ge" morpheme, encodes common digraphs and doubled letters as
//! single placeholder characters, and then iteratively trims suffixes
//! under a small set of ordered rules until a minimum-length floor is
//! reached.  `stem` returns the reduced word; `segment` splits the
//! lowercased word into the retained stem and the removed tail.

mod model;
mod unicode;
mod engine;

pub use engine::{stem, segment, compute_end_offset, replxx};
pub use model::{
    stem_spec, segment_spec, end_offset_spec, normalize_buf, normalize_count,
    lemma_stem_never_lengthens,
};
pub use unicode::{is_upper, char_lower, lower_of};
