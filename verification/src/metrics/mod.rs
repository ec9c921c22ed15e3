//! Measuring transcripts against references.
pub mod distance;
pub mod reference_laws;
pub mod transcript;
pub mod transcript_laws;

pub use distance::levenshtein;
pub use transcript::{
    cer, normalize_words, parse_reference_turns, reference_text, wer, DiarSegment,
};
