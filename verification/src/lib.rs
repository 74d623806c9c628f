//! Training of a unigram subword vocabulary from word counts.
//!
//! The library holds what training decides on plain values: the seed
//! vocabulary, which pieces outlive a round of expectation and
//! maximization, how the vocabulary is pruned, when the loop ends, and the
//! final vocabulary. Scores are kept as bit patterns and only compared; the
//! arithmetic on them, and the lattice that the expectation step walks,
//! are the caller's.

pub mod census;
pub mod control;
pub mod em;
pub mod error;
pub mod finalize;
pub mod idempotence;
pub mod order;
pub mod pieces;
pub mod prune;
pub mod score;
pub mod seed;
pub mod suffix;
pub mod text;
pub mod trainer;
pub mod vocabulary;
pub mod word_counts;

pub use crate::error::TrainerError;
pub use crate::pieces::{is_valid_sentencepiece, SeedPiece, SentencePiece};
pub use crate::score::Score;
pub use crate::trainer::{AddedToken, UnigramTrainer, UnigramTrainerBuilder};
pub use crate::word_counts::WordCounts;
