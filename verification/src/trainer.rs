//! The trainer and its settings.

use vstd::prelude::*;

verus! {

/// The vocabulary size of a trainer that was told nothing else.
pub const DEFAULT_VOCAB_SIZE: u32 = 8_000;

/// The number of rounds of expectation and maximization between two prunings.
pub const DEFAULT_SUB_ITERATIONS: u32 = 2;

/// The most pieces that a seed vocabulary holds.
pub const SEED_SIZE: usize = 1_000_000;

/// A token that the caller wants in the vocabulary as it is. The trainer
/// hands these on untouched.
#[derive(Debug)]
pub struct AddedToken {
    pub content: String,
}

/// Trains a unigram vocabulary.
#[derive(Debug)]
pub struct UnigramTrainer {
    pub show_progress: bool,
    pub vocab_size: u32,
    pub n_sub_iterations: u32,
    pub seed_size: usize,
    pub special_tokens: Vec<AddedToken>,
}

/// Collects the settings of a [`UnigramTrainer`].
#[derive(Debug)]
pub struct UnigramTrainerBuilder {
    show_progress: bool,
}

impl Default for UnigramTrainerBuilder {
    fn default() -> (builder: Self)
        ensures
            builder.shows_progress(),
    {
        UnigramTrainerBuilder { show_progress: true }
    }
}

impl UnigramTrainerBuilder {
    /// Whether the trainer to be built reports its progress.
    pub closed spec fn shows_progress(&self) -> bool {
        self.show_progress
    }

    /// Sets whether the trainer reports its progress.
    pub fn with_progress(self, progress: bool) -> (builder: Self)
        ensures
            builder.shows_progress() == progress,
    {
        let mut builder = self;
        builder.show_progress = progress;
        builder
    }

    /// The trainer with these settings; everything else is as in
    /// [`UnigramTrainer::new`].
    pub fn build(&self) -> (trainer: UnigramTrainer)
        ensures
            trainer.show_progress == self.shows_progress(),
            trainer.has_default_sizes(),
    {
        UnigramTrainer::new(self.show_progress)
    }
}

impl Default for UnigramTrainer {
    fn default() -> (trainer: Self)
        ensures
            trainer.show_progress,
            trainer.has_default_sizes(),
    {
        UnigramTrainer::new(true)
    }
}

impl UnigramTrainer {
    /// Every setting but `show_progress` has its default value.
    pub open spec fn has_default_sizes(&self) -> bool {
        &&& self.vocab_size == DEFAULT_VOCAB_SIZE
        &&& self.n_sub_iterations == DEFAULT_SUB_ITERATIONS
        &&& self.seed_size == SEED_SIZE
        &&& self.special_tokens@.len() == 0
    }

    /// A trainer for a vocabulary of 8000 pieces, with two rounds between
    /// prunings and no special tokens.
    pub fn new(show_progress: bool) -> (trainer: UnigramTrainer)
        ensures
            trainer.show_progress == show_progress,
            trainer.has_default_sizes(),
    {
        UnigramTrainer {
            show_progress,
            vocab_size: DEFAULT_VOCAB_SIZE,
            n_sub_iterations: DEFAULT_SUB_ITERATIONS,
            seed_size: SEED_SIZE,
            special_tokens: Vec::new(),
        }
    }

    /// Whether the trainer reports its progress.
    pub fn should_show_progress(&self) -> (show: bool)
        ensures
            show == self.show_progress,
    {
        self.show_progress
    }
}

} // verus!
