//! The loop that drives the vocabulary down to its size.
//!
//! The loop itself runs where the lattice is; what it does next is decided
//! here, from how many rounds were run since the last pruning and from how
//! many pieces are left.

use crate::error::TrainerError;
use crate::trainer::UnigramTrainer;
use vstd::prelude::*;

verus! {

/// What the training loop does next.
#[derive(Clone, Copy, Debug, PartialEq, Eq, Structural)]
pub enum TrainingAction {
    /// One more round: expectation step, maximization step, new model.
    RunEm,
    /// Prune the pieces, then start a new series of rounds.
    Prune,
    /// Leave the loop and make the final vocabulary.
    Finalize,
}

/// The size at which the loop stops: the vocabulary size and a tenth more,
/// rounded down.
pub open spec fn desired_size(vocab_size: u32) -> nat {
    (vocab_size * 11 / 10) as nat
}

/// What comes after `rounds_done` rounds with `n_pieces` pieces left: a
/// round as long as the series is not complete, then the end if the
/// pieces are few enough, else a pruning.
pub open spec fn action_after(n_sub_iterations: u32, rounds_done: u32, n_pieces: nat, desired: nat) -> (
    TrainingAction,
    u32,
) {
    if rounds_done < n_sub_iterations {
        (TrainingAction::RunEm, (rounds_done + 1) as u32)
    } else if n_pieces <= desired {
        (TrainingAction::Finalize, rounds_done)
    } else {
        (TrainingAction::Prune, 0u32)
    }
}

/// Once a pruning has left no more than `desired` pieces, and no round adds
/// a piece, the loop runs one full series of rounds and then ends.
pub proof fn lemma_loop_ends(n_sub_iterations: u32, rounds_done: u32, n_pieces: nat, desired: nat)
    requires
        n_pieces <= desired,
    ensures
        action_after(n_sub_iterations, rounds_done, n_pieces, desired).0 != TrainingAction::Prune,
        rounds_done >= n_sub_iterations ==> action_after(n_sub_iterations, rounds_done, n_pieces, desired).0
            == TrainingAction::Finalize,
{
}

impl UnigramTrainer {
    /// The number of pieces at which the training loop stops. Where that
    /// number does not fit the machine's sizes, the configuration is
    /// refused.
    pub fn desired_vocab_size(&self) -> (outcome: Result<usize, TrainerError>)
        ensures
            outcome == if desired_size(self.vocab_size) <= usize::MAX {
                Ok::<usize, TrainerError>(desired_size(self.vocab_size) as usize)
            } else {
                Err::<usize, TrainerError>(TrainerError::ConfigurationError)
            },
    {
        let wide: u64 = (self.vocab_size as u64) * 11 / 10;
        if wide > usize::MAX as u64 {
            Err(TrainerError::ConfigurationError)
        } else {
            Ok(wide as usize)
        }
    }

    /// Decides the next step of the training loop and the number of rounds
    /// that then count as run.
    pub fn next_action(&self, rounds_done: u32, n_pieces: usize, desired: usize) -> (next: (TrainingAction, u32))
        ensures
            next == action_after(self.n_sub_iterations, rounds_done, n_pieces as nat, desired as nat),
    {
        if rounds_done < self.n_sub_iterations {
            (TrainingAction::RunEm, rounds_done + 1)
        } else if n_pieces <= desired {
            (TrainingAction::Finalize, rounds_done)
        } else {
            (TrainingAction::Prune, 0)
        }
    }
}

} // verus!
