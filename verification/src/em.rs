//! What the rounds of expectation and maximization decide on plain values.
//!
//! The lattice work of the expectation step and the smoothing of the
//! maximization step are done by the caller. Here are the rules around
//! them: what a corpus must hold to be trained on, when a sentence ends the
//! training, and which pieces outlive a round.

use crate::error::TrainerError;
use crate::pieces::{PieceModel, SentencePiece};
use crate::score::{Score, HALF_BITS};
use crate::trainer::UnigramTrainer;
use crate::word_counts::WordCounts;
use vstd::prelude::*;

verus! {

/// The sum of the first `n` counts.
pub open spec fn frequency_sum(pairs: Seq<(Seq<char>, u32)>, n: int) -> nat
    decreases n,
{
    if n <= 0 {
        0
    } else {
        frequency_sum(pairs, n - 1) + pairs[n - 1].1 as nat
    }
}

/// The sum grows with the number of counts.
pub proof fn lemma_frequency_sum_grows(pairs: Seq<(Seq<char>, u32)>, n: int, m: int)
    requires
        0 <= n <= m,
    ensures
        frequency_sum(pairs, n) <= frequency_sum(pairs, m),
    decreases m - n,
{
    if n < m {
        lemma_frequency_sum_grows(pairs, n, m - 1);
    }
}

/// What [`UnigramTrainer::total_frequency`] gives for these counts.
pub open spec fn is_total_frequency(pairs: Seq<(Seq<char>, u32)>, outcome: Result<u64, TrainerError>) -> bool {
    let sum = frequency_sum(pairs, pairs.len() as int);
    match outcome {
        Ok(total) => total == sum && sum > 0,
        Err(e) => if sum == 0 {
            e == TrainerError::EmptyCorpus
        } else {
            e == TrainerError::CorpusTooLarge && sum > u64::MAX
        },
    }
}

/// An expected count counts: it is not below one half.
pub open spec fn is_significant(count: Score) -> bool {
    !count.below(Score { bits: HALF_BITS })
}

/// The pieces whose expected count is significant, in their order, each with
/// its expected count in the place of its score.
pub open spec fn retained(pieces: Seq<PieceModel>, expected: Seq<Score>) -> Seq<PieceModel>
    decreases pieces.len(),
{
    if pieces.len() == 0 || expected.len() == 0 {
        Seq::empty()
    } else {
        let rest = retained(pieces.drop_last(), expected.drop_last());
        if is_significant(expected.last()) {
            rest.push(PieceModel { piece: pieces.last().piece, score: expected.last() })
        } else {
            rest
        }
    }
}

/// What [`UnigramTrainer::significant_pieces`] gives.
pub open spec fn is_retention(
    pieces: Seq<PieceModel>,
    expected: Seq<Score>,
    outcome: Result<Vec<SentencePiece>, TrainerError>,
) -> bool {
    match outcome {
        Ok(kept) => pieces.len() == expected.len() && kept.deep_view() == retained(pieces, expected),
        Err(e) => pieces.len() != expected.len() && e == TrainerError::SizeMismatch,
    }
}

/// The maximization step never adds a piece, and every piece that it keeps
/// had an expected count that is not below one half: where that count is a
/// number, it is one half or more.
pub proof fn lemma_retained_significant(pieces: Seq<PieceModel>, expected: Seq<Score>)
    requires
        pieces.len() == expected.len(),
    ensures
        retained(pieces, expected).len() <= pieces.len(),
        forall|i: int|
            0 <= i < retained(pieces, expected).len() ==> {
                let kept = #[trigger] retained(pieces, expected)[i];
                &&& is_significant(kept.score)
                &&& kept.score.is_number() ==> kept.score.at_least(Score { bits: HALF_BITS })
                &&& exists|k: int|
                    0 <= k < pieces.len() && pieces[k].piece == kept.piece && #[trigger] expected[k] == kept.score
            },
    decreases pieces.len(),
{
    if pieces.len() > 0 {
        let rest = retained(pieces.drop_last(), expected.drop_last());
        let all = retained(pieces, expected);
        lemma_retained_significant(pieces.drop_last(), expected.drop_last());
        assert forall|i: int| 0 <= i < all.len() implies {
            let kept = #[trigger] all[i];
            &&& is_significant(kept.score)
            &&& kept.score.is_number() ==> kept.score.at_least(Score { bits: HALF_BITS })
            &&& exists|k: int|
                0 <= k < pieces.len() && pieces[k].piece == kept.piece && #[trigger] expected[k] == kept.score
        } by {
            if i < rest.len() {
                assert(all[i] == rest[i]);
                let k = choose|k: int|
                    0 <= k < pieces.len() - 1 && pieces.drop_last()[k].piece == rest[i].piece
                        && #[trigger] expected.drop_last()[k] == rest[i].score;
                assert(pieces[k].piece == all[i].piece && expected[k] == all[i].score);
            } else {
                let k = pieces.len() - 1;
                assert(pieces[k].piece == all[i].piece && expected[k] == all[i].score);
            }
        }
    }
}

impl UnigramTrainer {
    /// The number of word occurrences in the corpus, by which the
    /// expectation step divides. A corpus without words, or one whose
    /// counts are all zero, is no training data.
    pub fn total_frequency(&self, word_counts: &WordCounts) -> (outcome: Result<u64, TrainerError>)
        ensures
            is_total_frequency(word_counts@, outcome),
    {
        let ghost pairs = word_counts@;
        let mut total: u64 = 0;
        let mut i: usize = 0;
        while i < word_counts.len()
            invariant
                i <= word_counts@.len(),
                pairs == word_counts@,
                total == frequency_sum(pairs, i as int),
            decreases word_counts@.len() - i,
        {
            let count: u64 = word_counts.count(i) as u64;
            if count > u64::MAX - total {
                proof {
                    lemma_frequency_sum_grows(pairs, i as int + 1, pairs.len() as int);
                }
                return Err(TrainerError::CorpusTooLarge);
            }
            total = total + count;
            i = i + 1;
        }
        if total == 0 {
            Err(TrainerError::EmptyCorpus)
        } else {
            Ok(total)
        }
    }

    /// What one sentence adds to the token count of the expectation step.
    /// A sentence whose log-partition value is a NaN ends the training.
    pub fn count_sentence(&self, tokens: u64, log_partition: Score, best_path: usize) -> (outcome: Result<
        u64,
        TrainerError,
    >)
        requires
            tokens + best_path <= u64::MAX,
        ensures
            outcome == if log_partition.is_number() {
                Ok::<u64, TrainerError>((tokens + best_path) as u64)
            } else {
                Err::<u64, TrainerError>(TrainerError::NumericInstability)
            },
    {
        if log_partition.is_nan() {
            Err(TrainerError::NumericInstability)
        } else {
            Ok(tokens + best_path as u64)
        }
    }

    /// The first half of the maximization step: drops every piece whose
    /// expected count is below one half. The pieces that stay carry their
    /// expected count, which the caller then smooths into a score. Pieces
    /// and counts that are not of one length are refused.
    pub fn significant_pieces(&self, pieces: &Vec<SentencePiece>, expected: &Vec<Score>) -> (outcome: Result<
        Vec<SentencePiece>,
        TrainerError,
    >)
        ensures
            is_retention(pieces.deep_view(), expected@, outcome),
            outcome matches Ok(kept) ==> kept.len() <= pieces.len() && forall|i: int|
                0 <= i < kept.len() ==> is_significant(#[trigger] kept[i].score),
    {
        if pieces.len() != expected.len() {
            return Err(TrainerError::SizeMismatch);
        }
        let ghost models = pieces.deep_view();
        let mut kept: Vec<SentencePiece> = Vec::new();
        let mut i: usize = 0;
        assert(models.take(0) =~= Seq::empty());
        while i < pieces.len()
            invariant
                i <= pieces.len(),
                pieces.len() == expected.len(),
                models == pieces.deep_view(),
                kept.deep_view() =~= retained(models.take(i as int), expected@.take(i as int)),
                kept.len() <= i,
                forall|n: int| 0 <= n < kept.len() ==> is_significant(#[trigger] kept[n].score),
            decreases pieces.len() - i,
        {
            let count: Score = expected[i];
            let ghost prior = kept.deep_view();
            proof {
                assert(models.take(i as int + 1).drop_last() =~= models.take(i as int));
                assert(expected@.take(i as int + 1).drop_last() =~= expected@.take(i as int));
                assert(models.take(i as int + 1).last() == models[i as int]);
                assert(expected@.take(i as int + 1).last() == count);
            }
            if !count.is_below(Score::half()) {
                let piece = SentencePiece { piece: pieces[i].piece.clone(), score: count };
                kept.push(piece);
                assert(kept.deep_view() =~= prior.push(piece.deep_view()));
            }
            i = i + 1;
        }
        proof {
            assert(models.take(i as int) =~= models);
            assert(expected@.take(i as int) =~= expected@);
        }
        Ok(kept)
    }
}

} // verus!
