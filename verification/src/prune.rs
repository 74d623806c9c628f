//! Pruning: cutting a list of pieces down to the best of them.

use crate::order::{is_ranking, lemma_ranking_injective, rank, ranking};
use crate::pieces::{PieceModel, SentencePiece};
use crate::trainer::UnigramTrainer;
use vstd::prelude::*;

verus! {

/// The piece at index `i` is one of the first `target` of the ranking.
pub open spec fn survives(order: Seq<usize>, target: nat, i: int) -> bool {
    exists|k: int| 0 <= k < order.len() && k < target && #[trigger] order[k] == i
}

/// Those of the first `n` pieces that survive, in their order.
pub open spec fn survivors(pieces: Seq<PieceModel>, order: Seq<usize>, target: nat, n: int) -> Seq<PieceModel>
    decreases n,
{
    if n <= 0 {
        Seq::empty()
    } else {
        let rest = survivors(pieces, order, target, n - 1);
        if survives(order, target, n - 1) {
            rest.push(pieces[n - 1])
        } else {
            rest
        }
    }
}

/// The `target` best pieces, in the order in which they stood: a piece
/// goes before any piece of higher score does, and of two pieces of equal
/// score the later one goes first.
pub open spec fn pruned(pieces: Seq<PieceModel>, target: nat) -> Seq<PieceModel> {
    survivors(pieces, ranking(pieces), target, pieces.len() as int)
}

proof fn lemma_survivors_step(pieces: Seq<PieceModel>, order: Seq<usize>, t: nat, n: int)
    requires
        is_ranking(pieces, order),
        t < order.len(),
        0 <= n <= pieces.len(),
    ensures
        survivors(pieces, order, t + 1, n).len() == survivors(pieces, order, t, n).len() + if order[t as int] < n {
            1int
        } else {
            0int
        },
    decreases n,
{
    if n > 0 {
        lemma_survivors_step(pieces, order, t, n - 1);
        let i = n - 1;
        if survives(order, t, i) {
            let k = choose|k: int| 0 <= k < order.len() && k < t && #[trigger] order[k] == i;
            assert(order[k] == i);
            lemma_ranking_injective(pieces, order, k, t as int);
            assert(survives(order, t + 1, i));
        } else if order[t as int] == i {
            assert(survives(order, t + 1, i));
        } else {
            if survives(order, t + 1, i) {
                let k = choose|k: int| 0 <= k < order.len() && k < t + 1 && #[trigger] order[k] == i;
                assert(k < t);
            }
        }
    }
}

proof fn lemma_no_survivors(pieces: Seq<PieceModel>, order: Seq<usize>, n: int)
    ensures
        survivors(pieces, order, 0, n).len() == 0,
    decreases n,
{
    if n > 0 {
        lemma_no_survivors(pieces, order, n - 1);
    }
}

proof fn lemma_survivors_capped(pieces: Seq<PieceModel>, order: Seq<usize>, target: nat, n: int)
    requires
        target >= order.len(),
    ensures
        survivors(pieces, order, target, n) == survivors(pieces, order, order.len(), n),
    decreases n,
{
    if n > 0 {
        lemma_survivors_capped(pieces, order, target, n - 1);
        let i = n - 1;
        if survives(order, target, i) {
            let k = choose|k: int| 0 <= k < order.len() && k < target && #[trigger] order[k] == i;
            assert(order[k] == i);
        }
        if survives(order, order.len(), i) {
            let k = choose|k: int| 0 <= k < order.len() && k < order.len() && #[trigger] order[k] == i;
            assert(order[k] == i);
        }
    }
}

proof fn lemma_survivors_count(pieces: Seq<PieceModel>, order: Seq<usize>, t: nat)
    requires
        is_ranking(pieces, order),
        t <= order.len(),
    ensures
        survivors(pieces, order, t, pieces.len() as int).len() == t,
    decreases t,
{
    if t == 0 {
        lemma_no_survivors(pieces, order, pieces.len() as int);
    } else {
        lemma_survivors_count(pieces, order, (t - 1) as nat);
        lemma_survivors_step(pieces, order, (t - 1) as nat, pieces.len() as int);
    }
}

/// Pruning leaves `target` pieces, or all where there are no more.
pub proof fn lemma_pruned_len(pieces: Seq<PieceModel>, order: Seq<usize>, target: nat)
    requires
        is_ranking(pieces, order),
    ensures
        survivors(pieces, order, target, pieces.len() as int).len() == if target <= pieces.len() {
            target
        } else {
            pieces.len()
        },
{
    if target <= order.len() {
        lemma_survivors_count(pieces, order, target);
    } else {
        lemma_survivors_capped(pieces, order, target, pieces.len() as int);
        lemma_survivors_count(pieces, order, order.len());
    }
}

/// A list of `n` marks, none set.
fn unmarked(n: usize) -> (marks: Vec<bool>)
    ensures
        marks.len() == n,
        forall|i: int| 0 <= i < n ==> !marks[i],
{
    let mut marks: Vec<bool> = Vec::new();
    let mut i: usize = 0;
    while i < n
        invariant
            i <= n,
            marks.len() == i,
            forall|k: int| 0 <= k < i ==> !marks[k],
        decreases n - i,
    {
        marks.push(false);
        i = i + 1;
    }
    marks
}

impl UnigramTrainer {
    /// Cuts `pieces` down to the `target` best of them and leaves those in
    /// the order in which they stood. Lower scores go first; of two pieces
    /// of equal score the later one goes first.
    pub fn prune_sentence_pieces(&self, pieces: &Vec<SentencePiece>, target: usize) -> (kept: Vec<SentencePiece>)
        ensures
            kept.deep_view() == pruned(pieces.deep_view(), target as nat),
            is_ranking(pieces.deep_view(), ranking(pieces.deep_view())),
            kept.len() == if target <= pieces.len() {
                target
            } else {
                pieces.len()
            },
    {
        let ghost models = pieces.deep_view();
        let order = rank(pieces);
        let n: usize = pieces.len();
        let best: usize = if target <= n {
            target
        } else {
            n
        };
        let mut marks = unmarked(n);
        let mut k: usize = 0;
        while k < best
            invariant
                k <= best <= n,
                n == pieces.len(),
                models == pieces.deep_view(),
                is_ranking(models, order@),
                marks.len() == n,
                forall|i: int| 0 <= i < n ==> marks[i] == survives(order@, k as nat, i),
            decreases best - k,
        {
            let at: usize = order[k];
            let ghost before = marks@;
            marks.set(at, true);
            proof {
                assert forall|i: int| 0 <= i < n implies marks[i] == survives(order@, (k + 1) as nat, i) by {
                    if i == at {
                        assert(order@[k as int] == i);
                    } else {
                        assert(before[i] == survives(order@, k as nat, i));
                        if survives(order@, (k + 1) as nat, i) {
                            let j = choose|j: int| 0 <= j < order@.len() && j < k + 1 && #[trigger] order@[j] == i;
                            assert(j < k);
                        }
                        if survives(order@, k as nat, i) {
                            let j = choose|j: int| 0 <= j < order@.len() && j < k && #[trigger] order@[j] == i;
                            assert(order@[j] == i);
                        }
                    }
                }
            }
            k = k + 1;
        }
        proof {
            assert forall|i: int| 0 <= i < n implies marks[i] == survives(order@, target as nat, i) by {
                if survives(order@, target as nat, i) {
                    let j = choose|j: int| 0 <= j < order@.len() && j < target && #[trigger] order@[j] == i;
                    assert(order@[j] == i);
                }
                if survives(order@, best as nat, i) {
                    let j = choose|j: int| 0 <= j < order@.len() && j < best && #[trigger] order@[j] == i;
                    assert(order@[j] == i);
                }
            }
        }
        let mut kept: Vec<SentencePiece> = Vec::new();
        let mut i: usize = 0;
        while i < n
            invariant
                i <= n,
                n == pieces.len(),
                marks.len() == n,
                models == pieces.deep_view(),
                forall|m: int| 0 <= m < n ==> marks[m] == survives(order@, target as nat, m),
                kept.deep_view() =~= survivors(models, order@, target as nat, i as int),
            decreases n - i,
        {
            let ghost prior = kept.deep_view();
            if marks[i] {
                let piece = SentencePiece { piece: pieces[i].piece.clone(), score: pieces[i].score };
                kept.push(piece);
                assert(kept.deep_view() =~= prior.push(piece.deep_view()));
            }
            i = i + 1;
        }
        proof {
            lemma_pruned_len(models, order@, target as nat);
            assert(kept.deep_view().len() == kept.len());
        }
        kept
    }
}

} // verus!
