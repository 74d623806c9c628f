//! Finalizing what was finalized changes nothing.

use crate::finalize::{
    filled, final_candidates, finalized, fit_to_finalize, lemma_arranged_vocabulary,
    lemma_candidates_are_vocabulary, lemma_filled_from_model, missing, missing_before, required_pieces, room,
    taken_pieces,
};
use crate::order::{
    arranged, below_count, is_ranking, lemma_below_total, lemma_ranking_exists, lemma_ranking_is, occurs, precedes,
    ranked, ranking, Order,
};
use crate::pieces::PieceModel;
use crate::score::Score;
use crate::text::lemma_few_characters;
use crate::vocabulary::{has_piece, lemma_position_of};
use vstd::prelude::*;

verus! {

/// Those of the first `n` pieces that are not among `taken`, in their order.
spec fn outside(pieces: Seq<PieceModel>, taken: Seq<PieceModel>, n: int) -> Seq<PieceModel>
    decreases n,
{
    if n <= 0 {
        Seq::empty()
    } else {
        let rest = outside(pieces, taken, n - 1);
        if has_piece(taken, pieces[n - 1].piece) {
            rest
        } else {
            rest.push(pieces[n - 1])
        }
    }
}

/// The piece at index `k` is not among `taken`, and `c` such pieces stand
/// before it.
spec fn stands_at(pieces: Seq<PieceModel>, taken: Seq<PieceModel>, k: int, c: int) -> bool {
    !has_piece(taken, pieces[k].piece) && outside(pieces, taken, k).len() == c
}

proof fn lemma_outside_prefix(pieces: Seq<PieceModel>, taken: Seq<PieceModel>, m: int, n: int)
    requires
        0 <= m <= n,
    ensures
        outside(pieces, taken, m).len() <= outside(pieces, taken, n).len(),
        forall|i: int|
            0 <= i < outside(pieces, taken, m).len() ==> #[trigger] outside(pieces, taken, n)[i] == outside(
                pieces,
                taken,
                m,
            )[i],
    decreases n - m,
{
    if m < n {
        lemma_outside_prefix(pieces, taken, m, n - 1);
    }
}

proof fn lemma_outside_at(pieces: Seq<PieceModel>, taken: Seq<PieceModel>, k: int, n: int)
    requires
        0 <= k < n,
        !has_piece(taken, pieces[k].piece),
    ensures
        outside(pieces, taken, k).len() < outside(pieces, taken, n).len(),
        outside(pieces, taken, n)[outside(pieces, taken, k).len() as int] == pieces[k],
{
    let c = outside(pieces, taken, k).len() as int;
    assert(outside(pieces, taken, k + 1) == outside(pieces, taken, k).push(pieces[k]));
    assert(outside(pieces, taken, k + 1)[c] == pieces[k]);
    lemma_outside_prefix(pieces, taken, k + 1, n);
}

proof fn lemma_outside_hit(pieces: Seq<PieceModel>, taken: Seq<PieceModel>, n: int, c: int)
    requires
        0 <= c < outside(pieces, taken, n).len(),
    ensures
        exists|k: int| 0 <= k < n && #[trigger] stands_at(pieces, taken, k, c),
    decreases n,
{
    if n > 0 {
        if c < outside(pieces, taken, n - 1).len() {
            lemma_outside_hit(pieces, taken, n - 1, c);
            let k = choose|k: int| 0 <= k < n - 1 && #[trigger] stands_at(pieces, taken, k, c);
            assert(stands_at(pieces, taken, k, c));
        } else {
            assert(stands_at(pieces, taken, n - 1, c));
        }
    }
}

proof fn lemma_filled_is_outside(pieces: Seq<PieceModel>, taken: Seq<PieceModel>, capacity: nat, n: int)
    requires
        0 <= n <= pieces.len(),
        outside(pieces, taken, n).len() <= capacity,
    ensures
        filled(pieces.take(n), taken, capacity) == outside(pieces, taken, n),
    decreases n,
{
    if n > 0 {
        lemma_outside_prefix(pieces, taken, n - 1, n);
        lemma_filled_is_outside(pieces, taken, capacity, n - 1);
        assert(pieces.take(n).drop_last() =~= pieces.take(n - 1));
        assert(pieces.take(n).last() == pieces[n - 1]);
    } else {
        assert(pieces.take(0).len() == 0);
    }
}

proof fn lemma_outside_count(pieces: Seq<PieceModel>, taken: Seq<PieceModel>, first: Seq<usize>, m: int)
    requires
        first.len() == pieces.len(),
        0 <= m <= pieces.len(),
        forall|k: int|
            0 <= k < pieces.len() ==> (has_piece(taken, pieces[k].piece) <==> #[trigger] first[k] < taken.len()),
    ensures
        outside(pieces, taken, m).len() == m - below_count(first, taken.len() as int, m),
    decreases m,
{
    if m > 0 {
        lemma_outside_count(pieces, taken, first, m - 1);
        assert(has_piece(taken, pieces[m - 1].piece) <==> first[m - 1] < taken.len());
    }
}

/// The order of the second pass: a taken piece keeps its index, any other
/// piece goes behind the taken ones, to the place that it has among those
/// that are not taken.
spec fn second_order(first: Seq<usize>, pieces: Seq<PieceModel>, taken: Seq<PieceModel>) -> Seq<usize> {
    Seq::new(
        first.len(),
        |i: int|
            if first[i] < taken.len() {
                first[i]
            } else {
                (taken.len() + outside(pieces, taken, i).len()) as usize
            },
    )
}

/// Take a list whose first `t` pieces do not turn up again behind them, and
/// rank it. Then put those `t` pieces in front of the other pieces, these
/// in the order in which the ranking left them, and rank again: the second
/// ranking gives what the first one gave.
proof fn lemma_ranking_settles(pieces: Seq<PieceModel>, t: int)
    requires
        0 <= t <= pieces.len(),
        pieces.len() <= usize::MAX,
        forall|j: int| t <= j < pieces.len() ==> !has_piece(pieces.take(t), #[trigger] pieces[j].piece),
    ensures
        ({
            let taken = pieces.take(t);
            let sorted = ranked(pieces);
            let again = taken + outside(sorted, taken, sorted.len() as int);
            &&& outside(sorted, taken, sorted.len() as int).len() == pieces.len() - t
            &&& ranked(again) == sorted
        }),
{
    let taken = pieces.take(t);
    lemma_ranking_exists(pieces);
    let first = ranking(pieces);
    let sorted = arranged(pieces, first);
    let n = sorted.len() as int;
    let others = outside(sorted, taken, n);
    let again = taken + others;
    let second = second_order(first, sorted, taken);
    assert forall|k: int| 0 <= k < n implies (has_piece(taken, sorted[k].piece) <==> #[trigger] first[k] < taken.len()) by {
        let at = first[k] as int;
        assert(sorted[k] == pieces[at]);
        if at < t {
            assert(taken[at].piece == sorted[k].piece);
        } else {
            assert(!has_piece(taken, pieces[at].piece));
        }
    }
    lemma_outside_count(sorted, taken, first, n);
    lemma_below_total(pieces, first, t);
    assert(others.len() == n - t);
    assert(again.len() == n);
    assert forall|i: int| 0 <= i < n implies 0 <= #[trigger] second[i] < n && again[second[i] as int] == sorted[i] by {
        let at = first[i] as int;
        assert(sorted[i] == pieces[at]);
        if at < t {
            assert(again[at] == taken[at]);
        } else {
            lemma_outside_at(sorted, taken, i, n);
            let c = outside(sorted, taken, i).len() as int;
            assert(again[t + c] == others[c]);
        }
    }
    assert forall|m: int| 0 <= m < n implies #[trigger] occurs(second, m) by {
        if m < t {
            assert(occurs(first, m));
            let k = choose|k: int| 0 <= k < first.len() && #[trigger] first[k] == m;
            assert(second[k] == m);
        } else {
            lemma_outside_hit(sorted, taken, n, m - t);
            let k = choose|k: int| 0 <= k < n && #[trigger] stands_at(sorted, taken, k, m - t);
            assert(!(first[k] < taken.len()));
            assert(second[k] == m);
        }
    }
    assert forall|i: int, j: int| 0 <= i < j < n implies precedes(
        again,
        #[trigger] second[i] as int,
        #[trigger] second[j] as int,
    ) by {
        assert(precedes(pieces, first[i] as int, first[j] as int));
        assert(again[second[i] as int] == sorted[i]);
        assert(again[second[j] as int] == sorted[j]);
        assert(sorted[i] == pieces[first[i] as int]);
        assert(sorted[j] == pieces[first[j] as int]);
        if sorted[j].no_lower(sorted[i]) {
            assert(first[i] < first[j]);
            if first[j] >= t {
                lemma_outside_at(sorted, taken, j, n);
                if first[i] >= t {
                    lemma_outside_at(sorted, taken, i, n);
                    lemma_outside_at(sorted, taken, i, j);
                }
            }
        }
    }
    assert(is_ranking(again, second));
    lemma_ranking_is(again, second);
    assert(arranged(again, second) =~= sorted);
}

proof fn lemma_none_missing(pieces: Seq<PieceModel>, required: Seq<char>, n: int)
    requires
        0 <= n <= required.len(),
        forall|i: int| 0 <= i < required.len() ==> #[trigger] has_piece(pieces, seq![required[i]]),
    ensures
        missing_before(pieces, required, n) == 0,
    decreases n,
{
    if n > 0 {
        lemma_none_missing(pieces, required, n - 1);
        assert(has_piece(pieces, seq![required[n - 1]]));
    }
}

/// Finalizing a finalized vocabulary, with the same required characters
/// and the same vocabulary size, gives that vocabulary again: the same
/// pieces with the same scores in the same order, whatever scores are
/// offered for injection the second time.
pub proof fn lemma_finalize_idempotent(
    model: Seq<PieceModel>,
    required: Seq<char>,
    injected: Seq<Score>,
    offered: Seq<Score>,
    size: u32,
)
    requires
        fit_to_finalize(model, required, injected),
    ensures
        missing(finalized(model, required, injected, size as nat), required) == 0,
        fit_to_finalize(finalized(model, required, injected, size as nat), required, offered),
        finalized(finalized(model, required, injected, size as nat), required, offered, size as nat) == finalized(
            model,
            required,
            injected,
            size as nat,
        ),
{
    let vocab_size = size as nat;
    lemma_few_characters(required);
    let taken = taken_pieces(model, required, injected);
    let t = taken.len() as int;
    let capacity = room(taken.len(), vocab_size);
    let rest = filled(model, taken, capacity);
    let pieces = final_candidates(model, required, injected, vocab_size);
    lemma_filled_from_model(model, taken, capacity);
    lemma_candidates_are_vocabulary(model, required, injected, vocab_size);
    lemma_ranking_exists(pieces);
    let first = ranking(pieces);
    let sorted = finalized(model, required, injected, vocab_size);
    lemma_arranged_vocabulary(pieces, first);
    let n = sorted.len() as int;
    assert(pieces.take(t) =~= taken);
    assert forall|j: int| t <= j < pieces.len() implies !has_piece(pieces.take(t), #[trigger] pieces[j].piece) by {
        assert(pieces[j] == rest[j - t]);
    }
    lemma_ranking_settles(pieces, t);
    // The required characters get the scores that they have.
    let wanted = required_pieces(model, required, injected);
    let wanted_again = required_pieces(sorted, required, offered);
    assert forall|i: int| 0 <= i < required.len() implies #[trigger] has_piece(sorted, seq![required[i]])
        && wanted_again[i] == wanted[i] by {
        let name = seq![required[i]];
        assert(pieces[3 + i] == wanted[i]);
        assert(occurs(first, 3 + i));
        let k = choose|k: int| 0 <= k < first.len() && #[trigger] first[k] == 3 + i;
        assert(sorted[k] == pieces[3 + i]);
        assert(sorted[k].piece == name);
        lemma_position_of(sorted, k);
        assert(has_piece(sorted, seq![required[i]]));
    }
    assert(wanted_again =~= wanted);
    lemma_none_missing(sorted, required, required.len() as int);
    assert(taken_pieces(sorted, required, offered) == taken);
    let others = outside(sorted, taken, n);
    assert(others.len() <= capacity);
    lemma_filled_is_outside(sorted, taken, capacity, n);
    assert(sorted.take(n) =~= sorted);
    assert(final_candidates(sorted, required, offered, vocab_size) == taken + others);
}

} // verus!
