//! The last step of training: the vocabulary that is handed out.

use crate::order::{arranged, is_ranking, occurs, precedes, rank, ranked, ranking, Order};
use crate::pieces::{PieceModel, SentencePiece};
use crate::score::Score;
use crate::text::char_at;
use crate::trainer::UnigramTrainer;
use crate::vocabulary::{
    validate_vocabulary, distinct_pieces, find_piece, has_piece, is_vocabulary, lemma_position_of, score_of,
};
use vstd::prelude::*;
use vstd::string::StringExecFns;

verus! {

/// The name of the piece that opens a sentence.
pub open spec fn bos() -> Seq<char> {
    seq!['<', 'b', 'o', 's', '>']
}

/// The name of the piece that closes a sentence.
pub open spec fn eos() -> Seq<char> {
    seq!['<', 'e', 'o', 's', '>']
}

/// The name of the piece that stands for what is not known.
pub open spec fn unk() -> Seq<char> {
    seq!['<', 'u', 'n', 'k', '>']
}

/// The three reserved pieces, each with score zero.
pub open spec fn reserved() -> Seq<PieceModel> {
    seq![
        PieceModel { piece: bos(), score: Score { bits: 0 } },
        PieceModel { piece: eos(), score: Score { bits: 0 } },
        PieceModel { piece: unk(), score: Score { bits: 0 } },
    ]
}

/// How many of the first `n` required characters the model lacks.
pub open spec fn missing_before(model: Seq<PieceModel>, required: Seq<char>, n: int) -> nat
    decreases n,
{
    if n <= 0 {
        0
    } else {
        missing_before(model, required, n - 1) + if has_piece(model, seq![required[n - 1]]) {
            0nat
        } else {
            1nat
        }
    }
}

/// The piece for the required character at index `i`: with the score that
/// the model gives it, or, where the model lacks it, with the next of the
/// injected scores that no earlier character has taken.
pub open spec fn required_piece(
    model: Seq<PieceModel>,
    required: Seq<char>,
    injected: Seq<Score>,
    i: int,
) -> PieceModel {
    let name = seq![required[i]];
    PieceModel {
        piece: name,
        score: if has_piece(model, name) {
            score_of(model, name)
        } else {
            injected[missing_before(model, required, i) as int]
        },
    }
}

/// The pieces for the required characters, in their order.
pub open spec fn required_pieces(model: Seq<PieceModel>, required: Seq<char>, injected: Seq<Score>) -> Seq<
    PieceModel,
> {
    Seq::new(required.len(), |i: int| required_piece(model, required, injected, i))
}

/// The pieces of the model, in its order, that are not among `taken`, as
/// long as there are fewer than `capacity` of them.
pub open spec fn filled(model: Seq<PieceModel>, taken: Seq<PieceModel>, capacity: nat) -> Seq<PieceModel>
    decreases model.len(),
{
    if model.len() == 0 {
        Seq::empty()
    } else {
        let rest = filled(model.drop_last(), taken, capacity);
        let piece = model.last();
        if rest.len() < capacity && !has_piece(taken, piece.piece) {
            rest.push(piece)
        } else {
            rest
        }
    }
}

/// The pieces that are always in: the reserved ones, then the required
/// characters.
pub open spec fn taken_pieces(model: Seq<PieceModel>, required: Seq<char>, injected: Seq<Score>) -> Seq<
    PieceModel,
> {
    reserved() + required_pieces(model, required, injected)
}

/// The room that is left for other pieces of the model.
pub open spec fn room(taken: nat, vocab_size: nat) -> nat {
    if vocab_size > taken {
        (vocab_size - taken) as nat
    } else {
        0
    }
}

/// What goes into the final vocabulary, before it is put in order: the
/// reserved pieces, the required characters, then pieces of the model
/// until the vocabulary has `vocab_size` pieces.
pub open spec fn final_candidates(
    model: Seq<PieceModel>,
    required: Seq<char>,
    injected: Seq<Score>,
    vocab_size: nat,
) -> Seq<PieceModel> {
    let taken = taken_pieces(model, required, injected);
    taken + filled(model, taken, room(taken.len(), vocab_size))
}

/// The final vocabulary: the candidates by falling score, those of equal
/// score in the order in which they went in.
pub open spec fn finalized(
    model: Seq<PieceModel>,
    required: Seq<char>,
    injected: Seq<Score>,
    vocab_size: nat,
) -> Seq<PieceModel> {
    ranked(final_candidates(model, required, injected, vocab_size))
}

/// How many of the required characters the model lacks.
pub open spec fn missing(model: Seq<PieceModel>, required: Seq<char>) -> nat {
    missing_before(model, required, required.len() as int)
}

/// What a caller of the finalizer has to hand in: a vocabulary, required
/// characters without repetition, and a score to inject, a number, for
/// each of them that the model lacks.
pub open spec fn fit_to_finalize(model: Seq<PieceModel>, required: Seq<char>, injected: Seq<Score>) -> bool {
    &&& is_vocabulary(model)
    &&& required.no_duplicates()
    &&& injected.len() >= missing(model, required)
    &&& forall|i: int| 0 <= i < missing(model, required) ==> (#[trigger] injected[i]).is_number()
}

/// The count of missing characters grows with the characters looked at.
pub proof fn lemma_missing_grows(model: Seq<PieceModel>, required: Seq<char>, n: int, m: int)
    requires
        0 <= n <= m,
    ensures
        missing_before(model, required, n) <= missing_before(model, required, m),
    decreases m - n,
{
    if n < m {
        lemma_missing_grows(model, required, n, m - 1);
    }
}

/// Once the room is used up, the rest of the model adds nothing.
pub proof fn lemma_filled_full(model: Seq<PieceModel>, taken: Seq<PieceModel>, capacity: nat, k: int)
    requires
        0 <= k <= model.len(),
        filled(model.take(k), taken, capacity).len() >= capacity,
    ensures
        filled(model, taken, capacity) == filled(model.take(k), taken, capacity),
    decreases model.len() - k,
{
    if k < model.len() {
        assert(model.take(k + 1).drop_last() =~= model.take(k));
        lemma_filled_full(model, taken, capacity, k + 1);
    } else {
        assert(model.take(k) =~= model);
    }
}

/// What is filled in comes from the model, in its order, and is not among
/// the pieces already taken.
pub proof fn lemma_filled_from_model(model: Seq<PieceModel>, taken: Seq<PieceModel>, capacity: nat)
    requires
        distinct_pieces(model),
    ensures
        filled(model, taken, capacity).len() <= capacity,
        filled(model, taken, capacity).len() <= model.len(),
        forall|i: int|
            0 <= i < filled(model, taken, capacity).len() ==> model.contains(
                #[trigger] filled(model, taken, capacity)[i],
            ) && !has_piece(taken, filled(model, taken, capacity)[i].piece),
        distinct_pieces(filled(model, taken, capacity)),
    decreases model.len(),
{
    if model.len() > 0 {
        let shorter = model.drop_last();
        let rest = filled(shorter, taken, capacity);
        let all = filled(model, taken, capacity);
        lemma_filled_from_model(shorter, taken, capacity);
        assert forall|i: int| 0 <= i < all.len() implies model.contains(#[trigger] all[i]) && !has_piece(
            taken,
            all[i].piece,
        ) by {
            if i < rest.len() {
                assert(all[i] == rest[i]);
                assert(shorter.contains(rest[i]));
                let k = choose|k: int| 0 <= k < shorter.len() && shorter[k] == rest[i];
                assert(model[k] == rest[i]);
            } else {
                assert(all[i] == model[model.len() - 1]);
            }
        }
        assert forall|i: int, j: int| 0 <= i < j < all.len() implies (#[trigger] all[i]).piece != (
        #[trigger] all[j]).piece by {
            assert(all[i] == rest[i]);
            if j < rest.len() {
                assert(all[j] == rest[j]);
            } else {
                assert(shorter.contains(rest[i]));
                let k = choose|k: int| 0 <= k < shorter.len() && shorter[k] == rest[i];
                assert(model[k].piece != model[model.len() - 1].piece);
            }
        }
    }
}

/// The candidates for the final vocabulary are a vocabulary.
pub proof fn lemma_candidates_are_vocabulary(
    model: Seq<PieceModel>,
    required: Seq<char>,
    injected: Seq<Score>,
    vocab_size: nat,
)
    requires
        fit_to_finalize(model, required, injected),
    ensures
        is_vocabulary(final_candidates(model, required, injected, vocab_size)),
{
    let taken = taken_pieces(model, required, injected);
    let capacity = room(taken.len(), vocab_size);
    let rest = filled(model, taken, capacity);
    let all = final_candidates(model, required, injected, vocab_size);
    lemma_filled_from_model(model, taken, capacity);
    assert forall|i: int| 0 <= i < all.len() implies (#[trigger] all[i]).score.is_number() by {
        if 3 <= i < taken.len() {
            let n = i - 3;
            let name = seq![required[n]];
            assert(all[i] == required_piece(model, required, injected, n));
            lemma_missing_grows(model, required, n + 1, required.len() as int);
            if has_piece(model, name) {
                let k = choose|k: int| 0 <= k < model.len() && #[trigger] model[k].piece == name;
                assert(model[k].score.is_number());
            }
        } else if i >= taken.len() {
            assert(all[i] == rest[i - taken.len()]);
            assert(model.contains(rest[i - taken.len()]));
        }
    }
    assert forall|i: int, j: int| 0 <= i < j < all.len() implies (#[trigger] all[i]).piece != (
    #[trigger] all[j]).piece by {
        if j < 3 {
            assert(bos()[1] != eos()[1]);
            assert(bos()[1] != unk()[1]);
            assert(eos()[1] != unk()[1]);
        } else if j < taken.len() {
            assert(all[j].piece == seq![required[j - 3]]);
            if i < 3 {
                assert(all[i].piece.len() == 5);
            } else {
                assert(all[i].piece == seq![required[i - 3]]);
                assert(all[i].piece[0] != all[j].piece[0]);
            }
        } else {
            assert(all[j] == rest[j - taken.len()]);
            if i < taken.len() {
                assert(taken[i] == all[i]);
            } else {
                assert(all[i] == rest[i - taken.len()]);
            }
        }
    }
}

/// Putting a vocabulary in the order of its ranking leaves it a vocabulary.
pub proof fn lemma_arranged_vocabulary(pieces: Seq<PieceModel>, order: Seq<usize>)
    requires
        is_vocabulary(pieces),
        is_ranking(pieces, order),
    ensures
        is_vocabulary(arranged(pieces, order)),
{
    let sorted = arranged(pieces, order);
    assert forall|i: int, j: int| 0 <= i < j < sorted.len() implies (#[trigger] sorted[i]).piece != (
    #[trigger] sorted[j]).piece by {
        assert(precedes(pieces, order[i] as int, order[j] as int));
        PieceModel::lemma_total(pieces[order[i] as int], pieces[order[i] as int]);
        if order[i] < order[j] {
            assert(pieces[order[i] as int].piece != pieces[order[j] as int].piece);
        } else if order[j] < order[i] {
            assert(pieces[order[j] as int].piece != pieces[order[i] as int].piece);
        }
    }
    assert forall|i: int| 0 <= i < sorted.len() implies (#[trigger] sorted[i]).score.is_number() by {
        assert(pieces[order[i] as int].score.is_number());
    }
}

/// From each piece to the next the score falls or stays.
pub open spec fn by_falling_score(pieces: Seq<PieceModel>) -> bool {
    forall|i: int, j: int|
        0 <= i < j < pieces.len() ==> (#[trigger] pieces[i]).score.rank() >= (#[trigger] pieces[j]).score.rank()
}

/// Putting pieces in the order of their ranking loses none of them and
/// leaves them by falling score.
pub proof fn lemma_arranged_complete(pieces: Seq<PieceModel>, order: Seq<usize>)
    requires
        is_ranking(pieces, order),
    ensures
        arranged(pieces, order).len() == pieces.len(),
        forall|k: int| 0 <= k < pieces.len() ==> arranged(pieces, order).contains(#[trigger] pieces[k]),
        by_falling_score(arranged(pieces, order)),
{
    let sorted = arranged(pieces, order);
    assert forall|k: int| 0 <= k < pieces.len() implies sorted.contains(#[trigger] pieces[k]) by {
        assert(occurs(order, k));
        let m = choose|m: int| 0 <= m < order.len() && #[trigger] order[m] == k;
        assert(sorted[m] == pieces[k]);
    }
    assert forall|i: int, j: int| 0 <= i < j < sorted.len() implies (#[trigger] sorted[i]).score.rank() >= (
    #[trigger] sorted[j]).score.rank() by {
        assert(precedes(pieces, order[i] as int, order[j] as int));
    }
}

/// A copy of `piece`.
fn copy_piece(piece: &SentencePiece) -> (copy: SentencePiece)
    ensures
        copy.deep_view() == piece.deep_view(),
{
    SentencePiece { piece: piece.piece.clone(), score: piece.score }
}

/// The three reserved pieces.
fn reserved_pieces() -> (pieces: Vec<SentencePiece>)
    ensures
        pieces.deep_view() == reserved(),
{
    proof {
        reveal_strlit("<bos>");
        reveal_strlit("<eos>");
        reveal_strlit("<unk>");
    }
    let bos_name = String::from_str("<bos>");
    let eos_name = String::from_str("<eos>");
    let unk_name = String::from_str("<unk>");
    assert(bos_name@ =~= bos());
    assert(eos_name@ =~= eos());
    assert(unk_name@ =~= unk());
    let mut pieces: Vec<SentencePiece> = Vec::new();
    pieces.push(SentencePiece { piece: bos_name, score: Score::zero() });
    pieces.push(SentencePiece { piece: eos_name, score: Score::zero() });
    pieces.push(SentencePiece { piece: unk_name, score: Score::zero() });
    assert(pieces.deep_view() =~= reserved());
    pieces
}

/// Tells whether no character stands twice in `chars`.
pub fn all_different(chars: &Vec<char>) -> (ok: bool)
    ensures
        ok == chars@.no_duplicates(),
{
    let mut i: usize = 0;
    while i < chars.len()
        invariant
            i <= chars.len(),
            forall|a: int, b: int| 0 <= a < b < i ==> chars[a] != chars[b],
        decreases chars.len() - i,
    {
        let mut j: usize = 0;
        while j < i
            invariant
                j <= i < chars.len(),
                forall|a: int| 0 <= a < j ==> chars[a] != chars[i as int],
            decreases i - j,
        {
            if char_at(chars.as_slice(), j) == char_at(chars.as_slice(), i) {
                return false;
            }
            j = j + 1;
        }
        i = i + 1;
    }
    assert forall|a: int, b: int| 0 <= a < chars.len() && 0 <= b < chars.len() && a != b implies chars[a]
        != chars[b] by {
        if a < b {
            assert(chars[a] != chars[b]);
        } else {
            assert(chars[b] != chars[a]);
        }
    }
    true
}

/// Counts the required characters that the model lacks.
pub fn count_missing(model: &Vec<SentencePiece>, required_chars: &Vec<char>) -> (n: usize)
    ensures
        n == missing(model.deep_view(), required_chars@),
{
    let ghost models = model.deep_view();
    let mut n: usize = 0;
    let mut i: usize = 0;
    while i < required_chars.len()
        invariant
            i <= required_chars.len(),
            models == model.deep_view(),
            n == missing_before(models, required_chars@, i as int),
            n <= i,
        decreases required_chars.len() - i,
    {
        let c: char = char_at(required_chars.as_slice(), i);
        let mut name = String::new();
        name.push(c);
        assert(name@ =~= seq![c]);
        if find_piece(model, &name).is_none() {
            n = n + 1;
        }
        i = i + 1;
    }
    n
}

/// Tells whether the finalizer takes these: see [`fit_to_finalize`].
pub fn can_finalize(model: &Vec<SentencePiece>, required_chars: &Vec<char>, injected: &Vec<Score>) -> (ok: bool)
    ensures
        ok == fit_to_finalize(model.deep_view(), required_chars@, injected@),
{
    if !validate_vocabulary(model) || !all_different(required_chars) {
        return false;
    }
    let needed: usize = count_missing(model, required_chars);
    if injected.len() < needed {
        return false;
    }
    let mut i: usize = 0;
    while i < needed
        invariant
            i <= needed <= injected.len(),
            needed == missing(model.deep_view(), required_chars@),
            forall|k: int| 0 <= k < i ==> (#[trigger] injected[k]).is_number(),
        decreases needed - i,
    {
        if injected[i].is_nan() {
            return false;
        }
        i = i + 1;
    }
    true
}

impl UnigramTrainer {
    /// Makes the final vocabulary from the trained model. The reserved
    /// pieces go in with score zero; then each required character, with the
    /// score that the model gives it or, where the model lacks it, with the
    /// next unused one of the `injected` scores, of which there must be
    /// enough; then pieces of the model,
    /// in its order, until there are `vocab_size` pieces. The result holds
    /// them by falling score, those of equal score in the order in which
    /// they went in. Every reserved piece and every required character is
    /// in it, whatever the vocabulary size.
    pub fn finalize(
        &self,
        model: &Vec<SentencePiece>,
        required_chars: &Vec<char>,
        injected: &Vec<Score>,
    ) -> (pieces: Vec<SentencePiece>)
        requires
            fit_to_finalize(model.deep_view(), required_chars@, injected@),
        ensures
            pieces.deep_view() == finalized(
                model.deep_view(),
                required_chars@,
                injected@,
                self.vocab_size as nat,
            ),
            is_ranking(
                final_candidates(model.deep_view(), required_chars@, injected@, self.vocab_size as nat),
                ranking(final_candidates(model.deep_view(), required_chars@, injected@, self.vocab_size as nat)),
            ),
            pieces.len() == final_candidates(
                model.deep_view(),
                required_chars@,
                injected@,
                self.vocab_size as nat,
            ).len(),
            is_vocabulary(pieces.deep_view()),
            by_falling_score(pieces.deep_view()),
            forall|i: int| 0 <= i < 3 ==> pieces.deep_view().contains(#[trigger] reserved()[i]),
            forall|i: int|
                0 <= i < required_chars.len() ==> pieces.deep_view().contains(
                    #[trigger] required_piece(model.deep_view(), required_chars@, injected@, i),
                ),
            3 + required_chars.len() <= pieces.len(),
            pieces.len() <= self.vocab_size || pieces.len() == 3 + required_chars.len(),
            pieces.len() <= 3 + required_chars.len() + model.len(),
    {
        let ghost models = model.deep_view();
        let ghost wanted = required_pieces(models, required_chars@, injected@);
        let mut taken = reserved_pieces();
        let mut lacking: usize = 0;
        let mut i: usize = 0;
        while i < required_chars.len()
            invariant
                i <= required_chars.len(),
                models == model.deep_view(),
                fit_to_finalize(models, required_chars@, injected@),
                wanted == required_pieces(models, required_chars@, injected@),
                lacking == missing_before(models, required_chars@, i as int),
                lacking <= i,
                taken.deep_view() =~= reserved() + wanted.take(i as int),
            decreases required_chars.len() - i,
        {
            let c: char = char_at(required_chars.as_slice(), i);
            let mut name = String::new();
            name.push(c);
            assert(name@ =~= seq![c]);
            let ghost prior = taken.deep_view();
            let score: Score = match find_piece(model, &name) {
                Some(k) => {
                    proof {
                        assert(models[k as int].piece == name@);
                        lemma_position_of(models, k as int);
                    }
                    model[k].score
                },
                None => {
                    proof {
                        lemma_missing_grows(models, required_chars@, i as int + 1, required_chars.len() as int);
                    }
                    let fresh: Score = injected[lacking];
                    lacking = lacking + 1;
                    fresh
                },
            };
            let piece = SentencePiece { piece: name, score };
            assert(piece.deep_view() == wanted[i as int]);
            taken.push(piece);
            assert(taken.deep_view() =~= prior.push(piece.deep_view()));
            i = i + 1;
        }
        assert(wanted.take(i as int) =~= wanted);
        let ghost taken_models = taken.deep_view();
        assert(taken_models == taken_pieces(models, required_chars@, injected@));
        let size: usize = self.vocab_size as usize;
        let capacity: usize = if size > taken.len() {
            size - taken.len()
        } else {
            0
        };
        assert(capacity == room(taken_models.len(), self.vocab_size as nat));
        let mut rest: Vec<SentencePiece> = Vec::new();
        let mut k: usize = 0;
        assert(models.take(0) =~= Seq::empty());
        while k < model.len() && rest.len() < capacity
            invariant
                k <= model.len(),
                models == model.deep_view(),
                taken_models == taken.deep_view(),
                rest.deep_view() =~= filled(models.take(k as int), taken_models, capacity as nat),
            decreases model.len() - k,
        {
            let ghost prior = rest.deep_view();
            proof {
                assert(models.take(k as int + 1).drop_last() =~= models.take(k as int));
                assert(models.take(k as int + 1).last() == models[k as int]);
            }
            if find_piece(&taken, &model[k].piece).is_none() {
                let piece = copy_piece(&model[k]);
                rest.push(piece);
                assert(rest.deep_view() =~= prior.push(piece.deep_view()));
            }
            k = k + 1;
        }
        proof {
            if k < model.len() {
                lemma_filled_full(models, taken_models, capacity as nat, k as int);
            } else {
                assert(models.take(k as int) =~= models);
            }
        }
        let ghost rest_models = rest.deep_view();
        taken.append(&mut rest);
        let ghost all = final_candidates(models, required_chars@, injected@, self.vocab_size as nat);
        assert(taken.deep_view() =~= all) by {
            assert(taken@.len() == taken_models.len() + rest_models.len());
            assert forall|n: int| 0 <= n < taken@.len() implies taken.deep_view()[n] == all[n] by {
                if n < taken_models.len() {
                    assert(taken.deep_view()[n] == taken_models[n]);
                } else {
                    assert(taken.deep_view()[n] == rest_models[n - taken_models.len()]);
                }
            }
        }
        let order = rank(&taken);
        let mut pieces: Vec<SentencePiece> = Vec::new();
        let mut n: usize = 0;
        while n < order.len()
            invariant
                n <= order.len(),
                order.len() == taken.len(),
                is_ranking(taken.deep_view(), order@),
                pieces.deep_view() =~= arranged(taken.deep_view(), order@).take(n as int),
            decreases order.len() - n,
        {
            let ghost prior = pieces.deep_view();
            let piece = copy_piece(&taken[order[n]]);
            pieces.push(piece);
            assert(pieces.deep_view() =~= prior.push(piece.deep_view()));
            n = n + 1;
        }
        proof {
            assert(pieces.deep_view() =~= arranged(all, order@));
            lemma_candidates_are_vocabulary(models, required_chars@, injected@, self.vocab_size as nat);
            lemma_arranged_vocabulary(all, order@);
            lemma_arranged_complete(all, order@);
            lemma_filled_from_model(models, taken_models, capacity as nat);
            assert forall|i: int| 0 <= i < 3 implies pieces.deep_view().contains(#[trigger] reserved()[i]) by {
                assert(all[i] == reserved()[i]);
            }
            assert forall|i: int| 0 <= i < required_chars.len() implies pieces.deep_view().contains(
                #[trigger] required_piece(models, required_chars@, injected@, i),
            ) by {
                assert(all[3 + i] == wanted[i]);
            }
            assert(pieces.deep_view().len() == pieces.len());
        }
        pieces
    }
}

} // verus!
