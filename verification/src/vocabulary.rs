//! Vocabularies: lists of scored pieces in which no piece stands twice.

use crate::pieces::{PieceModel, SentencePiece};
use crate::score::Score;
use vstd::prelude::*;

verus! {

/// A piece named `name` stands in `pieces`.
pub open spec fn has_piece(pieces: Seq<PieceModel>, name: Seq<char>) -> bool {
    exists|i: int| 0 <= i < pieces.len() && #[trigger] pieces[i].piece == name
}

/// Where the piece named `name` stands in `pieces`.
pub open spec fn position_of(pieces: Seq<PieceModel>, name: Seq<char>) -> int {
    choose|i: int| 0 <= i < pieces.len() && #[trigger] pieces[i].piece == name
}

/// The score that `pieces` give to the piece named `name`.
pub open spec fn score_of(pieces: Seq<PieceModel>, name: Seq<char>) -> Score {
    pieces[position_of(pieces, name)].score
}

/// No piece stands twice.
pub open spec fn distinct_pieces(pieces: Seq<PieceModel>) -> bool {
    forall|i: int, j: int| 0 <= i < j < pieces.len() ==> (#[trigger] pieces[i]).piece != (#[trigger] pieces[j]).piece
}

/// Every score is a number.
pub open spec fn scores_are_numbers(pieces: Seq<PieceModel>) -> bool {
    forall|i: int| 0 <= i < pieces.len() ==> (#[trigger] pieces[i]).score.is_number()
}

/// `pieces` are a vocabulary: no piece twice, every score a number.
pub open spec fn is_vocabulary(pieces: Seq<PieceModel>) -> bool {
    distinct_pieces(pieces) && scores_are_numbers(pieces)
}

/// In a list without repeated pieces, a piece is found where it stands.
pub proof fn lemma_position_of(pieces: Seq<PieceModel>, i: int)
    requires
        distinct_pieces(pieces),
        0 <= i < pieces.len(),
    ensures
        has_piece(pieces, pieces[i].piece),
        position_of(pieces, pieces[i].piece) == i,
        score_of(pieces, pieces[i].piece) == pieces[i].score,
{
    let j = position_of(pieces, pieces[i].piece);
    if j < i {
        assert(pieces[j].piece != pieces[i].piece);
    }
    if i < j {
        assert(pieces[i].piece != pieces[j].piece);
    }
}

/// The first place where a piece named like `name` stands in `pieces`, if
/// there is one.
pub fn find_piece(pieces: &Vec<SentencePiece>, name: &String) -> (found: Option<usize>)
    ensures
        found is Some == has_piece(pieces.deep_view(), name@),
        found matches Some(i) ==> i < pieces.len() && pieces[i as int].piece@ == name@ && forall|k: int|
            0 <= k < i ==> pieces[k].piece@ != name@,
{
    let mut i: usize = 0;
    while i < pieces.len()
        invariant
            i <= pieces.len(),
            forall|k: int| 0 <= k < i ==> pieces[k].piece@ != name@,
        decreases pieces.len() - i,
    {
        if pieces[i].piece == *name {
            assert(pieces.deep_view()[i as int].piece == name@);
            return Some(i);
        }
        i = i + 1;
    }
    proof {
        if has_piece(pieces.deep_view(), name@) {
            let k = choose|k: int| 0 <= k < pieces.len() && #[trigger] pieces.deep_view()[k].piece == name@;
            assert(pieces[k].piece@ != name@);
        }
    }
    None
}

/// Tells whether `pieces` are a vocabulary.
pub fn validate_vocabulary(pieces: &Vec<SentencePiece>) -> (ok: bool)
    ensures
        ok == is_vocabulary(pieces.deep_view()),
{
    let ghost models = pieces.deep_view();
    let mut i: usize = 0;
    while i < pieces.len()
        invariant
            i <= pieces.len(),
            models == pieces.deep_view(),
            forall|a: int, b: int| 0 <= a < b < i ==> (#[trigger] models[a]).piece != (#[trigger] models[b]).piece,
            forall|a: int| 0 <= a < i ==> (#[trigger] models[a]).score.is_number(),
        decreases pieces.len() - i,
    {
        if pieces[i].score.is_nan() {
            assert(!models[i as int].score.is_number());
            return false;
        }
        let mut j: usize = 0;
        while j < i
            invariant
                j <= i < pieces.len(),
                models == pieces.deep_view(),
                forall|a: int| 0 <= a < j ==> (#[trigger] models[a]).piece != models[i as int].piece,
            decreases i - j,
        {
            if pieces[j].piece == pieces[i].piece {
                assert(models[j as int].piece == models[i as int].piece);
                return false;
            }
            j = j + 1;
        }
        i = i + 1;
    }
    true
}

} // verus!
