//! The pieces that the trainer handles, and how each kind is ranked.

use crate::order::{Order, Ranked};
use crate::score::Score;
use crate::text::{code, lemma_code_injective, lemma_lex_total, lemma_lex_transitive, lex_le, lex_no_greater};
use vstd::prelude::*;

verus! {

/// Longest piece, in characters, that the trainer will consider.
pub const MAX_PIECE_LENGTH: usize = 16;

/// What it takes for a run of characters to be a piece: it is not empty and
/// no longer than [`MAX_PIECE_LENGTH`].
pub open spec fn valid_piece(chars: Seq<char>) -> bool {
    1 <= chars.len() <= MAX_PIECE_LENGTH
}

/// Tells whether `char_string` may stand as a piece of the vocabulary.
pub fn is_valid_sentencepiece(char_string: &[char]) -> (valid: bool)
    ensures
        valid == valid_piece(char_string@),
{
    let n: usize = char_string.len();
    !(n == 0 || n > MAX_PIECE_LENGTH)
}

/// A character and the number of times it occurs. The more frequent
/// character ranks higher; of two equally frequent ones, the one with the
/// larger code point.
#[derive(Clone, Copy, Debug, PartialEq, Eq, Structural)]
pub struct CharCount {
    pub ch: char,
    pub count: u64,
}

impl DeepView for CharCount {
    type V = CharCount;

    open spec fn deep_view(&self) -> CharCount {
        *self
    }
}

impl Order for CharCount {
    open spec fn no_lower(self, other: Self) -> bool {
        self.count > other.count || (self.count == other.count && code(self.ch) >= code(other.ch))
    }

    proof fn lemma_total(a: Self, b: Self) {
    }

    proof fn lemma_transitive(a: Self, b: Self, c: Self) {
    }
}

impl Ranked for CharCount {
    fn ranks_no_lower(&self, other: &Self) -> (r: bool) {
        self.count > other.count || (self.count == other.count && self.ch >= other.ch)
    }
}

/// Two entries that rank equally are the same entry.
pub proof fn lemma_char_count_ties(a: CharCount, b: CharCount)
    requires
        a.no_lower(b),
        b.no_lower(a),
    ensures
        a == b,
{
    lemma_code_injective(a.ch, b.ch);
}

/// Characters rank by code point, the larger one higher.
impl Order for char {
    open spec fn no_lower(self, other: Self) -> bool {
        code(self) >= code(other)
    }

    proof fn lemma_total(a: Self, b: Self) {
    }

    proof fn lemma_transitive(a: Self, b: Self, c: Self) {
    }
}

impl Ranked for char {
    fn ranks_no_lower(&self, other: &Self) -> (r: bool) {
        *self >= *other
    }
}

/// A repeated run of characters with its score: occurrences times length.
pub struct Candidate {
    pub chars: Vec<char>,
    pub score: u64,
}

/// What a [`Candidate`] stands for. The higher score ranks higher; of two
/// equal scores, the run that comes later in the dictionary.
pub struct CandidateModel {
    pub chars: Seq<char>,
    pub score: u64,
}

impl DeepView for Candidate {
    type V = CandidateModel;

    open spec fn deep_view(&self) -> CandidateModel {
        CandidateModel { chars: self.chars@, score: self.score }
    }
}

impl Order for CandidateModel {
    open spec fn no_lower(self, other: Self) -> bool {
        self.score > other.score || (self.score == other.score && lex_le(other.chars, self.chars))
    }

    proof fn lemma_total(a: Self, b: Self) {
        lemma_lex_total(a.chars, b.chars);
    }

    proof fn lemma_transitive(a: Self, b: Self, c: Self) {
        if a.score == b.score && b.score == c.score {
            lemma_lex_transitive(c.chars, b.chars, a.chars);
        }
    }
}

impl Ranked for Candidate {
    fn ranks_no_lower(&self, other: &Self) -> (r: bool) {
        self.score > other.score || (self.score == other.score && lex_no_greater(
            other.chars.as_slice(),
            self.chars.as_slice(),
        ))
    }
}

/// A piece of the seed vocabulary with its raw weight: for a single
/// character the number of its occurrences, for a longer piece its score.
#[derive(Debug)]
pub struct SeedPiece {
    pub piece: String,
    pub weight: u64,
}

/// What a [`SeedPiece`] stands for.
pub struct SeedModel {
    pub piece: Seq<char>,
    pub weight: u64,
}

impl DeepView for SeedPiece {
    type V = SeedModel;

    open spec fn deep_view(&self) -> SeedModel {
        SeedModel { piece: self.piece@, weight: self.weight }
    }
}

/// A piece of a vocabulary with its score.
#[derive(Debug)]
pub struct SentencePiece {
    pub piece: String,
    pub score: Score,
}

/// What a [`SentencePiece`] stands for. The higher score ranks higher.
pub struct PieceModel {
    pub piece: Seq<char>,
    pub score: Score,
}

impl DeepView for SentencePiece {
    type V = PieceModel;

    open spec fn deep_view(&self) -> PieceModel {
        PieceModel { piece: self.piece@, score: self.score }
    }
}

impl Order for PieceModel {
    open spec fn no_lower(self, other: Self) -> bool {
        self.score.rank() >= other.score.rank()
    }

    proof fn lemma_total(a: Self, b: Self) {
    }

    proof fn lemma_transitive(a: Self, b: Self, c: Self) {
    }
}

impl Ranked for SentencePiece {
    fn ranks_no_lower(&self, other: &Self) -> (r: bool) {
        self.score.key() >= other.score.key()
    }
}

} // verus!
