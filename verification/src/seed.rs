//! The seed vocabulary: every character of the corpus, and the repeated
//! substrings that the suffix array finds in it.

use crate::census::{census, lemma_occurrences_positive, listed, take_census, tally, SENTINEL};
use crate::error::TrainerError;
use crate::order::{
    all_among, arranged, is_ranking, lemma_ranking_exists, lemma_strictly_ranked_unique, occurs, precedes, rank,
    ranked, ranking, strictly_ranked, Order,
};
use crate::pieces::{
    is_valid_sentencepiece, valid_piece, Candidate, CandidateModel, CharCount, SeedModel, SeedPiece,
};
use crate::suffix::{find_suffix_nodes, suffix_nodes, TEXT_LIMIT};
use crate::text::{char_at, lemma_code_injective, string_of};
use crate::trainer::UnigramTrainer;
use crate::word_counts::WordCounts;
use vstd::prelude::*;

verus! {

/// The text that goes to the suffix array: the words one after another, each
/// closed by the sentinel.
pub open spec fn flat_text(words: Seq<Seq<char>>) -> Seq<char>
    decreases words.len(),
{
    if words.len() == 0 {
        Seq::empty()
    } else {
        flat_text(words.drop_last()) + words.last() + seq![SENTINEL]
    }
}

/// The words one after another, with nothing between them.
pub open spec fn joined(words: Seq<Seq<char>>) -> Seq<char>
    decreases words.len(),
{
    if words.len() == 0 {
        Seq::empty()
    } else {
        joined(words.drop_last()) + words.last()
    }
}

/// The text of the first `k` words is no longer than the text of all.
pub proof fn lemma_flat_text_prefix(words: Seq<Seq<char>>, k: int)
    requires
        0 <= k <= words.len(),
    ensures
        flat_text(words.take(k)).len() <= flat_text(words).len(),
    decreases words.len() - k,
{
    if k < words.len() {
        lemma_flat_text_prefix(words, k + 1);
        assert(words.take(k + 1).drop_last() =~= words.take(k));
    } else {
        assert(words.take(k) =~= words);
    }
}

/// A run of characters that may become a piece of several characters: it has
/// at least two, holds no sentinel and is a valid piece.
pub open spec fn is_candidate(chars: Seq<char>) -> bool {
    chars.len() > 1 && !chars.contains(SENTINEL) && valid_piece(chars)
}

/// The candidates among the nodes of the suffix tree, in the order of the
/// nodes, each scored with its occurrences times its length.
pub open spec fn candidates(nodes: Seq<(Seq<char>, u32)>) -> Seq<CandidateModel>
    decreases nodes.len(),
{
    if nodes.len() == 0 {
        Seq::empty()
    } else {
        let rest = candidates(nodes.drop_last());
        let node = nodes.last();
        if is_candidate(node.0) {
            rest.push(CandidateModel { chars: node.0, score: (node.1 * node.0.len()) as u64 })
        } else {
            rest
        }
    }
}

/// Every candidate is a candidate run.
pub proof fn lemma_candidates_valid(nodes: Seq<(Seq<char>, u32)>)
    ensures
        forall|i: int| 0 <= i < candidates(nodes).len() ==> is_candidate(#[trigger] candidates(nodes)[i].chars),
    decreases nodes.len(),
{
    if nodes.len() > 0 {
        let rest = candidates(nodes.drop_last());
        lemma_candidates_valid(nodes.drop_last());
        assert forall|i: int| 0 <= i < candidates(nodes).len() implies is_candidate(
            #[trigger] candidates(nodes)[i].chars,
        ) by {
            if i < rest.len() {
                assert(candidates(nodes)[i] == rest[i]);
            }
        }
    }
}

/// No more candidates than nodes.
pub proof fn lemma_candidates_len(nodes: Seq<(Seq<char>, u32)>)
    ensures
        candidates(nodes).len() <= nodes.len(),
    decreases nodes.len(),
{
    if nodes.len() > 0 {
        lemma_candidates_len(nodes.drop_last());
    }
}

/// The ranked candidates among the nodes that a machine can hold are the
/// candidates, each of two characters or more and without a sentinel, by
/// falling score.
pub proof fn lemma_ranked_candidates(nodes: Seq<(Seq<char>, u32)>)
    requires
        nodes.len() <= usize::MAX,
    ensures
        is_ranking(candidates(nodes), ranking(candidates(nodes))),
        ranked(candidates(nodes)).len() == candidates(nodes).len(),
        forall|i: int|
            0 <= i < ranked(candidates(nodes)).len() ==> is_candidate(#[trigger] ranked(candidates(nodes))[i].chars),
        forall|i: int, j: int|
            0 <= i < j < ranked(candidates(nodes)).len() ==> (#[trigger] ranked(candidates(nodes))[i]).score >= (
            #[trigger] ranked(candidates(nodes))[j]).score,
{
    let found = candidates(nodes);
    lemma_candidates_len(nodes);
    lemma_candidates_valid(nodes);
    lemma_ranking_exists(found);
    let order = ranking(found);
    let sorted = ranked(found);
    assert forall|i: int| 0 <= i < sorted.len() implies is_candidate(#[trigger] sorted[i].chars) by {
        assert(sorted[i] == found[order[i] as int]);
    }
    assert forall|i: int, j: int| 0 <= i < j < sorted.len() implies (#[trigger] sorted[i]).score >= (
    #[trigger] sorted[j]).score by {
        assert(precedes(found, order[i] as int, order[j] as int));
    }
}

/// The census as pieces of one character each, weighted by occurrences.
pub open spec fn char_pieces(census: Seq<CharCount>) -> Seq<SeedModel> {
    Seq::new(census.len(), |i: int| SeedModel { piece: seq![census[i].ch], weight: census[i].count })
}

/// The candidates as pieces, weighted by score.
pub open spec fn substring_pieces(substrings: Seq<CandidateModel>) -> Seq<SeedModel> {
    Seq::new(substrings.len(), |i: int| SeedModel { piece: substrings[i].chars, weight: substrings[i].score })
}

/// The single characters, then the substrings, cut off after `limit` pieces.
pub open spec fn seed_list(census: Seq<CharCount>, substrings: Seq<CandidateModel>, limit: nat) -> Seq<SeedModel> {
    let all = char_pieces(census) + substring_pieces(substrings);
    if all.len() <= limit {
        all
    } else {
        all.take(limit as int)
    }
}

/// The seed vocabulary of `text`, given the nodes of its suffix tree: the
/// census of the text, then the candidates among the nodes, best first.
pub open spec fn seeds_of(text: Seq<char>, nodes: Seq<(Seq<char>, u32)>, limit: nat) -> Seq<SeedModel> {
    seed_list(census(text), ranked(candidates(nodes)), limit)
}

/// What seeding gives for a corpus of these words. A text that is too long
/// to index is refused. Any other text gives its seed vocabulary exactly
/// where the suffix array can be built, and else the error that says that
/// it could not.
pub open spec fn is_seeding_outcome(
    words: Seq<Seq<char>>,
    limit: nat,
    outcome: Result<Vec<SeedPiece>, TrainerError>,
) -> bool {
    let text = flat_text(words);
    match outcome {
        Ok(seeds) => {
            &&& text.len() < TEXT_LIMIT
            &&& suffix_nodes(text) matches Some(nodes) && nodes.len() <= usize::MAX && seeds.deep_view()
                == seeds_of(text, nodes, limit)
            &&& seeds.len() <= limit
            &&& forall|i: int| 0 <= i < seeds.len() ==> valid_piece(#[trigger] seeds[i].piece@)
        },
        Err(e) => if text.len() >= TEXT_LIMIT {
            e == TrainerError::CorpusTooLarge
        } else {
            e == TrainerError::SuffixArray && suffix_nodes(text) is None
        },
    }
}

/// `chars` are the characters of `text`, each once, the larger code point
/// first.
pub open spec fn is_required_chars(text: Seq<char>, chars: Seq<char>) -> bool {
    &&& strictly_ranked(chars)
    &&& all_among(chars, text)
    &&& all_among(text, chars)
}

/// The characters that a vocabulary for `text` must hold.
pub open spec fn required(text: Seq<char>) -> Seq<char> {
    choose|chars: Seq<char>| is_required_chars(text, chars)
}

/// A text has one list of required characters only.
pub proof fn lemma_required_is(text: Seq<char>, chars: Seq<char>)
    requires
        is_required_chars(text, chars),
    ensures
        chars == required(text),
        is_required_chars(text, required(text)),
{
    let other = required(text);
    assert forall|i: int| 0 <= i < chars.len() implies other.contains(#[trigger] chars[i]) by {
        assert(text.contains(chars[i]));
        let k = choose|k: int| 0 <= k < text.len() && text[k] == chars[i];
        assert(other.contains(text[k]));
    }
    assert forall|i: int| 0 <= i < other.len() implies chars.contains(#[trigger] other[i]) by {
        assert(text.contains(other[i]));
        let k = choose|k: int| 0 <= k < text.len() && text[k] == other[i];
        assert(chars.contains(text[k]));
    }
    lemma_strictly_ranked_unique(chars, other);
}

/// Appends `word` to `out`.
fn append_chars(out: &mut Vec<char>, word: &[char])
    ensures
        final(out)@ == old(out)@ + word@,
{
    let mut j: usize = 0;
    while j < word.len()
        invariant
            j <= word.len(),
            out@ == old(out)@ + word@.take(j as int),
        decreases word.len() - j,
    {
        out.push(char_at(word, j));
        assert(word@.take(j as int + 1) =~= word@.take(j as int).push(word@[j as int]));
        j = j + 1;
    }
    assert(word@.take(j as int) =~= word@);
}

/// The text of the corpus, where it is short enough for the suffix array.
fn flat_chars(word_counts: &WordCounts) -> (flat: Option<Vec<char>>)
    ensures
        flat is Some == (flat_text(word_counts.words()).len() < TEXT_LIMIT),
        flat matches Some(text) ==> text@ == flat_text(word_counts.words()),
{
    let ghost words = word_counts.words();
    let mut text: Vec<char> = Vec::new();
    let mut i: usize = 0;
    assert(words.take(0) =~= Seq::empty());
    while i < word_counts.len()
        invariant
            i <= word_counts@.len(),
            words == word_counts.words(),
            words.len() == word_counts@.len(),
            text@ == flat_text(words.take(i as int)),
            text.len() < TEXT_LIMIT,
        decreases word_counts@.len() - i,
    {
        let word = word_counts.word_chars(i);
        proof {
            assert(words.take(i as int + 1).drop_last() =~= words.take(i as int));
            assert(words.take(i as int + 1).last() == word@);
            lemma_flat_text_prefix(words, i as int + 1);
        }
        if word.len() >= TEXT_LIMIT - 1 - text.len() {
            return None;
        }
        append_chars(&mut text, word.as_slice());
        text.push(SENTINEL);
        i = i + 1;
    }
    assert(words.take(i as int) =~= words);
    Some(text)
}

/// All characters of the corpus.
fn joined_chars(word_counts: &WordCounts) -> (text: Vec<char>)
    ensures
        text@ == joined(word_counts.words()),
{
    let ghost words = word_counts.words();
    let mut text: Vec<char> = Vec::new();
    let mut i: usize = 0;
    assert(words.take(0) =~= Seq::empty());
    while i < word_counts.len()
        invariant
            i <= word_counts@.len(),
            words == word_counts.words(),
            words.len() == word_counts@.len(),
            text@ == joined(words.take(i as int)),
        decreases word_counts@.len() - i,
    {
        let word = word_counts.word_chars(i);
        proof {
            assert(words.take(i as int + 1).drop_last() =~= words.take(i as int));
            assert(words.take(i as int + 1).last() == word@);
        }
        append_chars(&mut text, word.as_slice());
        i = i + 1;
    }
    assert(words.take(i as int) =~= words);
    text
}

/// Tells whether the sentinel stands in `chars`.
fn has_sentinel(chars: &[char]) -> (found: bool)
    ensures
        found == chars@.contains(SENTINEL),
{
    let mut i: usize = 0;
    while i < chars.len()
        invariant
            i <= chars.len(),
            forall|k: int| 0 <= k < i ==> chars@[k] != SENTINEL,
        decreases chars.len() - i,
    {
        if char_at(chars, i) == SENTINEL {
            return true;
        }
        i = i + 1;
    }
    false
}

/// The candidates among `nodes`.
pub fn substring_candidates(nodes: &Vec<(Vec<char>, u32)>) -> (found: Vec<Candidate>)
    ensures
        found.deep_view() == candidates(nodes.deep_view()),
{
    let ghost models = nodes.deep_view();
    let mut found: Vec<Candidate> = Vec::new();
    let mut i: usize = 0;
    assert(models.take(0) =~= Seq::empty());
    while i < nodes.len()
        invariant
            i <= nodes.len(),
            models == nodes.deep_view(),
            found.deep_view() == candidates(models.take(i as int)),
        decreases nodes.len() - i,
    {
        let chars = &nodes[i].0;
        let freq: u32 = nodes[i].1;
        let ghost prior = found.deep_view();
        proof {
            assert(models.take(i as int + 1).drop_last() =~= models.take(i as int));
            assert(models[i as int].0 =~= chars@);
            assert(models.take(i as int + 1).last() == (chars@, freq));
        }
        if chars.len() > 1 && is_valid_sentencepiece(chars.as_slice()) && !has_sentinel(chars.as_slice()) {
            let n: u64 = chars.len() as u64;
            assert(freq * n <= 0xFFFF_FFFF * 16) by (nonlinear_arith)
                requires
                    freq <= 0xFFFF_FFFF,
                    n <= 16,
            ;
            let mut copy: Vec<char> = Vec::new();
            append_chars(&mut copy, chars.as_slice());
            assert(copy@ =~= chars@);
            let candidate = Candidate { chars: copy, score: (freq as u64) * n };
            found.push(candidate);
            assert(found.deep_view() =~= prior.push(candidate.deep_view()));
        } else {
            assert(found.deep_view() =~= prior);
        }
        i = i + 1;
    }
    assert(models.take(i as int) =~= models);
    found
}

impl UnigramTrainer {
    /// The seed vocabulary of `text`, given the nodes of its suffix tree.
    /// Every piece of it has between 1 and 16 characters.
    pub fn seed_pieces_from(&self, text: &[char], nodes: &Vec<(Vec<char>, u32)>) -> (seeds: Vec<SeedPiece>)
        ensures
            seeds.deep_view() == seeds_of(text@, nodes.deep_view(), self.seed_size as nat),
            seeds.len() <= self.seed_size,
            forall|i: int| 0 <= i < seeds.len() ==> valid_piece(#[trigger] seeds[i].piece@),
    {
        let counted = take_census(text);
        let found = substring_candidates(nodes);
        let order = rank(&found);
        let limit: usize = self.seed_size;
        let ghost substrings = arranged(found.deep_view(), order@);
        let ghost all = char_pieces(counted@) + substring_pieces(substrings);
        proof {
            lemma_candidates_valid(nodes.deep_view());
        }
        let mut seeds: Vec<SeedPiece> = Vec::new();
        let mut i: usize = 0;
        while i < counted.len() && seeds.len() < limit
            invariant
                i <= counted.len(),
                seeds.len() == i,
                seeds.len() <= limit,
                all == char_pieces(counted@) + substring_pieces(substrings),
                seeds.deep_view() =~= all.take(i as int),
                forall|n: int| 0 <= n < seeds.len() ==> valid_piece(#[trigger] seeds[n].piece@),
            decreases counted.len() - i,
        {
            let entry: CharCount = counted[i];
            let mut piece = String::new();
            piece.push(entry.ch);
            assert(piece@ =~= seq![entry.ch]);
            let ghost prior = seeds.deep_view();
            let seed = SeedPiece { piece, weight: entry.count };
            seeds.push(seed);
            assert(seeds.deep_view() =~= prior.push(seed.deep_view()));
            i = i + 1;
        }
        let mut j: usize = 0;
        if i == counted.len() {
            while j < order.len() && seeds.len() < limit
                invariant
                    j <= order.len(),
                    order.len() == found.len(),
                    is_ranking(found.deep_view(), order@),
                    substrings == arranged(found.deep_view(), order@),
                    found.deep_view() == candidates(nodes.deep_view()),
                    forall|n: int|
                        0 <= n < candidates(nodes.deep_view()).len() ==> is_candidate(
                            #[trigger] candidates(nodes.deep_view())[n].chars,
                        ),
                    seeds.len() == counted.len() + j,
                    seeds.len() <= limit,
                    all == char_pieces(counted@) + substring_pieces(substrings),
                    seeds.deep_view() =~= all.take(counted.len() + j),
                    forall|n: int| 0 <= n < seeds.len() ==> valid_piece(#[trigger] seeds[n].piece@),
                decreases order.len() - j,
            {
                let candidate = &found[order[j]];
                let piece = string_of(candidate.chars.as_slice());
                let ghost prior = seeds.deep_view();
                let seed = SeedPiece { piece, weight: candidate.score };
                proof {
                    let n = order[j as int] as int;
                    assert(0 <= n < found.len());
                    assert(found.deep_view()[n] == candidate.deep_view());
                    assert(candidates(nodes.deep_view())[n].chars == candidate.chars@);
                    assert(is_candidate(candidate.chars@));
                }
                seeds.push(seed);
                assert(seeds.deep_view() =~= prior.push(seed.deep_view()));
                j = j + 1;
            }
        }
        proof {
            assert(all.len() == counted.len() + order.len());
            assert(seeds.len() == i + j);
            if seeds.len() < limit {
                assert(i == counted.len() && j == order.len());
                assert(all.take(all.len() as int) =~= all);
            } else {
                assert(seeds.len() == limit);
            }
            assert(seeds.deep_view() =~= seed_list(counted@, substrings, limit as nat));
        }
        seeds
    }

    /// Builds the seed vocabulary of the corpus: its characters, most
    /// frequent first, then the repeated substrings that the suffix array
    /// of its text finds, best score first, a million pieces at most by
    /// default. The weights are raw: occurrences for a character,
    /// occurrences times length for a substring.
    pub fn make_seed_sentence_pieces(&self, word_counts: &WordCounts) -> (outcome: Result<
        Vec<SeedPiece>,
        TrainerError,
    >)
        ensures
            is_seeding_outcome(word_counts.words(), self.seed_size as nat, outcome),
    {
        let flat = match flat_chars(word_counts) {
            Some(flat) => flat,
            None => {
                return Err(TrainerError::CorpusTooLarge);
            },
        };
        let text = string_of(flat.as_slice());
        match find_suffix_nodes(text.as_str()) {
            Some(nodes) => Ok(self.seed_pieces_from(flat.as_slice(), &nodes)),
            None => Err(TrainerError::SuffixArray),
        }
    }

    /// The characters that the final vocabulary must hold: every character
    /// of every word, each once, the larger code point first.
    pub fn required_chars(&self, word_counts: &WordCounts) -> (chars: Vec<char>)
        ensures
            is_required_chars(joined(word_counts.words()), chars@),
            chars@ == required(joined(word_counts.words())),
            chars@.no_duplicates(),
    {
        let text = joined_chars(word_counts);
        let counted = tally(text.as_slice(), true);
        let mut letters: Vec<char> = Vec::new();
        let mut i: usize = 0;
        while i < counted.len()
            invariant
                i <= counted.len(),
                letters.len() == i,
                forall|n: int| 0 <= n < i ==> letters[n] == (#[trigger] counted[n]).ch,
            decreases counted.len() - i,
        {
            let entry: CharCount = counted[i];
            letters.push(entry.ch);
            i = i + 1;
        }
        let order = rank(&letters);
        assert(letters.deep_view() =~= letters@);
        let mut chars: Vec<char> = Vec::new();
        let mut k: usize = 0;
        while k < order.len()
            invariant
                k <= order.len(),
                order.len() == letters.len(),
                is_ranking(letters@, order@),
                chars@ == arranged(letters@, order@).take(k as int),
            decreases order.len() - k,
        {
            chars.push(char_at(letters.as_slice(), order[k]));
            assert(chars@ =~= arranged(letters@, order@).take(k as int + 1));
            k = k + 1;
        }
        proof {
            assert(chars@ =~= arranged(letters@, order@));
            assert forall|a: int, b: int| 0 <= a < b < chars.len() implies (#[trigger] chars[a]).no_lower(
                #[trigger] chars[b],
            ) && !chars[b].no_lower(chars[a]) by {
                assert(precedes(letters@, order[a] as int, order[b] as int));
                lemma_code_injective(chars[a], chars[b]);
                if order[a] < order[b] {
                    assert(counted[order[a] as int].ch != counted[order[b] as int].ch);
                } else {
                    assert(counted[order[b] as int].ch != counted[order[a] as int].ch);
                }
            }
            assert forall|n: int| 0 <= n < chars.len() implies text@.contains(#[trigger] chars[n]) by {
                let c = counted[order[n] as int].ch;
                lemma_occurrences_positive(text@, c);
            }
            assert forall|p: int| 0 <= p < text.len() implies chars@.contains(#[trigger] text[p]) by {
                assert(listed(counted@, text[p]));
                let n = choose|n: int| 0 <= n < counted.len() && #[trigger] counted[n].ch == text[p];
                assert(occurs(order@, n));
                let m = choose|m: int| 0 <= m < order.len() && #[trigger] order[m] == n;
                assert(chars[m] == text[p]);
            }
            lemma_required_is(text@, chars@);
            assert forall|a: int, b: int| 0 <= a < chars.len() && 0 <= b < chars.len() && a != b implies chars[a]
                != chars[b] by {
                if a < b {
                    assert(chars[a].no_lower(chars[b]) && !chars[b].no_lower(chars[a]));
                } else {
                    assert(chars[b].no_lower(chars[a]) && !chars[a].no_lower(chars[b]));
                }
            }
        }
        chars
    }
}

} // verus!
