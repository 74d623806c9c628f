//! The training corpus: each distinct word with the number of its occurrences.

use crate::text::{chars_of, lemma_lex_antisymmetric, lemma_lex_total, lemma_lex_transitive, lex_le, lex_no_greater, string_of};
use crate::trainer::UnigramTrainer;
use vstd::prelude::*;

verus! {

/// One word of the corpus and its count.
pub struct WordEntry {
    pub chars: Vec<char>,
    pub count: u32,
}

impl DeepView for WordEntry {
    type V = (Seq<char>, u32);

    open spec fn deep_view(&self) -> (Seq<char>, u32) {
        (self.chars@, self.count)
    }
}

/// `a` comes before `b` in the dictionary and is not `b`.
pub open spec fn strictly_before(a: Seq<char>, b: Seq<char>) -> bool {
    lex_le(a, b) && a != b
}

/// The words of `pairs` stand in dictionary order, none twice.
pub open spec fn in_dictionary_order(pairs: Seq<(Seq<char>, u32)>) -> bool {
    forall|i: int, j: int| 0 <= i < j < pairs.len() ==> strictly_before(#[trigger] pairs[i].0, #[trigger] pairs[j].0)
}

/// `word` is one of the words of `pairs`.
pub open spec fn has_word(pairs: Seq<(Seq<char>, u32)>, word: Seq<char>) -> bool {
    exists|i: int| 0 <= i < pairs.len() && #[trigger] pairs[i].0 == word
}

/// The count that `pairs` hold for `word`: 0 where the word is not among them.
pub open spec fn count_of(pairs: Seq<(Seq<char>, u32)>, word: Seq<char>) -> nat {
    if has_word(pairs, word) {
        let i = choose|i: int| 0 <= i < pairs.len() && #[trigger] pairs[i].0 == word;
        pairs[i].1 as nat
    } else {
        0
    }
}

/// In a list without repeated words, the count of a listed word is the one
/// that stands beside it.
pub proof fn lemma_count_of_listed(pairs: Seq<(Seq<char>, u32)>, i: int)
    requires
        in_dictionary_order(pairs),
        0 <= i < pairs.len(),
    ensures
        has_word(pairs, pairs[i].0),
        count_of(pairs, pairs[i].0) == pairs[i].1,
{
    let j = choose|j: int| 0 <= j < pairs.len() && #[trigger] pairs[j].0 == pairs[i].0;
    if j < i {
        assert(strictly_before(pairs[j].0, pairs[i].0));
    }
    if i < j {
        assert(strictly_before(pairs[i].0, pairs[j].0));
    }
}

/// The two lists hold the same words with the same counts.
pub open spec fn same_counts(one: Seq<(Seq<char>, u32)>, other: Seq<(Seq<char>, u32)>) -> bool {
    forall|word: Seq<char>|
        #![trigger has_word(one, word)]
        #![trigger has_word(other, word)]
        has_word(one, word) == has_word(other, word) && count_of(one, word) == count_of(other, word)
}

proof fn lemma_dictionary_prefixes(one: Seq<(Seq<char>, u32)>, other: Seq<(Seq<char>, u32)>, n: int)
    requires
        in_dictionary_order(one),
        in_dictionary_order(other),
        same_counts(one, other),
        0 <= n <= one.len(),
        0 <= n <= other.len(),
    ensures
        forall|k: int| 0 <= k < n ==> one[k] == other[k],
    decreases n,
{
    if n > 0 {
        lemma_dictionary_prefixes(one, other, n - 1);
        let i = n - 1;
        let a = one[i].0;
        let b = other[i].0;
        lemma_count_of_listed(one, i);
        lemma_count_of_listed(other, i);
        if a != b {
            assert(has_word(other, a));
            assert(has_word(one, b));
            let q = choose|q: int| 0 <= q < other.len() && #[trigger] other[q].0 == a;
            let p = choose|p: int| 0 <= p < one.len() && #[trigger] one[p].0 == b;
            if q < i {
                assert(one[q] == other[q]);
                assert(strictly_before(one[q].0, one[i].0));
            }
            if p < i {
                assert(one[p] == other[p]);
                assert(strictly_before(other[p].0, other[i].0));
            }
            assert(strictly_before(other[i].0, other[q].0));
            assert(strictly_before(one[i].0, one[p].0));
            lemma_lex_antisymmetric(a, b);
        }
    }
}

proof fn lemma_dictionary_length(one: Seq<(Seq<char>, u32)>, other: Seq<(Seq<char>, u32)>)
    requires
        in_dictionary_order(one),
        in_dictionary_order(other),
        same_counts(one, other),
        one.len() <= other.len(),
    ensures
        one.len() == other.len(),
{
    if one.len() < other.len() {
        let n = one.len() as int;
        lemma_dictionary_prefixes(one, other, n);
        lemma_count_of_listed(other, n);
        assert(has_word(one, other[n].0));
        let p = choose|p: int| 0 <= p < one.len() && #[trigger] one[p].0 == other[n].0;
        assert(one[p] == other[p]);
        assert(strictly_before(other[p].0, other[n].0));
    }
}

/// A corpus is what it counts: two lists in dictionary order that hold the
/// same words with the same counts are the same list.
pub proof fn lemma_counts_fix_the_list(one: Seq<(Seq<char>, u32)>, other: Seq<(Seq<char>, u32)>)
    requires
        in_dictionary_order(one),
        in_dictionary_order(other),
        same_counts(one, other),
    ensures
        one == other,
{
    if one.len() <= other.len() {
        lemma_dictionary_length(one, other);
    } else {
        assert(same_counts(other, one));
        lemma_dictionary_length(other, one);
    }
    lemma_dictionary_prefixes(one, other, one.len() as int);
    assert(one =~= other);
}

/// A map from words to counts, kept as a list in dictionary order.
pub struct WordCounts {
    entries: Vec<WordEntry>,
}

impl View for WordCounts {
    type V = Seq<(Seq<char>, u32)>;

    closed spec fn view(&self) -> Seq<(Seq<char>, u32)> {
        self.entries.deep_view()
    }
}

impl WordCounts {
    /// The list is in dictionary order, so no word stands in it twice.
    pub open spec fn wf(&self) -> bool {
        in_dictionary_order(self@)
    }

    /// The words, in the order of the list.
    pub open spec fn words(&self) -> Seq<Seq<char>> {
        Seq::new(self@.len(), |i: int| self@[i].0)
    }

    /// An empty corpus.
    pub fn new() -> (counts: WordCounts)
        ensures
            counts.wf(),
            counts@.len() == 0,
    {
        WordCounts { entries: Vec::new() }
    }

    /// The number of distinct words.
    pub fn len(&self) -> (n: usize)
        ensures
            n == self@.len(),
    {
        self.entries.len()
    }

    /// The characters of the word at index `i`.
    pub fn word_chars(&self, i: usize) -> (chars: &Vec<char>)
        requires
            i < self@.len(),
        ensures
            chars@ == self@[i as int].0,
    {
        &self.entries[i].chars
    }

    /// The word at index `i`.
    pub fn word(&self, i: usize) -> (word: String)
        requires
            i < self@.len(),
        ensures
            word@ == self@[i as int].0,
    {
        string_of(self.entries[i].chars.as_slice())
    }

    /// The count at index `i`.
    pub fn count(&self, i: usize) -> (count: u32)
        requires
            i < self@.len(),
        ensures
            count == self@[i as int].1,
    {
        self.entries[i].count
    }

    /// Where `word` stands in the list, or where it would have to be put.
    fn locate(&self, word: &[char]) -> (place: (usize, bool))
        requires
            self.wf(),
        ensures
            place.0 <= self@.len(),
            forall|i: int| 0 <= i < place.0 ==> strictly_before(#[trigger] self@[i].0, word@),
            forall|i: int| place.0 <= i < self@.len() ==> lex_le(word@, #[trigger] self@[i].0),
            place.1 == has_word(self@, word@),
            place.1 ==> place.0 < self@.len() && self@[place.0 as int].0 == word@,
    {
        let mut lo: usize = 0;
        let mut hi: usize = self.entries.len();
        while lo < hi
            invariant
                self.wf(),
                lo <= hi <= self@.len(),
                self@.len() == self.entries.len(),
                forall|i: int| 0 <= i < lo ==> strictly_before(#[trigger] self@[i].0, word@),
                forall|i: int| hi <= i < self@.len() ==> lex_le(word@, #[trigger] self@[i].0),
            decreases hi - lo,
        {
            let mid: usize = lo + (hi - lo) / 2;
            let ghost here = self@[mid as int].0;
            if lex_no_greater(word, self.entries[mid].chars.as_slice()) {
                proof {
                    assert forall|i: int| mid <= i < self@.len() implies lex_le(word@, #[trigger] self@[i].0) by {
                        if i > mid {
                            assert(strictly_before(self@[mid as int].0, self@[i].0));
                            lemma_lex_transitive(word@, here, self@[i].0);
                        }
                    }
                }
                hi = mid;
            } else {
                proof {
                    lemma_lex_total(word@, here);
                    assert forall|i: int| 0 <= i < mid + 1 implies strictly_before(#[trigger] self@[i].0, word@) by {
                        if i < mid {
                            assert(strictly_before(self@[i].0, self@[mid as int].0));
                            lemma_lex_transitive(self@[i].0, here, word@);
                        }
                    }
                }
                lo = mid + 1;
            }
        }
        let found: bool = lo < self.entries.len() && lex_no_greater(self.entries[lo].chars.as_slice(), word);
        proof {
            if found {
                lemma_lex_antisymmetric(word@, self@[lo as int].0);
            }
            if has_word(self@, word@) {
                let k = choose|k: int| 0 <= k < self@.len() && #[trigger] self@[k].0 == word@;
                if k < lo {
                    assert(strictly_before(self@[k].0, word@));
                }
                if k > lo {
                    assert(strictly_before(self@[lo as int].0, self@[k].0));
                    assert(lex_le(word@, self@[lo as int].0));
                    lemma_lex_antisymmetric(word@, self@[lo as int].0);
                }
            }
        }
        (lo, found)
    }

    /// The count held for `word`, if the word is in the corpus.
    pub fn get(&self, word: &str) -> (count: Option<u32>)
        requires
            self.wf(),
        ensures
            count is Some == has_word(self@, word@),
            count matches Some(c) ==> c == count_of(self@, word@),
    {
        let chars = chars_of(word);
        let (at, found) = self.locate(chars.as_slice());
        if found {
            proof {
                lemma_count_of_listed(self@, at as int);
            }
            Some(self.entries[at].count)
        } else {
            None
        }
    }

    /// Counts one more occurrence of `word`: a new word comes in with count
    /// one.
    pub fn add_one(&mut self, word: &str)
        requires
            old(self).wf(),
            count_of(old(self)@, word@) < u32::MAX,
        ensures
            final(self).wf(),
            has_word(final(self)@, word@),
            count_of(final(self)@, word@) == count_of(old(self)@, word@) + 1,
            forall|other: Seq<char>|
                other != word@ ==> has_word(final(self)@, other) == has_word(old(self)@, other) && count_of(
                    final(self)@,
                    other,
                ) == count_of(old(self)@, other),
    {
        let next: u32 = match self.get(word) {
            Some(count) => count + 1,
            None => 1,
        };
        self.insert(word, next);
    }

    /// Tells whether the tokens can be counted into the corpus without a
    /// count growing past 32 bits.
    pub fn has_room_for(&self, tokens: &Vec<String>) -> (ok: bool)
        requires
            self.wf(),
        ensures
            ok == counts_fit(self@, tokens.deep_view()),
    {
        let ghost toks = tokens.deep_view();
        let mut seen = WordCounts::new();
        let mut i: usize = 0;
        assert(toks.take(0) =~= Seq::empty());
        assert forall|w: Seq<char>| #![trigger times(toks.take(0), w)] count_of(seen@, w) == times(toks.take(0), w) by {
            assert(!has_word(seen@, w));
        }
        while i < tokens.len()
            invariant
                i <= tokens.len(),
                toks == tokens.deep_view(),
                self.wf(),
                seen.wf(),
                forall|w: Seq<char>|
                    #![trigger times(toks.take(i as int), w)]
                    count_of(seen@, w) == times(toks.take(i as int), w) && count_of(self@, w) + times(
                        toks.take(i as int),
                        w,
                    ) <= u32::MAX,
            decreases tokens.len() - i,
        {
            let token = tokens[i].as_str();
            let ghost before = seen@;
            let ghost read = toks.take(i as int);
            let ghost next = toks.take(i as int + 1);
            proof {
                assert(next.drop_last() =~= read);
                assert(next.last() == token@);
                lemma_times_prefix(toks, token@, i as int + 1);
                assert(count_of(before, token@) == times(read, token@));
            }
            let so_far: u32 = match seen.get(token) {
                Some(count) => count,
                None => 0,
            };
            let had: u32 = match self.get(token) {
                Some(count) => count,
                None => 0,
            };
            if so_far >= u32::MAX - had {
                assert(count_of(self@, token@) + times(toks, token@) > u32::MAX);
                return false;
            }
            seen.add_one(token);
            proof {
                assert forall|w: Seq<char>| #![trigger times(next, w)]
                    count_of(seen@, w) == times(next, w) && count_of(self@, w) + times(next, w) <= u32::MAX by {
                    assert(count_of(before, w) == times(read, w));
                }
            }
            i = i + 1;
        }
        proof {
            assert(toks.take(i as int) =~= toks);
            assert forall|w: Seq<char>| #![trigger times(toks, w)]
                count_of(self@, w) + times(toks, w) <= u32::MAX by {
                assert(count_of(seen@, w) == times(toks.take(i as int), w));
            }
        }
        true
    }

    /// Sets the count of `word`, adding the word where the corpus lacks it.
    /// Gives back the count that the word had before.
    pub fn insert(&mut self, word: &str, count: u32) -> (before: Option<u32>)
        requires
            old(self).wf(),
        ensures
            final(self).wf(),
            before is Some == has_word(old(self)@, word@),
            before matches Some(c) ==> c == count_of(old(self)@, word@),
            has_word(final(self)@, word@),
            count_of(final(self)@, word@) == count,
            forall|other: Seq<char>|
                other != word@ ==> has_word(final(self)@, other) == has_word(old(self)@, other) && count_of(
                    final(self)@,
                    other,
                ) == count_of(old(self)@, other),
    {
        let chars = chars_of(word);
        let (at, found) = self.locate(chars.as_slice());
        let ghost prior = self@;
        if found {
            let had: u32 = self.entries[at].count;
            self.entries[at].count = count;
            proof {
                lemma_count_of_listed(prior, at as int);
                assert(self@ =~= prior.update(at as int, (word@, count)));
                lemma_updated(prior, at as int, count);
            }
            Some(had)
        } else {
            self.entries.insert(at, WordEntry { chars, count });
            proof {
                assert(self@ =~= prior.insert(at as int, (word@, count)));
                lemma_inserted(prior, at as int, word@, count);
            }
            None
        }
    }
}

/// How often `word` stands among `tokens`.
pub open spec fn times(tokens: Seq<Seq<char>>, word: Seq<char>) -> nat
    decreases tokens.len(),
{
    if tokens.len() == 0 {
        0
    } else {
        times(tokens.drop_last(), word) + if tokens.last() == word {
            1nat
        } else {
            0nat
        }
    }
}

/// A word stands no more often among the first `k` tokens than among all.
pub proof fn lemma_times_prefix(tokens: Seq<Seq<char>>, word: Seq<char>, k: int)
    requires
        0 <= k <= tokens.len(),
    ensures
        times(tokens.take(k), word) <= times(tokens, word),
    decreases tokens.len() - k,
{
    if k < tokens.len() {
        lemma_times_prefix(tokens, word, k + 1);
        assert(tokens.take(k + 1).drop_last() =~= tokens.take(k));
    } else {
        assert(tokens.take(k) =~= tokens);
    }
}

/// Every count of the corpus, with the occurrences of its word among the
/// tokens added, still fits 32 bits.
pub open spec fn counts_fit(pairs: Seq<(Seq<char>, u32)>, tokens: Seq<Seq<char>>) -> bool {
    forall|w: Seq<char>| #![trigger times(tokens, w)] count_of(pairs, w) + times(tokens, w) <= u32::MAX
}

impl UnigramTrainer {
    /// Counts the tokens into the corpus: a token that is not yet a word of
    /// it comes in with count one, every other occurrence adds one.
    pub fn process_tokens(&self, words: &mut WordCounts, tokens: Vec<String>)
        requires
            old(words).wf(),
            counts_fit(old(words)@, tokens.deep_view()),
        ensures
            final(words).wf(),
            forall|w: Seq<char>|
                #![trigger count_of(final(words)@, w)]
                count_of(final(words)@, w) == count_of(old(words)@, w) + times(tokens.deep_view(), w),
            forall|w: Seq<char>|
                #![trigger has_word(final(words)@, w)]
                has_word(final(words)@, w) == (has_word(old(words)@, w) || times(tokens.deep_view(), w) > 0),
    {
        let ghost toks = tokens.deep_view();
        let ghost start = words@;
        let mut i: usize = 0;
        assert(toks.take(0) =~= Seq::empty());
        while i < tokens.len()
            invariant
                i <= tokens.len(),
                toks == tokens.deep_view(),
                words.wf(),
                forall|w: Seq<char>| #![trigger times(toks, w)] count_of(start, w) + times(toks, w) <= u32::MAX,
                forall|w: Seq<char>|
                    #![trigger times(toks.take(i as int), w)]
                    count_of(words@, w) == count_of(start, w) + times(toks.take(i as int), w)
                        && has_word(words@, w) == (has_word(start, w) || times(toks.take(i as int), w) > 0),
            decreases tokens.len() - i,
        {
            let token = tokens[i].as_str();
            let ghost before = words@;
            let ghost seen = toks.take(i as int);
            let ghost next = toks.take(i as int + 1);
            proof {
                assert(next.drop_last() =~= seen);
                assert(next.last() == token@);
                lemma_times_prefix(toks, token@, i as int + 1);
                assert(count_of(before, token@) == count_of(start, token@) + times(seen, token@));
                assert(count_of(start, token@) + times(toks, token@) <= u32::MAX);
            }
            words.add_one(token);
            proof {
                assert forall|w: Seq<char>| #![trigger times(next, w)]
                    count_of(words@, w) == count_of(start, w) + times(next, w) && has_word(words@, w) == (has_word(
                        start,
                        w,
                    ) || times(next, w) > 0) by {
                    assert(count_of(before, w) == count_of(start, w) + times(seen, w));
                    assert(has_word(before, w) == (has_word(start, w) || times(seen, w) > 0));
                }
            }
            i = i + 1;
        }
        proof {
            assert(toks.take(i as int) =~= toks);
            assert forall|w: Seq<char>| #![trigger count_of(words@, w)]
                count_of(words@, w) == count_of(start, w) + times(toks, w) by {
                assert(count_of(words@, w) == count_of(start, w) + times(toks.take(i as int), w));
            }
            assert forall|w: Seq<char>| #![trigger has_word(words@, w)]
                has_word(words@, w) == (has_word(start, w) || times(toks, w) > 0) by {
                assert(count_of(words@, w) == count_of(start, w) + times(toks.take(i as int), w));
            }
        }
    }
}

/// What changing the count at index `at` does to the corpus.
pub proof fn lemma_updated(prior: Seq<(Seq<char>, u32)>, at: int, count: u32)
    requires
        in_dictionary_order(prior),
        0 <= at < prior.len(),
    ensures
        ({
            let word = prior[at].0;
            let after = prior.update(at, (word, count));
            &&& in_dictionary_order(after)
            &&& has_word(after, word)
            &&& count_of(after, word) == count
            &&& forall|other: Seq<char>|
                other != word ==> has_word(after, other) == has_word(prior, other) && count_of(after, other)
                    == count_of(prior, other)
        }),
{
    let word = prior[at].0;
    let after = prior.update(at, (word, count));
    assert forall|i: int, j: int| 0 <= i < j < after.len() implies strictly_before(
        #[trigger] after[i].0,
        #[trigger] after[j].0,
    ) by {
        assert(strictly_before(prior[i].0, prior[j].0));
    }
    lemma_count_of_listed(after, at);
    assert forall|other: Seq<char>| other != word implies has_word(after, other) == has_word(prior, other)
        && count_of(after, other) == count_of(prior, other) by {
        if has_word(prior, other) {
            let k = choose|k: int| 0 <= k < prior.len() && #[trigger] prior[k].0 == other;
            assert(after[k].0 == other);
            lemma_count_of_listed(prior, k);
            lemma_count_of_listed(after, k);
        }
        if has_word(after, other) {
            let k = choose|k: int| 0 <= k < after.len() && #[trigger] after[k].0 == other;
            assert(prior[k].0 == other);
        }
    }
}

/// What putting a new word at index `at` does to the corpus.
pub proof fn lemma_inserted(prior: Seq<(Seq<char>, u32)>, at: int, word: Seq<char>, count: u32)
    requires
        in_dictionary_order(prior),
        0 <= at <= prior.len(),
        !has_word(prior, word),
        forall|i: int| 0 <= i < at ==> strictly_before(#[trigger] prior[i].0, word),
        forall|i: int| at <= i < prior.len() ==> lex_le(word, #[trigger] prior[i].0),
    ensures
        ({
            let after = prior.insert(at, (word, count));
            &&& in_dictionary_order(after)
            &&& has_word(after, word)
            &&& count_of(after, word) == count
            &&& forall|other: Seq<char>|
                other != word ==> has_word(after, other) == has_word(prior, other) && count_of(after, other)
                    == count_of(prior, other)
        }),
{
    let after = prior.insert(at, (word, count));
    assert forall|i: int, j: int| 0 <= i < j < after.len() implies strictly_before(
        #[trigger] after[i].0,
        #[trigger] after[j].0,
    ) by {
        let pi = if i < at { i } else { i - 1 };
        let pj = if j < at { j } else { j - 1 };
        if i == at {
            assert(after[j].0 == prior[pj].0);
            assert(lex_le(word, prior[pj].0));
            assert(prior[pj].0 != word);
        } else if j == at {
            assert(after[i].0 == prior[pi].0);
        } else {
            assert(after[i].0 == prior[pi].0);
            assert(after[j].0 == prior[pj].0);
            assert(strictly_before(prior[pi].0, prior[pj].0));
        }
    }
    assert(after[at].0 == word);
    lemma_count_of_listed(after, at);
    assert forall|other: Seq<char>| other != word implies has_word(after, other) == has_word(prior, other)
        && count_of(after, other) == count_of(prior, other) by {
        if has_word(prior, other) {
            let k = choose|k: int| 0 <= k < prior.len() && #[trigger] prior[k].0 == other;
            let k2 = if k < at { k } else { k + 1 };
            assert(after[k2].0 == other);
            lemma_count_of_listed(prior, k);
            lemma_count_of_listed(after, k2);
        }
        if has_word(after, other) {
            let k = choose|k: int| 0 <= k < after.len() && #[trigger] after[k].0 == other;
            let k0 = if k < at { k } else { k - 1 };
            assert(prior[k0].0 == other);
        }
    }
}

} // verus!
