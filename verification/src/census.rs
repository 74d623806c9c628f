//! Counting the characters of a text.

use crate::order::{
    all_among, arranged, is_ranking, lemma_strictly_ranked_unique, occurs, precedes, rank, strictly_ranked, Order,
};
use crate::pieces::{lemma_char_count_ties, CharCount};
use crate::text::{char_at, code, code_of, lemma_code_injective, lemma_code_range, CODE_POINTS};
use vstd::prelude::*;

verus! {

/// The character that closes each word in the text handed to the suffix
/// array. It is not counted and stands in no piece.
pub const SENTINEL: char = '\0';

/// How often `c` stands in `text`.
pub open spec fn occurrences(text: Seq<char>, c: char) -> nat
    decreases text.len(),
{
    if text.len() == 0 {
        0
    } else {
        occurrences(text.drop_last(), c) + if text.last() == c {
            1nat
        } else {
            0nat
        }
    }
}

/// A character cannot occur more often than the text is long.
pub proof fn lemma_occurrences_bound(text: Seq<char>, c: char)
    ensures
        occurrences(text, c) <= text.len(),
    decreases text.len(),
{
    if text.len() > 0 {
        lemma_occurrences_bound(text.drop_last(), c);
    }
}

/// A character occurs at least once exactly if it stands somewhere.
pub proof fn lemma_occurrences_positive(text: Seq<char>, c: char)
    ensures
        occurrences(text, c) >= 1 <==> text.contains(c),
    decreases text.len(),
{
    if text.len() > 0 {
        let rest = text.drop_last();
        lemma_occurrences_positive(rest, c);
        if rest.contains(c) {
            let k = choose|k: int| 0 <= k < rest.len() && rest[k] == c;
            assert(text[k] == c);
        }
        if text.contains(c) {
            let k = choose|k: int| 0 <= k < text.len() && text[k] == c;
            if k < text.len() - 1 {
                assert(rest[k] == c);
            }
        }
    }
}

/// What the tally holds for `c` once `text` has been read: its occurrences,
/// or nothing where `c` is the sentinel and the sentinel is left out.
pub open spec fn tallied(text: Seq<char>, c: char, with_sentinel: bool) -> nat {
    if c == SENTINEL && !with_sentinel {
        0
    } else {
        occurrences(text, c)
    }
}

/// `c` has an entry in `entries`.
pub open spec fn listed(entries: Seq<CharCount>, c: char) -> bool {
    exists|i: int| 0 <= i < entries.len() && #[trigger] entries[i].ch == c
}

/// `entries` hold each character of `text` once, with the number of its
/// occurrences; the sentinel only where `with_sentinel` says so.
pub open spec fn is_tally(text: Seq<char>, entries: Seq<CharCount>, with_sentinel: bool) -> bool {
    &&& forall|i: int|
        0 <= i < entries.len() ==> (#[trigger] entries[i]).count >= 1 && entries[i].count == tallied(
            text,
            entries[i].ch,
            with_sentinel,
        )
    &&& forall|i: int, j: int| 0 <= i < j < entries.len() ==> (#[trigger] entries[i]).ch != (#[trigger] entries[j]).ch
    &&& forall|k: int|
        0 <= k < text.len() && (with_sentinel || text[k] != SENTINEL) ==> listed(entries, #[trigger] text[k])
}

/// `census` is the census of `text`: every character of the text but the
/// sentinel, each once and with the number of its occurrences, the most
/// frequent first and, among equally frequent ones, the larger code point
/// first.
pub open spec fn is_census(text: Seq<char>, census: Seq<CharCount>) -> bool {
    is_tally(text, census, false) && strictly_ranked(census)
}

/// The census of `text`.
pub open spec fn census(text: Seq<char>) -> Seq<CharCount> {
    choose|entries: Seq<CharCount>| is_census(text, entries)
}

proof fn lemma_listed_entry(text: Seq<char>, one: Seq<CharCount>, other: Seq<CharCount>)
    requires
        is_tally(text, one, false),
        is_tally(text, other, false),
    ensures
        all_among(one, other),
{
    assert forall|i: int| 0 <= i < one.len() implies other.contains(#[trigger] one[i]) by {
        let c = one[i].ch;
        lemma_occurrences_positive(text, c);
        let k = choose|k: int| 0 <= k < text.len() && text[k] == c;
        assert(listed(other, text[k]));
        let j = choose|j: int| 0 <= j < other.len() && #[trigger] other[j].ch == c;
        assert(other[j] == one[i]);
    }
}

/// A text has one census only.
pub proof fn lemma_census_is(text: Seq<char>, entries: Seq<CharCount>)
    requires
        is_census(text, entries),
    ensures
        entries == census(text),
        is_census(text, census(text)),
{
    let other = census(text);
    lemma_listed_entry(text, entries, other);
    lemma_listed_entry(text, other, entries);
    lemma_strictly_ranked_unique(entries, other);
}

/// A table of `n` zeros.
fn zeroed(n: usize) -> (table: Vec<u64>)
    ensures
        table.len() == n,
        forall|i: int| 0 <= i < n ==> table[i] == 0,
{
    let mut table: Vec<u64> = Vec::new();
    let mut i: usize = 0;
    while i < n
        invariant
            i <= n,
            table.len() == i,
            forall|k: int| 0 <= k < i ==> table[k] == 0,
        decreases n - i,
    {
        table.push(0);
        i = i + 1;
    }
    table
}

/// Counts the characters of `text`.
pub(crate) fn tally(text: &[char], with_sentinel: bool) -> (entries: Vec<CharCount>)
    ensures
        is_tally(text@, entries@, with_sentinel),
{
    let mut table: Vec<u64> = zeroed(CODE_POINTS);
    let mut seen: Vec<char> = Vec::new();
    let mut i: usize = 0;
    assert forall|c: char| #[trigger] tallied(text@.take(0), c, with_sentinel) == table[code(c)] by {
        assert(text@.take(0).len() == 0);
        lemma_code_range(c);
    }
    while i < text.len()
        invariant
            i <= text.len(),
            table.len() == CODE_POINTS,
            forall|c: char| #[trigger] tallied(text@.take(i as int), c, with_sentinel) == table[code(c)],
            forall|a: int, b: int| 0 <= a < b < seen.len() ==> seen[a] != seen[b],
            forall|c: char| seen@.contains(c) <==> #[trigger] tallied(text@.take(i as int), c, with_sentinel) >= 1,
        decreases text.len() - i,
    {
        let d: char = char_at(text, i);
        let ghost before = text@.take(i as int);
        let ghost after = text@.take(i as int + 1);
        let ghost old_table = table@;
        let ghost old_seen = seen@;
        proof {
            assert(after.drop_last() =~= before);
            assert(after.last() == d);
            lemma_occurrences_bound(before, d);
        }
        if with_sentinel || d != SENTINEL {
            let slot: usize = code_of(d);
            let had: u64 = table[slot];
            assert(had == tallied(before, d, with_sentinel));
            table.set(slot, had + 1);
            if had == 0 {
                seen.push(d);
            }
            proof {
                assert forall|c: char| #[trigger]
                    tallied(after, c, with_sentinel) == table[code(c)] by {
                    lemma_code_injective(c, d);
                    lemma_code_range(c);
                    assert(tallied(before, c, with_sentinel) == old_table[code(c)]);
                }
                assert forall|c: char| seen@.contains(c) <==> #[trigger] tallied(after, c, with_sentinel)
                    >= 1 by {
                    assert(old_seen.contains(c) <==> tallied(before, c, with_sentinel) >= 1);
                    if had == 0 {
                        assert(seen@ == old_seen.push(d));
                        assert(seen@[old_seen.len() as int] == d);
                        if old_seen.contains(c) {
                            let k = choose|k: int| 0 <= k < old_seen.len() && old_seen[k] == c;
                            assert(seen@[k] == c);
                        }
                        if seen@.contains(c) && c != d {
                            let k = choose|k: int| 0 <= k < seen@.len() && seen@[k] == c;
                            assert(old_seen[k] == c);
                        }
                    }
                }
                if had == 0 {
                    assert(!old_seen.contains(d));
                }
            }
        } else {
            proof {
                assert forall|c: char| #[trigger]
                    tallied(after, c, with_sentinel) == table[code(c)] by {
                    assert(tallied(before, c, with_sentinel) == old_table[code(c)]);
                }
                assert forall|c: char| seen@.contains(c) <==> #[trigger] tallied(after, c, with_sentinel)
                    >= 1 by {
                    assert(old_seen.contains(c) <==> tallied(before, c, with_sentinel) >= 1);
                }
            }
        }
        i = i + 1;
    }
    assert(text@.take(i as int) =~= text@);
    assert forall|n: int| 0 <= n < seen.len() implies table[code(#[trigger] seen[n])] == tallied(
        text@,
        seen[n],
        with_sentinel,
    ) && tallied(text@, seen[n], with_sentinel) >= 1 by {
        assert(seen@.contains(seen[n]));
    }
    let mut entries: Vec<CharCount> = Vec::new();
    let mut k: usize = 0;
    while k < seen.len()
        invariant
            k <= seen.len(),
            table.len() == CODE_POINTS,
            entries.len() == k,
            forall|n: int|
                0 <= n < seen.len() ==> table[code(#[trigger] seen[n])] == tallied(text@, seen[n], with_sentinel)
                    && tallied(text@, seen[n], with_sentinel) >= 1,
            forall|n: int|
                0 <= n < k ==> (#[trigger] entries[n]).ch == seen[n] && entries[n].count == tallied(
                    text@,
                    seen[n],
                    with_sentinel,
                ),
        decreases seen.len() - k,
    {
        let c: char = char_at(seen.as_slice(), k);
        let count: u64 = table[code_of(c)];
        entries.push(CharCount { ch: c, count });
        k = k + 1;
    }
    proof {
        assert forall|p: int| 0 <= p < text.len() && (with_sentinel || text[p] != SENTINEL) implies listed(
            entries@,
            #[trigger] text@[p],
        ) by {
            let c = text@[p];
            assert(text@.contains(c));
            lemma_occurrences_positive(text@, c);
            assert(tallied(text@, c, with_sentinel) >= 1);
            let n = choose|n: int| 0 <= n < seen@.len() && seen@[n] == c;
            assert(entries[n].ch == c);
        }
    }
    entries
}

/// The census of `text`.
pub fn take_census(text: &[char]) -> (entries: Vec<CharCount>)
    ensures
        is_census(text@, entries@),
        entries@ == census(text@),
{
    let counted = tally(text, false);
    let order = rank(&counted);
    let mut entries: Vec<CharCount> = Vec::new();
    let mut k: usize = 0;
    assert(counted.deep_view() =~= counted@);
    while k < order.len()
        invariant
            k <= order.len(),
            order.len() == counted.len(),
            is_ranking(counted@, order@),
            entries@ == arranged(counted@, order@).take(k as int),
        decreases order.len() - k,
    {
        entries.push(counted[order[k]]);
        assert(entries@ =~= arranged(counted@, order@).take(k as int + 1));
        k = k + 1;
    }
    proof {
        let sorted = arranged(counted@, order@);
        assert(entries@ =~= sorted);
        assert forall|p: int| 0 <= p < text.len() && text[p] != SENTINEL implies listed(
            entries@,
            #[trigger] text@[p],
        ) by {
            assert(listed(counted@, text@[p]));
            let n = choose|n: int| 0 <= n < counted.len() && #[trigger] counted[n].ch == text@[p];
            assert(occurs(order@, n));
            let m = choose|m: int| 0 <= m < order.len() && #[trigger] order[m] == n;
            assert(entries[m].ch == text@[p]);
        }
        assert forall|a: int, b: int| 0 <= a < b < entries.len() implies (#[trigger] entries[a]).no_lower(
            #[trigger] entries[b],
        ) && !entries[b].no_lower(entries[a]) && entries[a].ch != entries[b].ch by {
            assert(precedes(counted@, order[a] as int, order[b] as int));
            if entries[b].no_lower(entries[a]) {
                lemma_char_count_ties(entries[a], entries[b]);
            }
            if order[a] < order[b] {
                assert(counted[order[a] as int].ch != counted[order[b] as int].ch);
            } else {
                assert(counted[order[b] as int].ch != counted[order[a] as int].ch);
            }
        }
        lemma_census_is(text@, entries@);
    }
    entries
}

} // verus!
