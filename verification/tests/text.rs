use unigram_trainer::census::take_census;
use unigram_trainer::is_valid_sentencepiece;
use unigram_trainer::order::rank;
use unigram_trainer::pieces::{Candidate, CharCount, SentencePiece};
use unigram_trainer::score::Score;
use unigram_trainer::text::{char_at, chars_of, code_of, lex_no_greater, string_of};

fn chars(s: &str) -> Vec<char> {
    s.chars().collect()
}

#[test]
fn a_piece_has_one_to_sixteen_characters() {
    assert!(!is_valid_sentencepiece(&[]));
    assert!(is_valid_sentencepiece(&['a']));
    assert!(is_valid_sentencepiece(&chars("0123456789abcdef")));
    assert!(!is_valid_sentencepiece(&chars("0123456789abcdefg")));
    assert!(is_valid_sentencepiece(&chars("a b")));
    assert!(is_valid_sentencepiece(&chars("こんにちは友達")));
}

#[test]
fn strings_and_characters_convert() {
    assert_eq!(chars_of("This is a"), chars("This is a"));
    assert_eq!(chars_of("こんにちは友達").len(), 7);
    assert_eq!(chars_of(""), Vec::<char>::new());
    assert_eq!(string_of(&chars("友達 ab")), "友達 ab");
    assert_eq!(string_of(&[]), "");
    assert_eq!(char_at(&chars("abc"), 1), 'b');
    assert_eq!(code_of('a'), 97);
    assert_eq!(code_of('\u{10FFFF}'), 0x10FFFF);
}

#[test]
fn dictionary_order_is_that_of_slices() {
    let words = ["", "a", "ab", "abc", "b", "ba", "友", "友達", "a\0"];
    for a in words {
        for b in words {
            assert_eq!(lex_no_greater(&chars(a), &chars(b)), chars(a) <= chars(b), "{:?} <= {:?}", a, b);
        }
    }
}

#[test]
fn census_puts_the_most_frequent_first() {
    let counted = take_census(&chars("abracadabra\0"));
    let expected = vec![
        CharCount { ch: 'a', count: 5 },
        CharCount { ch: 'r', count: 2 },
        CharCount { ch: 'b', count: 2 },
        CharCount { ch: 'd', count: 1 },
        CharCount { ch: 'c', count: 1 },
    ];
    assert_eq!(counted, expected);
    assert_eq!(take_census(&[]), Vec::<CharCount>::new());
    assert_eq!(take_census(&['\0', '\0']), Vec::<CharCount>::new());
}

#[test]
fn rank_orders_candidates_by_score_then_by_text() {
    let items = vec![
        Candidate { chars: chars("ab"), score: 4 },
        Candidate { chars: chars("is "), score: 6 },
        Candidate { chars: chars("s "), score: 4 },
        Candidate { chars: chars("abc"), score: 4 },
    ];
    assert_eq!(rank(&items), vec![1, 2, 3, 0]);
}

#[test]
fn rank_keeps_equal_scores_in_their_order() {
    let piece = |name: &str, value: f64| SentencePiece {
        piece: name.to_string(),
        score: Score::from_bits(value.to_bits()),
    };
    let items = vec![
        piece("d", -2.0),
        piece("a", -1.0),
        piece("b", -1.0),
        piece("z", 0.0),
        piece("c", -1.0),
        piece("y", -0.0),
    ];
    assert_eq!(rank(&items), vec![3, 5, 1, 2, 4, 0]);
    assert_eq!(rank(&Vec::<SentencePiece>::new()), Vec::<usize>::new());
}

#[test]
fn rank_of_many_items_is_sorted_and_complete() {
    let mut items: Vec<CharCount> = Vec::new();
    let mut seed: u64 = 12345;
    for i in 0..1000u32 {
        seed = seed.wrapping_mul(6364136223846793005).wrapping_add(1442695040888963407);
        items.push(CharCount { ch: char::from_u32(0x4E00 + i).unwrap(), count: (seed >> 33) % 50 });
    }
    let order = rank(&items);
    assert_eq!(order.len(), items.len());
    let mut seen = vec![false; items.len()];
    for &i in &order {
        assert!(!seen[i]);
        seen[i] = true;
    }
    for pair in order.windows(2) {
        let (a, b) = (items[pair[0]], items[pair[1]]);
        assert!((a.count, a.ch) > (b.count, b.ch));
    }
}
