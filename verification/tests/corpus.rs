use unigram_trainer::trainer::UnigramTrainer;
use unigram_trainer::word_counts::WordCounts;

fn listed(words: &WordCounts) -> Vec<(String, u32)> {
    (0..words.len()).map(|i| (words.word(i), words.count(i))).collect()
}

#[test]
fn a_new_corpus_is_empty() {
    let words = WordCounts::new();
    assert_eq!(words.len(), 0);
    assert_eq!(words.get("a"), None);
}

#[test]
fn insert_sets_and_replaces() {
    let mut words = WordCounts::new();
    assert_eq!(words.insert("b", 2), None);
    assert_eq!(words.insert("a", 1), None);
    assert_eq!(words.insert("友達", 7), None);
    assert_eq!(words.insert("ab", 3), None);
    assert_eq!(words.insert("", 9), None);
    assert_eq!(words.insert("b", 5), Some(2));
    assert_eq!(words.len(), 5);
    assert_eq!(words.get("b"), Some(5));
    assert_eq!(words.get("a"), Some(1));
    assert_eq!(words.get("ab"), Some(3));
    assert_eq!(words.get(""), Some(9));
    assert_eq!(words.get("友達"), Some(7));
    assert_eq!(words.get("c"), None);
    assert_eq!(words.get("友"), None);
}

#[test]
fn words_stand_in_dictionary_order() {
    let mut words = WordCounts::new();
    for (word, count) in [("b", 2), ("友達", 7), ("a", 1), ("ab", 3), ("", 9), ("B", 4)] {
        words.insert(word, count);
    }
    let expected: Vec<(String, u32)> = [("", 9), ("B", 4), ("a", 1), ("ab", 3), ("b", 2), ("友達", 7)]
        .iter()
        .map(|(word, count)| (word.to_string(), *count))
        .collect();
    assert_eq!(listed(&words), expected);
    assert_eq!(words.word_chars(3), &vec!['a', 'b']);
}

#[test]
fn add_one_counts_an_occurrence() {
    let mut words = WordCounts::new();
    words.add_one("a");
    words.add_one("b");
    words.add_one("a");
    assert_eq!(words.get("a"), Some(2));
    assert_eq!(words.get("b"), Some(1));
    words.insert("c", u32::MAX - 1);
    words.add_one("c");
    assert_eq!(words.get("c"), Some(u32::MAX));
}

#[test]
fn process_tokens_inserts_or_adds_one() {
    let trainer = UnigramTrainer::new(false);
    let mut words = WordCounts::new();
    words.insert("the", 10);
    let tokens: Vec<String> = ["a", "the", "b", "a", "a", "the"].iter().map(|t| t.to_string()).collect();
    trainer.process_tokens(&mut words, tokens);
    let expected = vec![("a".to_string(), 3), ("b".to_string(), 1), ("the".to_string(), 12)];
    assert_eq!(listed(&words), expected);
    trainer.process_tokens(&mut words, Vec::new());
    assert_eq!(listed(&words), expected);
}

#[test]
fn room_for_tokens_is_room_for_every_count() {
    let mut words = WordCounts::new();
    words.insert("a", u32::MAX - 2);
    words.insert("b", u32::MAX);
    let tokens = |list: &[&str]| -> Vec<String> { list.iter().map(|t| t.to_string()).collect() };
    assert!(words.has_room_for(&tokens(&[])));
    assert!(words.has_room_for(&tokens(&["a", "c", "a", "c"])));
    assert!(!words.has_room_for(&tokens(&["a", "c", "a", "a"])));
    assert!(!words.has_room_for(&tokens(&["c", "b"])));
    assert!(WordCounts::new().has_room_for(&tokens(&["x", "x", "x"])));
    let trainer = UnigramTrainer::new(false);
    trainer.process_tokens(&mut words, tokens(&["a", "c", "a", "c"]));
    assert_eq!(words.get("a"), Some(u32::MAX));
    assert_eq!(words.get("c"), Some(2));
}
