use unigram_trainer::trainer::{UnigramTrainer, UnigramTrainerBuilder};
use unigram_trainer::word_counts::WordCounts;

fn sample_corpus() -> WordCounts {
    let mut word_count = WordCounts::new();
    word_count.insert("This is a", 1);
    word_count.insert("こんにちは友達", 1);
    word_count
}

#[test]
fn test_unigram_chars() {
    let trainer = UnigramTrainerBuilder::default().with_progress(false).build();
    let word_count = sample_corpus();

    let required_chars = trainer.required_chars(&word_count);
    assert_eq!(required_chars.len(), 13);

    let table = trainer.make_seed_sentence_pieces(&word_count).unwrap();

    let target_strings = vec![
        "s", "i", " ", "達", "友", "ん", "は", "に", "ち", "こ", "h", "a", "T", "is ", "s ",
    ];

    let strings: Vec<_> = table.iter().map(|piece| piece.piece.as_str()).collect();
    assert_eq!(strings, target_strings);

    // The library hands out raw weights; the scores are their log-probabilities.
    let sum: f64 = table.iter().map(|piece| piece.weight as f64).sum();
    let scores: Vec<f64> = table.iter().map(|piece| (piece.weight as f64).ln() - sum.ln()).collect();
    let target_scores = vec![
        -2.5649493574615367, // 2.0
        -2.5649493574615367, // 2.0
        -2.5649493574615367, // 2.0
        -3.258096538021482,  // 1.0
        -3.258096538021482,  // 1.0
        -3.258096538021482,  // 1.0
        -3.258096538021482,  // 1.0
        -3.258096538021482,  // 1.0
        -3.258096538021482,  // 1.0
        -3.258096538021482,  // 1.0
        -3.258096538021482,  // 1.0
        -3.258096538021482,  // 1.0
        -3.258096538021482,  // 1.0
        -1.4663370687934272, // 6.0
        -1.8718021769015916, // 4.0
    ];
    println!("Scores {:?}", scores);

    assert_eq!(scores.len(), target_scores.len());
    for (score, target_score) in scores.into_iter().zip(target_scores) {
        assert!((score - target_score).abs() < 0.01);
    }
}

#[test]
fn seed_weights_are_raw_counts() {
    let trainer = UnigramTrainer::new(false);
    let table = trainer.make_seed_sentence_pieces(&sample_corpus()).unwrap();
    let weights: Vec<u64> = table.iter().map(|piece| piece.weight).collect();
    assert_eq!(weights, vec![2, 2, 2, 1, 1, 1, 1, 1, 1, 1, 1, 1, 1, 6, 4]);
}

fn chars(s: &str) -> Vec<char> {
    s.chars().collect()
}

fn names(table: &[unigram_trainer::pieces::SeedPiece]) -> Vec<String> {
    table.iter().map(|piece| piece.piece.clone()).collect()
}

#[test]
fn required_chars_are_each_character_once() {
    let trainer = UnigramTrainer::new(false);
    let required = trainer.required_chars(&sample_corpus());
    let mut expected: Vec<char> = "This aこんにちは友達".chars().collect();
    expected.sort();
    expected.dedup();
    expected.reverse();
    assert_eq!(required, expected);
    assert_eq!(required.len(), 13);
}

#[test]
fn required_chars_keep_a_sentinel_that_a_word_holds() {
    let trainer = UnigramTrainer::new(false);
    let mut words = WordCounts::new();
    words.insert("ab", 1);
    assert_eq!(trainer.required_chars(&words), vec!['b', 'a']);
    words.insert("b\0", 1);
    assert_eq!(trainer.required_chars(&words), vec!['b', 'a', '\0']);
    assert_eq!(trainer.required_chars(&WordCounts::new()), Vec::<char>::new());
}

#[test]
fn seed_pieces_have_one_to_sixteen_characters() {
    let trainer = UnigramTrainer::new(false);
    let mut words = WordCounts::new();
    words.insert("abcdefghijklmnopqrstuvwxyz abcdefghijklmnopqrstuvwxyz", 3);
    words.insert("abcdefghijklmnopqrstuvwxyz", 1);
    let table = trainer.make_seed_sentence_pieces(&words).unwrap();
    assert!(table.len() > 27);
    let mut longest = 0;
    for piece in &table {
        let n = piece.piece.chars().count();
        assert!(1 <= n && n <= 16, "{:?}", piece.piece);
        assert!(!piece.piece.contains('\0'));
        longest = longest.max(n);
    }
    assert_eq!(longest, 16);
}

#[test]
fn seed_weights_normalise_to_probabilities() {
    let trainer = UnigramTrainer::new(false);
    let table = trainer.make_seed_sentence_pieces(&sample_corpus()).unwrap();
    let sum: f64 = table.iter().map(|piece| piece.weight as f64).sum();
    let total: f64 = table.iter().map(|piece| ((piece.weight as f64).ln() - sum.ln()).exp()).sum();
    assert!((total - 1.0).abs() < 1e-6);
}

#[test]
fn the_seed_list_is_cut_at_the_seed_size() {
    let mut trainer = UnigramTrainer::new(false);
    trainer.seed_size = 14;
    let table = trainer.make_seed_sentence_pieces(&sample_corpus()).unwrap();
    assert_eq!(
        names(&table),
        vec!["s", "i", " ", "達", "友", "ん", "は", "に", "ち", "こ", "h", "a", "T", "is "]
    );
    trainer.seed_size = 5;
    let table = trainer.make_seed_sentence_pieces(&sample_corpus()).unwrap();
    assert_eq!(names(&table), vec!["s", "i", " ", "達", "友"]);
    trainer.seed_size = 0;
    assert_eq!(trainer.make_seed_sentence_pieces(&sample_corpus()).unwrap().len(), 0);
    trainer.seed_size = 15;
    assert_eq!(trainer.make_seed_sentence_pieces(&sample_corpus()).unwrap().len(), 15);
}

#[test]
fn an_empty_corpus_has_no_seeds() {
    let trainer = UnigramTrainer::new(false);
    assert_eq!(trainer.make_seed_sentence_pieces(&WordCounts::new()).unwrap().len(), 0);
}

#[test]
fn words_of_one_character_give_their_characters() {
    let trainer = UnigramTrainer::new(false);
    let mut words = WordCounts::new();
    words.insert("a", 5);
    words.insert("b", 1);
    words.insert("c", 2);
    let table = trainer.make_seed_sentence_pieces(&words).unwrap();
    assert_eq!(names(&table), vec!["c", "b", "a"]);
    let weights: Vec<u64> = table.iter().map(|piece| piece.weight).collect();
    assert_eq!(weights, vec![1, 1, 1]);
}

#[test]
fn the_word_counts_do_not_weigh_in_seeding() {
    let trainer = UnigramTrainer::new(false);
    let mut words = WordCounts::new();
    words.insert("This is a", 100);
    words.insert("こんにちは友達", 3);
    let table = trainer.make_seed_sentence_pieces(&words).unwrap();
    let weights: Vec<u64> = table.iter().map(|piece| piece.weight).collect();
    assert_eq!(weights, vec![2, 2, 2, 1, 1, 1, 1, 1, 1, 1, 1, 1, 1, 6, 4]);
}

#[test]
fn candidates_are_the_valid_nodes_with_their_scores() {
    let nodes = vec![
        (chars("ab"), 3),
        (chars("a"), 5),
        (chars("a\0b"), 2),
        (chars(""), 11),
        (chars("0123456789abcdefg"), 2),
        (chars("0123456789abcdef"), 2),
        (chars("友達"), u32::MAX),
    ];
    let found = unigram_trainer::seed::substring_candidates(&nodes);
    let listed: Vec<(String, u64)> = found.iter().map(|c| (c.chars.iter().collect(), c.score)).collect();
    assert_eq!(
        listed,
        vec![
            ("ab".to_string(), 6),
            ("0123456789abcdef".to_string(), 32),
            ("友達".to_string(), 2 * (u32::MAX as u64)),
        ]
    );
}

#[test]
fn seeds_are_the_census_then_the_ranked_candidates() {
    let trainer = UnigramTrainer::new(false);
    let nodes = vec![
        (chars("ab"), 2),
        (chars("b\0a"), 2),
        (chars("abab"), 1),
        (chars("ba"), 2),
        (chars("a"), 3),
    ];
    let table = trainer.seed_pieces_from(&chars("abab\0a\0"), &nodes);
    let listed: Vec<(String, u64)> = table.iter().map(|p| (p.piece.clone(), p.weight)).collect();
    assert_eq!(
        listed,
        vec![
            ("a".to_string(), 3),
            ("b".to_string(), 2),
            ("ba".to_string(), 4),
            ("abab".to_string(), 4),
            ("ab".to_string(), 4),
        ]
    );
}
