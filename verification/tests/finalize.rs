use unigram_trainer::finalize::{all_different, can_finalize, count_missing};
use unigram_trainer::pieces::SentencePiece;
use unigram_trainer::score::Score;
use unigram_trainer::trainer::UnigramTrainer;
use unigram_trainer::vocabulary::{validate_vocabulary, find_piece};

fn score(value: f64) -> Score {
    Score::from_bits(value.to_bits())
}

fn piece(name: &str, value: f64) -> SentencePiece {
    SentencePiece { piece: name.to_string(), score: score(value) }
}

fn listed(pieces: &[SentencePiece]) -> Vec<(String, f64)> {
    pieces.iter().map(|p| (p.piece.clone(), f64::from_bits(p.score.to_bits()))).collect()
}

fn expect(pairs: &[(&str, f64)]) -> Vec<(String, f64)> {
    pairs.iter().map(|(name, value)| (name.to_string(), *value)).collect()
}

fn trainer_for(vocab_size: u32) -> UnigramTrainer {
    let mut trainer = UnigramTrainer::new(false);
    trainer.vocab_size = vocab_size;
    trainer
}

fn sample_model() -> Vec<SentencePiece> {
    vec![piece("a", -1.0), piece("b", -2.0), piece("ab", -1.5), piece("c", -3.0)]
}

#[test]
fn finalize_fills_up_to_the_vocabulary_size() {
    let model = sample_model();
    let required = vec!['b', 'z', 'y'];
    let injected = vec![score(-3.0), score(-2.9999), score(-2.9998)];
    assert!(can_finalize(&model, &required, &injected));
    let pieces = trainer_for(7).finalize(&model, &required, &injected);
    assert_eq!(
        listed(&pieces),
        expect(&[
            ("<bos>", 0.0),
            ("<eos>", 0.0),
            ("<unk>", 0.0),
            ("a", -1.0),
            ("b", -2.0),
            ("y", -2.9999),
            ("z", -3.0),
        ])
    );
}

#[test]
fn finalize_takes_the_whole_model_where_there_is_room() {
    let model = sample_model();
    let required = vec!['b', 'z'];
    let injected = vec![score(-3.0), score(-2.9999)];
    let pieces = trainer_for(8000).finalize(&model, &required, &injected);
    assert_eq!(
        listed(&pieces),
        expect(&[
            ("<bos>", 0.0),
            ("<eos>", 0.0),
            ("<unk>", 0.0),
            ("a", -1.0),
            ("ab", -1.5),
            ("b", -2.0),
            ("z", -3.0),
            ("c", -3.0),
        ])
    );
}

#[test]
fn finalize_keeps_reserved_and_required_pieces_whatever_the_size() {
    let model = sample_model();
    let required = vec!['c', 'q'];
    let injected = vec![score(-3.5), score(-3.4)];
    for vocab_size in [0, 2, 5] {
        let pieces = trainer_for(vocab_size).finalize(&model, &required, &injected);
        assert_eq!(
            listed(&pieces),
            expect(&[("<bos>", 0.0), ("<eos>", 0.0), ("<unk>", 0.0), ("c", -3.0), ("q", -3.5)])
        );
    }
}

#[test]
fn finalize_gives_reserved_pieces_score_zero() {
    let model = vec![piece("<unk>", -7.0), piece("a", 1.0), piece("<bos>", 2.0)];
    let pieces = trainer_for(10).finalize(&model, &vec![], &vec![]);
    assert_eq!(listed(&pieces), expect(&[("a", 1.0), ("<bos>", 0.0), ("<eos>", 0.0), ("<unk>", 0.0)]));
}

#[test]
fn finalize_leaves_equal_scores_in_the_order_of_entry() {
    let model = vec![piece("x", -1.0), piece("m", -0.0), piece("y", -1.0), piece("k", 0.0), piece("w", -1.0)];
    let required = vec!['w', 'n'];
    let injected = vec![score(-1.0), score(-1.0)];
    let pieces = trainer_for(100).finalize(&model, &required, &injected);
    let names: Vec<&str> = pieces.iter().map(|p| p.piece.as_str()).collect();
    assert_eq!(names, vec!["<bos>", "<eos>", "<unk>", "m", "k", "w", "n", "x", "y"]);
}

#[test]
fn finalize_injects_the_scores_in_turn() {
    let model = vec![piece("b", -2.0)];
    let required = vec!['a', 'b', 'c', 'd'];
    let injected = vec![score(-2.0), score(-1.9999), score(-1.9998), score(-1.9997)];
    let pieces = trainer_for(3).finalize(&model, &required, &injected);
    assert_eq!(
        listed(&pieces),
        expect(&[
            ("<bos>", 0.0),
            ("<eos>", 0.0),
            ("<unk>", 0.0),
            ("d", -1.9998),
            ("c", -1.9999),
            ("a", -2.0),
            ("b", -2.0),
        ])
    );
}

#[test]
fn finalize_of_an_empty_model_holds_the_reserved_pieces() {
    let pieces = trainer_for(8000).finalize(&vec![], &vec![], &vec![]);
    assert_eq!(listed(&pieces), expect(&[("<bos>", 0.0), ("<eos>", 0.0), ("<unk>", 0.0)]));
}

#[test]
fn finalizing_twice_changes_nothing() {
    let model = vec![
        piece("x", -1.0),
        piece("m", -0.0),
        piece("y", -1.0),
        piece("ab", -1.5),
        piece("w", -1.0),
        piece("c", -3.0),
        piece("zz", -1.0),
    ];
    let required = vec!['w', 'n', 'c', 'q'];
    let injected = vec![score(-3.0), score(-2.9999), score(-2.9998), score(-2.9997)];
    for other in [vec![], vec![score(5.0), score(6.0), score(7.0), score(8.0)]] {
        for vocab_size in [0, 7, 8, 9, 10, 11, 12, 8000] {
            let trainer = trainer_for(vocab_size);
            let once = trainer.finalize(&model, &required, &injected);
            assert_eq!(count_missing(&once, &required), 0);
            assert!(can_finalize(&once, &required, &other));
            let twice = trainer.finalize(&once, &required, &other);
            assert_eq!(listed(&twice), listed(&once));
        }
    }
}

#[test]
fn vocabularies_are_told_from_other_lists() {
    assert!(validate_vocabulary(&sample_model()));
    assert!(validate_vocabulary(&vec![]));
    assert!(!validate_vocabulary(&vec![piece("a", 1.0), piece("b", 2.0), piece("a", 3.0)]));
    assert!(!validate_vocabulary(&vec![piece("a", 1.0), piece("b", f64::NAN)]));
    assert!(validate_vocabulary(&vec![piece("a", f64::INFINITY), piece("b", f64::NEG_INFINITY)]));
}

#[test]
fn the_finalizer_says_what_it_takes() {
    let model = sample_model();
    assert!(can_finalize(&model, &vec!['a', 'b'], &vec![score(1.0), score(2.0), score(3.0)]));
    assert!(can_finalize(&model, &vec!['a', 'b'], &vec![]));
    assert!(can_finalize(&model, &vec!['x', 'a', 'y'], &vec![score(1.0), score(2.0)]));
    assert!(!can_finalize(&model, &vec!['x', 'a', 'y'], &vec![score(1.0)]));
    assert!(!can_finalize(&model, &vec!['a', 'b', 'a'], &vec![score(1.0), score(2.0), score(3.0)]));
    assert!(can_finalize(&model, &vec!['x'], &vec![score(1.0), score(f64::NAN)]));
    assert!(!can_finalize(&model, &vec!['x'], &vec![score(f64::NAN), score(1.0)]));
    assert!(!can_finalize(&vec![piece("a", f64::NAN)], &vec![], &vec![]));
    assert!(!can_finalize(&vec![piece("a", 1.0), piece("a", 1.0)], &vec![], &vec![]));
    assert!(all_different(&vec![]));
    assert!(all_different(&vec!['a', 'b', 'c']));
    assert!(!all_different(&vec!['a', 'b', 'c', 'b']));
}

#[test]
fn pieces_are_found_by_name() {
    let model = sample_model();
    assert_eq!(find_piece(&model, &"ab".to_string()), Some(2));
    assert_eq!(find_piece(&model, &"a".to_string()), Some(0));
    assert_eq!(find_piece(&model, &"abc".to_string()), None);
    assert_eq!(find_piece(&vec![], &"a".to_string()), None);
}

#[test]
fn missing_characters_are_counted() {
    let model = sample_model();
    assert_eq!(count_missing(&model, &vec![]), 0);
    assert_eq!(count_missing(&model, &vec!['a', 'b', 'c']), 0);
    assert_eq!(count_missing(&model, &vec!['x', 'a', 'y', 'c', 'z']), 3);
    assert_eq!(count_missing(&vec![], &vec!['a', 'b']), 2);
    assert_eq!(count_missing(&vec![piece("ab", 1.0)], &vec!['a', 'b']), 2);
}

#[test]
fn finalize_needs_scores_for_missing_characters_only() {
    let model = sample_model();
    let pieces = trainer_for(6).finalize(&model, &vec!['c', 'a'], &vec![]);
    assert_eq!(
        listed(&pieces),
        expect(&[("<bos>", 0.0), ("<eos>", 0.0), ("<unk>", 0.0), ("a", -1.0), ("b", -2.0), ("c", -3.0)])
    );
    let pieces = trainer_for(5).finalize(&model, &vec!['c', 'q', 'a'], &vec![score(-3.0)]);
    assert_eq!(
        listed(&pieces),
        expect(&[("<bos>", 0.0), ("<eos>", 0.0), ("<unk>", 0.0), ("a", -1.0), ("c", -3.0), ("q", -3.0)])
    );
}
