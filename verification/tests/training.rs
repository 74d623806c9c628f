use unigram_trainer::control::TrainingAction;
use unigram_trainer::error::TrainerError;
use unigram_trainer::pieces::SentencePiece;
use unigram_trainer::score::Score;
use unigram_trainer::trainer::{UnigramTrainer, UnigramTrainerBuilder};
use unigram_trainer::word_counts::WordCounts;

fn score(value: f64) -> Score {
    Score::from_bits(value.to_bits())
}

fn piece(name: &str, value: f64) -> SentencePiece {
    SentencePiece { piece: name.to_string(), score: score(value) }
}

fn names(pieces: &[SentencePiece]) -> Vec<&str> {
    pieces.iter().map(|p| p.piece.as_str()).collect()
}

#[test]
fn a_trainer_starts_with_the_default_sizes() {
    let trainer = UnigramTrainer::new(false);
    assert!(!trainer.show_progress);
    assert!(!trainer.should_show_progress());
    assert_eq!(trainer.vocab_size, 8000);
    assert_eq!(trainer.n_sub_iterations, 2);
    assert_eq!(trainer.seed_size, 1_000_000);
    assert!(trainer.special_tokens.is_empty());
    let trainer = UnigramTrainer::default();
    assert!(trainer.should_show_progress());
    assert_eq!(trainer.vocab_size, 8000);
}

#[test]
fn the_builder_sets_the_progress_flag() {
    assert!(UnigramTrainerBuilder::default().build().should_show_progress());
    assert!(!UnigramTrainerBuilder::default().with_progress(false).build().should_show_progress());
    let trainer = UnigramTrainerBuilder::default().with_progress(false).with_progress(true).build();
    assert!(trainer.should_show_progress());
    assert_eq!(trainer.vocab_size, 8000);
    assert_eq!(trainer.n_sub_iterations, 2);
}

#[test]
fn total_frequency_adds_the_counts() {
    let trainer = UnigramTrainer::new(false);
    let mut words = WordCounts::new();
    words.insert("a", 2);
    words.insert("b", 3);
    assert_eq!(trainer.total_frequency(&words), Ok(5));
    words.insert("c", u32::MAX);
    words.insert("d", u32::MAX);
    assert_eq!(trainer.total_frequency(&words), Ok(5 + 2 * (u32::MAX as u64)));
}

#[test]
fn a_corpus_without_occurrences_is_no_training_data() {
    let trainer = UnigramTrainer::new(false);
    let mut words = WordCounts::new();
    assert_eq!(trainer.total_frequency(&words), Err(TrainerError::EmptyCorpus));
    words.insert("a", 0);
    words.insert("b", 0);
    assert_eq!(trainer.total_frequency(&words), Err(TrainerError::EmptyCorpus));
}

#[test]
fn a_nan_log_partition_ends_the_training() {
    let trainer = UnigramTrainer::new(false);
    assert_eq!(trainer.count_sentence(10, score(-1.5), 3), Ok(13));
    assert_eq!(trainer.count_sentence(0, score(f64::NEG_INFINITY), 0), Ok(0));
    assert_eq!(trainer.count_sentence(10, score(f64::NAN), 3), Err(TrainerError::NumericInstability));
}

#[test]
fn pieces_below_one_half_are_dropped() {
    let trainer = UnigramTrainer::new(false);
    let pieces = vec![
        piece("a", -1.0),
        piece("b", -2.0),
        piece("c", -3.0),
        piece("d", -4.0),
        piece("e", -5.0),
        piece("f", -6.0),
        piece("g", -7.0),
    ];
    let expected = vec![
        score(0.5),
        score(0.49999999999999994),
        score(2.0),
        score(0.0),
        score(-3.0),
        score(1000.25),
        score(f64::INFINITY),
    ];
    let kept = trainer.significant_pieces(&pieces, &expected).unwrap();
    let listed: Vec<(&str, f64)> = kept.iter().map(|p| (p.piece.as_str(), f64::from_bits(p.score.to_bits()))).collect();
    assert_eq!(listed, vec![("a", 0.5), ("c", 2.0), ("f", 1000.25), ("g", f64::INFINITY)]);
    assert!(kept.len() <= pieces.len());
}

#[test]
fn a_count_that_is_no_number_is_not_below_one_half() {
    let trainer = UnigramTrainer::new(false);
    let kept = trainer.significant_pieces(&vec![piece("a", -1.0), piece("b", -1.0)], &vec![score(f64::NAN), score(0.1)]).unwrap();
    assert_eq!(names(&kept), vec!["a"]);
    assert!(kept[0].score.is_nan());
}

#[test]
fn pieces_and_counts_must_be_of_one_length() {
    let trainer = UnigramTrainer::new(false);
    let pieces = vec![piece("a", -1.0), piece("b", -2.0)];
    assert_eq!(
        trainer.significant_pieces(&pieces, &vec![score(1.0)]).err(),
        Some(TrainerError::SizeMismatch)
    );
    assert_eq!(
        trainer.significant_pieces(&pieces, &vec![score(1.0), score(1.0), score(1.0)]).err(),
        Some(TrainerError::SizeMismatch)
    );
    assert_eq!(trainer.significant_pieces(&vec![], &vec![]).unwrap().len(), 0);
}

#[test]
fn the_loop_stops_a_tenth_above_the_vocabulary_size() {
    let mut trainer = UnigramTrainer::new(false);
    assert_eq!(trainer.desired_vocab_size(), Ok(8800));
    trainer.vocab_size = 15;
    assert_eq!(trainer.desired_vocab_size(), Ok(16));
    trainer.vocab_size = 0;
    assert_eq!(trainer.desired_vocab_size(), Ok(0));
    trainer.vocab_size = 9;
    assert_eq!(trainer.desired_vocab_size(), Ok(9));
    trainer.vocab_size = u32::MAX;
    if usize::BITS >= 64 {
        assert_eq!(trainer.desired_vocab_size(), Ok(4724464024));
    } else {
        assert_eq!(trainer.desired_vocab_size(), Err(TrainerError::ConfigurationError));
    }
}

#[test]
fn the_loop_runs_its_rounds_then_prunes_or_ends() {
    let trainer = UnigramTrainer::new(false);
    assert_eq!(trainer.next_action(0, 100, 50), (TrainingAction::RunEm, 1));
    assert_eq!(trainer.next_action(1, 100, 50), (TrainingAction::RunEm, 2));
    assert_eq!(trainer.next_action(2, 100, 50), (TrainingAction::Prune, 0));
    assert_eq!(trainer.next_action(2, 51, 50), (TrainingAction::Prune, 0));
    assert_eq!(trainer.next_action(2, 50, 50), (TrainingAction::Finalize, 2));
    assert_eq!(trainer.next_action(2, 0, 0), (TrainingAction::Finalize, 2));
    assert_eq!(trainer.next_action(0, 0, 50), (TrainingAction::RunEm, 1));
    let mut idle = UnigramTrainer::new(false);
    idle.n_sub_iterations = 0;
    assert_eq!(idle.next_action(0, 100, 50), (TrainingAction::Prune, 0));
    assert_eq!(idle.next_action(0, 10, 50), (TrainingAction::Finalize, 0));
}

#[test]
fn the_loop_ends_after_a_pruning() {
    let trainer = UnigramTrainer::new(false);
    let desired = 3;
    let mut pieces = vec![piece("a", -3.0), piece("b", -1.0), piece("c", -2.0), piece("d", -1.0), piece("e", -9.0)];
    let mut rounds = 0;
    let mut log = Vec::new();
    loop {
        let (action, next) = trainer.next_action(rounds, pieces.len(), desired);
        rounds = next;
        log.push(action);
        match action {
            TrainingAction::RunEm => {}
            TrainingAction::Prune => pieces = trainer.prune_sentence_pieces(&pieces, desired),
            TrainingAction::Finalize => break,
        }
        assert!(log.len() < 20);
    }
    assert_eq!(
        log,
        vec![
            TrainingAction::RunEm,
            TrainingAction::RunEm,
            TrainingAction::Prune,
            TrainingAction::RunEm,
            TrainingAction::RunEm,
            TrainingAction::Finalize,
        ]
    );
    assert_eq!(names(&pieces), vec!["b", "c", "d"]);
}

#[test]
fn pruning_keeps_the_best_pieces_in_their_order() {
    let trainer = UnigramTrainer::new(false);
    let pieces = vec![piece("a", -3.0), piece("b", -1.0), piece("c", -2.0), piece("d", -1.0)];
    assert_eq!(names(&trainer.prune_sentence_pieces(&pieces, 10)), vec!["a", "b", "c", "d"]);
    assert_eq!(names(&trainer.prune_sentence_pieces(&pieces, 4)), vec!["a", "b", "c", "d"]);
    assert_eq!(names(&trainer.prune_sentence_pieces(&pieces, 3)), vec!["b", "c", "d"]);
    assert_eq!(names(&trainer.prune_sentence_pieces(&pieces, 2)), vec!["b", "d"]);
    assert_eq!(names(&trainer.prune_sentence_pieces(&pieces, 1)), vec!["b"]);
    assert_eq!(names(&trainer.prune_sentence_pieces(&pieces, 0)), Vec::<&str>::new());
    assert_eq!(names(&trainer.prune_sentence_pieces(&vec![], 3)), Vec::<&str>::new());
    let kept = trainer.prune_sentence_pieces(&pieces, 2);
    assert_eq!(kept[0].score, score(-1.0));
    assert_eq!(kept[1].score, score(-1.0));
}
