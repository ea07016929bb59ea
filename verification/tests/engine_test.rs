use rs_wordle_solver::{
    play_game_with_guesser, GameResult, GuessFrom, GuessResult, Guesser, LetterResult,
    LocatedLettersScorer, MaxScoreGuesser, MaxUniqueLetterFrequencyScorer, RandomGuesser,
    WordBank, WordRestrictions, WordScorer, WordleError,
};

fn create_word_bank(words: Vec<&str>) -> Result<WordBank, WordleError> {
    WordBank::from_iterator(&words)
}

fn max_score_guesser<T: WordScorer + Clone + Sync>(
    mode: GuessFrom,
    bank: &WordBank,
    scorer: T,
) -> MaxScoreGuesser<T> {
    MaxScoreGuesser::with_parallelisation_limit(mode, bank.clone(), scorer, 4)
}

#[test]
fn random_guesser_select_next_guess_no_words() -> Result<(), WordleError> {
    let bank = create_word_bank(vec![])?;
    let mut guesser = RandomGuesser::new(bank.clone());

    assert_eq!(guesser.select_next_guess(), None);
    Ok(())
}

#[test]
fn random_guesser_select_next_guess_chooses_best_word() -> Result<(), WordleError> {
    let bank = create_word_bank(vec!["abc", "def", "ghi"])?;
    let mut guesser = RandomGuesser::new(bank.clone());

    let guess = guesser.select_next_guess();
    assert!(guess.is_some());
    assert!(bank.words().contains(&guess.unwrap()));
    Ok(())
}

#[test]
fn random_guesser_update_guess_result_modifies_next_guess() -> Result<(), WordleError> {
    let bank = create_word_bank(vec!["abc", "bcd", "cde"])?;
    let mut guesser = RandomGuesser::new(bank.clone());

    guesser.update(&GuessResult {
        guess: "bcd",
        results: vec![
            LetterResult::PresentNotHere,
            LetterResult::PresentNotHere,
            LetterResult::NotPresent,
        ],
    })?;

    assert_eq!(guesser.select_next_guess(), Some(String::from("abc")));
    Ok(())
}

#[test]
fn random_guesser_invalid_update_fails() -> Result<(), WordleError> {
    let bank = create_word_bank(vec!["abc", "bcd", "cde"])?;
    let mut guesser = RandomGuesser::new(bank.clone());

    guesser.update(&GuessResult {
        guess: "abc",
        results: vec![
            LetterResult::NotPresent,
            LetterResult::NotPresent,
            LetterResult::PresentNotHere,
        ],
    })?;
    guesser.update(&GuessResult {
        guess: "bcd",
        results: vec![
            LetterResult::NotPresent,
            LetterResult::PresentNotHere,
            LetterResult::NotPresent,
        ],
    })?;

    // This makes the 'c' required but impossible.
    assert!(matches!(
        guesser.update(&GuessResult {
            guess: "cde",
            results: vec![
                LetterResult::PresentNotHere,
                LetterResult::NotPresent,
                LetterResult::NotPresent,
            ],
        }),
        Err(WordleError::InvalidResults)
    ));
    Ok(())
}

#[test]
fn max_score_guesser_select_next_guess_no_words() -> Result<(), WordleError> {
    let bank = create_word_bank(vec![])?;
    let scorer = MaxUniqueLetterFrequencyScorer::new(bank.words());
    let mut guesser = max_score_guesser(GuessFrom::PossibleWords, &bank, scorer);

    assert_eq!(guesser.select_next_guess(), None);
    Ok(())
}

#[test]
fn max_score_guesser_select_next_guess_chooses_best_word() -> Result<(), WordleError> {
    let bank = create_word_bank(vec!["abcz", "wxyz", "defy", "ghix"])?;
    let scorer = MaxUniqueLetterFrequencyScorer::new(bank.words());
    let mut guesser = max_score_guesser(GuessFrom::PossibleWords, &bank, scorer);

    assert_eq!(guesser.select_next_guess(), Some(String::from("wxyz")));
    Ok(())
}

#[test]
fn max_score_guesser_update_guess_result_modifies_next_guess() -> Result<(), WordleError> {
    let bank = create_word_bank(vec!["abcz", "weyz", "defy", "ghix"])?;
    let scorer = MaxUniqueLetterFrequencyScorer::new(bank.words());
    let mut guesser = max_score_guesser(GuessFrom::PossibleWords, &bank, scorer);

    guesser.update(&GuessResult {
        guess: "weyz",
        results: vec![
            LetterResult::NotPresent,
            LetterResult::Correct,
            LetterResult::PresentNotHere,
            LetterResult::NotPresent,
        ],
    })?;

    assert_eq!(guesser.select_next_guess(), Some(String::from("defy")));
    Ok(())
}

#[test]
fn play_game_with_unknown_word_random() -> Result<(), WordleError> {
    let bank = create_word_bank(vec!["abcz", "weyz", "defy", "ghix"])?;
    let guesser = RandomGuesser::new(bank.clone());

    assert_eq!(
        play_game_with_guesser("nope", 10, guesser),
        GameResult::UnknownWord
    );
    Ok(())
}

#[test]
fn play_game_with_known_word_random() -> Result<(), WordleError> {
    let bank = create_word_bank(vec!["abcz", "weyz", "defy", "ghix"])?;
    let guesser = RandomGuesser::new(bank.clone());

    if let GameResult::Success(data) = play_game_with_guesser("abcz", 10, guesser) {
        assert!(data.turns.len() < 10);
        assert_eq!(
            data.turns.iter().map(|turn| &turn.guess).last(),
            Some(&String::from("abcz"))
        );
    } else {
        assert!(false);
    }
    Ok(())
}

#[test]
fn play_game_with_unknown_word_max_eliminations() -> Result<(), WordleError> {
    let bank = create_word_bank(vec!["abcz", "weyz", "defy", "ghix"])?;
    let scorer = LocatedLettersScorer::new(&bank);
    let guesser = max_score_guesser(GuessFrom::PossibleWords, &bank, scorer);

    assert_eq!(
        play_game_with_guesser("nope", 10, guesser),
        GameResult::UnknownWord
    );
    Ok(())
}

#[test]
fn play_game_with_known_word_max_eliminations() -> Result<(), WordleError> {
    let bank = create_word_bank(vec!["abcz", "weyz", "defy", "ghix"])?;
    let scorer = LocatedLettersScorer::new(&bank);
    let guesser = max_score_guesser(GuessFrom::PossibleWords, &bank, scorer);

    if let GameResult::Success(data) = play_game_with_guesser("abcz", 10, guesser) {
        assert!(data.turns.len() < 10);
        assert_eq!(
            data.turns.iter().map(|turn| &turn.guess).last(),
            Some(&String::from("abcz"))
        );
    } else {
        assert!(false);
    }
    Ok(())
}

#[test]
fn play_game_takes_too_many_guesses() -> Result<(), WordleError> {
    let bank = create_word_bank(vec!["abcz", "weyz", "defy", "ghix"])?;
    let scorer = MaxUniqueLetterFrequencyScorer::new(bank.words());
    let guesser = max_score_guesser(GuessFrom::PossibleWords, &bank, scorer);

    if let GameResult::Failure(data) = play_game_with_guesser("abcz", 1, guesser) {
        assert_eq!(data.turns.len(), 1);
        assert!(!data
            .turns
            .iter()
            .map(|turn| &turn.guess)
            .any(|guess| guess == "abcz"));
    } else {
        assert!(false);
    }
    Ok(())
}

#[test]
fn engine_test_score_word() -> Result<(), WordleError> {
    let bank = create_word_bank(vec!["alpha", "allot", "begot", "below", "endow", "ingot"])?;
    let scorer = LocatedLettersScorer::new(&bank);

    assert_eq!(scorer.score_word(&String::from("alpha")), 4 + 5 + 2 + 2 + 1);
    assert_eq!(scorer.score_word(&String::from("allot")), 4 + 5 + 2 + 10 + 6);
    assert_eq!(scorer.score_word(&String::from("begot")), 4 + 5 + 4 + 10 + 6);
    assert_eq!(scorer.score_word(&String::from("below")), 4 + 5 + 5 + 10 + 4);
    assert_eq!(scorer.score_word(&String::from("endow")), 4 + 4 + 2 + 10 + 4);
    assert_eq!(scorer.score_word(&String::from("ingot")), 2 + 4 + 4 + 10 + 6);
    assert_eq!(scorer.score_word(&String::from("other")), 5 + 3 + 1 + 3 + 0);
    Ok(())
}

#[test]
fn engine_test_score_word_after_update() -> Result<(), WordleError> {
    let bank = create_word_bank(vec!["alpha", "allot", "begot", "below", "endow", "ingot"])?;
    let mut scorer = LocatedLettersScorer::new(&bank);

    let restrictions = WordRestrictions::from_result(&GuessResult {
        guess: "begot",
        results: vec![
            LetterResult::NotPresent,
            LetterResult::PresentNotHere,
            LetterResult::NotPresent,
            LetterResult::Correct,
            LetterResult::NotPresent,
        ],
    });
    scorer.update("begot", &restrictions, &vec![String::from("endow")])?;
    // Remaining possible words: 'endow'

    assert_eq!(scorer.score_word(&String::from("alpha")), 0 + 0 + 0 + 0 + 0);
    assert_eq!(scorer.score_word(&String::from("below")), 0 + 0 + 0 + 1 + 2);
    assert_eq!(scorer.score_word(&String::from("endow")), 1 + 2 + 2 + 1 + 2);
    assert_eq!(scorer.score_word(&String::from("other")), 0 + 0 + 0 + 0 + 0);
    Ok(())
}

#[test]
fn engine_test_update_with_uknown_word() -> Result<(), WordleError> {
    let bank = create_word_bank(vec!["alpha", "allot", "begot", "below", "endow", "ingot"])?;
    let mut scorer = LocatedLettersScorer::new(&bank);

    let restrictions = WordRestrictions::from_result(&GuessResult {
        guess: "other",
        results: vec![
            LetterResult::PresentNotHere,
            LetterResult::NotPresent,
            LetterResult::NotPresent,
            LetterResult::PresentNotHere,
            LetterResult::NotPresent,
        ],
    });
    scorer.update(
        "other",
        &restrictions,
        &vec![String::from("below"), String::from("endow")],
    )?;
    // Remaining possible words: 'below', 'endow'

    assert_eq!(scorer.score_word(&String::from("alpha")), 0 + 1 + 0 + 0 + 0);
    assert_eq!(scorer.score_word(&String::from("below")), 2 + 1 + 2 + 2 + 4);
    assert_eq!(scorer.score_word(&String::from("endow")), 1 + 2 + 2 + 2 + 4);
    assert_eq!(scorer.score_word(&String::from("other")), 0 + 0 + 0 + 0 + 0);
    Ok(())
}

#[test]
fn max_score_guesser_top_guesses_are_ranked() -> Result<(), WordleError> {
    let bank = create_word_bank(vec!["abcz", "wxyz", "defy", "ghix"])?;
    let scorer = MaxUniqueLetterFrequencyScorer::new(bank.words());
    let mut guesser = max_score_guesser(GuessFrom::PossibleWords, &bank, scorer);

    let top = guesser.select_top_n_guesses(10);
    assert_eq!(top.len(), 4);
    for pair in top.windows(2) {
        assert!(pair[0].score >= pair[1].score);
    }
    assert_eq!(top[0].guess, "wxyz");
    let top_one = guesser.select_top_n_guesses(1);
    assert_eq!(top_one.len(), 1);
    assert_eq!(top_one[0], top[0]);
    Ok(())
}

#[test]
fn max_score_guesser_parallel_and_sequential_agree() -> Result<(), WordleError> {
    let bank = create_word_bank(vec!["alpha", "allot", "begot", "below", "endow", "ingot"])?;
    let sequential = MaxScoreGuesser::with_parallelisation_limit(
        GuessFrom::AllUnguessedWords,
        bank.clone(),
        LocatedLettersScorer::new(&bank),
        1000,
    );
    let parallel = MaxScoreGuesser::with_parallelisation_limit(
        GuessFrom::AllUnguessedWords,
        bank.clone(),
        LocatedLettersScorer::new(&bank),
        1,
    );
    let mut sequential_copy = sequential.clone();
    let mut parallel_copy = parallel.clone();
    assert_eq!(
        sequential_copy.select_top_n_guesses(6),
        parallel_copy.select_top_n_guesses(6)
    );
    let mut sequential = sequential;
    let mut parallel = parallel;
    assert_eq!(sequential.select_next_guess(), parallel.select_next_guess());
    Ok(())
}

#[test]
fn max_score_guesser_solves_with_each_integer_scorer() -> Result<(), WordleError> {
    let bank = create_word_bank(vec!["alpha", "allot", "begot", "below", "endow", "ingot"])?;
    for objective in ["alpha", "allot", "begot", "below", "endow", "ingot"] {
        let guesser = max_score_guesser(
            GuessFrom::AllUnguessedWords,
            &bank,
            MaxUniqueLetterFrequencyScorer::new(bank.words()),
        );
        let result = play_game_with_guesser(objective, bank.len() as u32, guesser);
        assert!(matches!(result, GameResult::Success(_)));
        let guesser = max_score_guesser(
            GuessFrom::AllUnguessedWords,
            &bank,
            LocatedLettersScorer::new(&bank),
        );
        let result = play_game_with_guesser(objective, bank.len() as u32, guesser);
        assert!(matches!(result, GameResult::Success(_)));
    }
    Ok(())
}

#[test]
fn play_game_with_word_of_other_length_is_unknown() -> Result<(), WordleError> {
    let bank = create_word_bank(vec!["abc", "def", "ghi"])?;
    let guesser = max_score_guesser(
        GuessFrom::AllUnguessedWords,
        &bank,
        LocatedLettersScorer::new(&bank),
    );
    assert_eq!(
        play_game_with_guesser("other", 4, guesser),
        GameResult::UnknownWord
    );
    let guesser = RandomGuesser::new(bank.clone());
    assert_eq!(play_game_with_guesser("zzz", 4, guesser), GameResult::UnknownWord);
    Ok(())
}

#[test]
fn max_score_guesser_breaks_ties_in_favour_of_possible_words() -> Result<(), WordleError> {
    let bank = create_word_bank(vec!["abcd", "abce", "acbd", "bacd", "bxyz"])?;
    let scorer = MaxUniqueLetterFrequencyScorer::new(bank.words());
    let mut guesser = max_score_guesser(GuessFrom::AllUnguessedWords, &bank, scorer);

    // Against the objective "abcd": "bacd" can no longer be the answer, but it scores as well as
    // the best possible words.
    guesser.update(&GuessResult {
        guess: "bxyz",
        results: vec![
            LetterResult::PresentNotHere,
            LetterResult::NotPresent,
            LetterResult::NotPresent,
            LetterResult::NotPresent,
        ],
    })?;
    let top = guesser.select_top_n_guesses(4);
    let best_score = top[0].score;
    assert_eq!(best_score, 8);
    assert!(top.iter().any(|g| g.guess == "bacd" && g.score == best_score));

    let guess = guesser.select_next_guess().unwrap();
    assert!(guess == "abcd" || guess == "acbd");
    Ok(())
}

#[test]
fn random_guesser_solves_three_words_in_three_guesses() -> Result<(), WordleError> {
    let bank = create_word_bank(vec!["abc", "bcd", "def"])?;
    for _ in 0..20 {
        let guesser = RandomGuesser::new(bank.clone());
        let result = play_game_with_guesser("bcd", 3, guesser);
        assert!(matches!(result, GameResult::Success(_)));
    }
    Ok(())
}

#[test]
fn random_guesser_drops_a_wrong_guess() -> Result<(), WordleError> {
    let bank = create_word_bank(vec!["abc", "bcd", "bce", "def"])?;
    let mut guesser = RandomGuesser::new(bank.clone());
    let result = rs_wordle_solver::get_result_for_guess("bcd", "bce")?;
    guesser.update(&result)?;
    let possible = guesser.possible_words().to_vec();
    assert!(possible.len() < 4);
    assert!(!possible.contains(&String::from("bce")));
    assert!(possible.contains(&String::from("bcd")));
    Ok(())
}

#[derive(Clone)]
struct LowestScorer;

impl WordScorer for LowestScorer {
    fn update(
        &mut self,
        _latest_guess: &str,
        _restrictions: &WordRestrictions,
        _possible_words: &[String],
    ) -> Result<(), WordleError> {
        Ok(())
    }

    fn score_word(&self, _word: &String) -> i64 {
        i64::MIN
    }
}

#[test]
fn max_score_guesser_picks_the_first_word_when_all_scores_are_lowest() -> Result<(), WordleError> {
    let bank = create_word_bank(vec!["abc", "abd", "abe"])?;
    let mut sequential = MaxScoreGuesser::with_parallelisation_limit(
        GuessFrom::PossibleWords,
        bank.clone(),
        LowestScorer,
        100,
    );
    assert_eq!(sequential.select_next_guess(), Some(String::from("abc")));
    let mut parallel = MaxScoreGuesser::with_parallelisation_limit(
        GuessFrom::PossibleWords,
        bank.clone(),
        LowestScorer,
        1,
    );
    assert_eq!(parallel.select_next_guess(), Some(String::from("abc")));
    Ok(())
}

#[test]
fn pick_takes_the_word_at_the_drawn_number_modulo_the_count() {
    let words = vec![String::from("abc"), String::from("def"), String::from("ghi")];
    assert_eq!(rs_wordle_solver::engine::pick(&words, 5), "ghi");
    assert_eq!(rs_wordle_solver::engine::pick(&words, 3), "abc");
}

#[test]
fn interactive_turn_wins_loses_and_continues() -> Result<(), WordleError> {
    let bank = create_word_bank(vec!["abc", "bcd", "cde"])?;
    let mut guesser = RandomGuesser::new(bank.clone());
    let won = rs_wordle_solver::get_result_for_guess("abc", "abc")?;
    assert_eq!(
        rs_wordle_solver::interactive_turn(&mut guesser, 2, 6, &won)?,
        rs_wordle_solver::TurnOutcome::Won(3)
    );
    let wrong = rs_wordle_solver::get_result_for_guess("abc", "cde")?;
    assert_eq!(
        rs_wordle_solver::interactive_turn(&mut guesser, 0, 6, &wrong)?,
        rs_wordle_solver::TurnOutcome::Continue
    );
    assert!(!guesser.possible_words().contains(&String::from("cde")));
    let wrong = rs_wordle_solver::get_result_for_guess("abc", "bcd")?;
    assert_eq!(
        rs_wordle_solver::interactive_turn(&mut guesser, 5, 6, &wrong)?,
        rs_wordle_solver::TurnOutcome::Lost
    );
    Ok(())
}

#[test]
fn max_score_guesser_plays_an_unknown_word_of_the_bank_length() -> Result<(), WordleError> {
    let bank = create_word_bank(vec!["abc", "def", "ghi"])?;
    let scorer = MaxUniqueLetterFrequencyScorer::new(bank.words());
    let guesser = max_score_guesser(GuessFrom::PossibleWords, &bank, scorer);
    assert_eq!(play_game_with_guesser("zzz", 10, guesser), GameResult::UnknownWord);
    Ok(())
}
