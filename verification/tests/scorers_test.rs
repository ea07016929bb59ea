use rs_wordle_solver::{
    best_combo_elimination_total, expected_elimination_total, play_game_with_guesser, GameResult,
    GuessFrom, GuessResult, LetterResult, LocatedLettersScorer, MaxScoreGuesser,
    MaxUniqueLetterFrequencyScorer, WordBank, WordRestrictions, WordScorer, WordleError,
};

fn strings(words: &[&str]) -> Vec<String> {
    words.iter().map(|word| String::from(*word)).collect()
}

fn six_words() -> Result<WordBank, WordleError> {
    WordBank::from_iterator(&["alpha", "allot", "begot", "below", "endow", "ingot"])
}

fn solves<T: WordScorer + Clone + Sync>(scorer: T, bank: &WordBank, objective: &str) -> bool {
    let guesser = MaxScoreGuesser::with_parallelisation_limit(
        GuessFrom::AllUnguessedWords,
        bank.clone(),
        scorer,
        4,
    );
    matches!(
        play_game_with_guesser(objective, bank.len() as u32, guesser),
        GameResult::Success(_)
    )
}

#[test]
fn max_unique_letters_scorer_solve_wordle() -> Result<(), WordleError> {
    let bank = six_words()?;
    assert!(solves(
        MaxUniqueLetterFrequencyScorer::new(bank.words()),
        &bank,
        "alpha"
    ));
    Ok(())
}

#[test]
fn located_letters_scorer_solve_wordle() -> Result<(), WordleError> {
    let bank = six_words()?;
    assert!(solves(LocatedLettersScorer::new(&bank), &bank, "alpha"));
    Ok(())
}

#[test]
fn located_letters_scorer_try_solve_unknown_word() -> Result<(), WordleError> {
    let bank = six_words()?;
    let guesser = MaxScoreGuesser::with_parallelisation_limit(
        GuessFrom::AllUnguessedWords,
        bank.clone(),
        LocatedLettersScorer::new(&bank),
        4,
    );
    let result = play_game_with_guesser("other", bank.len() as u32, guesser);
    assert!(matches!(result, GameResult::UnknownWord));
    Ok(())
}

#[test]
fn scorers_test_score_word() -> Result<(), WordleError> {
    let bank = six_words()?;
    let scorer = LocatedLettersScorer::new(&bank);

    assert_eq!(scorer.score_word(&String::from("alpha")), 4 + 5 + 2 + 2 + 1);
    assert_eq!(scorer.score_word(&String::from("allot")), 4 + 5 + 2 + 10 + 6);
    assert_eq!(scorer.score_word(&String::from("begot")), 4 + 5 + 4 + 10 + 6);
    assert_eq!(scorer.score_word(&String::from("below")), 4 + 5 + 5 + 10 + 4);
    assert_eq!(scorer.score_word(&String::from("endow")), 4 + 4 + 2 + 10 + 4);
    assert_eq!(scorer.score_word(&String::from("ingot")), 2 + 4 + 4 + 10 + 6);
    assert_eq!(scorer.score_word(&String::from("other")), 5 + 3 + 1 + 3 + 0);
    Ok(())
}

#[test]
fn scorers_test_score_word_after_update() -> Result<(), WordleError> {
    let bank = six_words()?;
    let mut scorer = LocatedLettersScorer::new(&bank);

    let restrictions = WordRestrictions::from_result(&GuessResult {
        guess: "begot",
        results: vec![
            LetterResult::NotPresent,
            LetterResult::PresentNotHere,
            LetterResult::NotPresent,
            LetterResult::Correct,
            LetterResult::NotPresent,
        ],
    });
    scorer.update("begot", &restrictions, &strings(&["endow"]))?;
    // Remaining possible words: 'endow'

    assert_eq!(scorer.score_word(&String::from("alpha")), 0 + 0 + 0 + 0 + 0);
    assert_eq!(scorer.score_word(&String::from("below")), 0 + 0 + 0 + 1 + 2);
    assert_eq!(scorer.score_word(&String::from("endow")), 1 + 2 + 2 + 1 + 2);
    assert_eq!(scorer.score_word(&String::from("other")), 0 + 0 + 0 + 0 + 0);
    Ok(())
}

#[test]
fn scorers_test_update_with_uknown_word() -> Result<(), WordleError> {
    let bank = six_words()?;
    let mut scorer = LocatedLettersScorer::new(&bank);

    let restrictions = WordRestrictions::from_result(&GuessResult {
        guess: "other",
        results: vec![
            LetterResult::PresentNotHere,
            LetterResult::NotPresent,
            LetterResult::NotPresent,
            LetterResult::PresentNotHere,
            LetterResult::NotPresent,
        ],
    });
    scorer.update("other", &restrictions, &strings(&["below", "endow"]))?;
    // Remaining possible words: 'below', 'endow'

    assert_eq!(scorer.score_word(&String::from("alpha")), 0 + 1 + 0 + 0 + 0);
    assert_eq!(scorer.score_word(&String::from("below")), 2 + 1 + 2 + 2 + 4);
    assert_eq!(scorer.score_word(&String::from("endow")), 1 + 2 + 2 + 2 + 4);
    assert_eq!(scorer.score_word(&String::from("other")), 0 + 0 + 0 + 0 + 0);
    Ok(())
}

#[test]
fn max_unique_letters_scorer_scores_unguessed_letters_once() -> Result<(), WordleError> {
    let words = strings(&["aba", "bbd", "efg"]);
    let mut scorer = MaxUniqueLetterFrequencyScorer::new(&words);

    // a: 1 word, b: 2 words; the second 'a' and 'b' add nothing.
    assert_eq!(scorer.score_word(&String::from("abab")), 1 + 2);
    assert_eq!(scorer.score_word(&String::from("zzz")), 0);

    let restrictions = WordRestrictions::new(3);
    scorer.update("bxx", &restrictions, &words)?;
    // 'b' and 'x' were guessed.
    assert_eq!(scorer.score_word(&String::from("abab")), 1);
    assert_eq!(scorer.score_word(&String::from("efd")), 1 + 1 + 1);
    Ok(())
}

#[test]
fn expected_elimination_total_counts_groups() {
    let possible = strings(&["cod", "wod", "mod"]);
    // "cod" tells "cod" apart (1 * 2 eliminated) from "wod" and "mod" (2 * 1).
    assert_eq!(expected_elimination_total("cod", &possible), 4);
    // "mwc" tells all three apart: 3 * 2.
    assert_eq!(expected_elimination_total("mwc", &possible), 6);
    // "zzz" tells none apart.
    assert_eq!(expected_elimination_total("zzz", &possible), 0);
    assert_eq!(expected_elimination_total("abc", &[]), 0);
}

#[test]
fn expected_elimination_total_after_update() {
    let possible = strings(&["abb", "abc", "bad"]);
    assert_eq!(expected_elimination_total("abb", &possible), 6);
    assert_eq!(expected_elimination_total("abc", &possible), 6);
    assert_eq!(expected_elimination_total("bad", &possible), 4);
    assert_eq!(expected_elimination_total("zzz", &possible), 0);
}

#[test]
fn best_combo_elimination_total_takes_the_best_second_guess() {
    let possible = strings(&["cod", "wod", "mod"]);
    let all = strings(&["cod", "wod", "mod", "zzz"]);
    // "cod" then "wod" tells all three apart.
    assert_eq!(best_combo_elimination_total("cod", &all, &possible), 6);
    // "zzz" then "cod" is as good as "cod" alone.
    assert_eq!(best_combo_elimination_total("zzz", &all, &possible), 4);
    assert_eq!(best_combo_elimination_total("zzz", &[], &possible), 0);
}
