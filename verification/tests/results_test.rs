use rs_wordle_solver::{get_result_for_guess, GuessResult, LetterResult, WordleError};

#[test]
fn get_result_for_guess_correct() {
    let result = get_result_for_guess("abcb", "abcb");

    assert!(matches!(
        get_result_for_guess("abcb", "abcb"),
        Ok(GuessResult {
            guess: "abcb",
            results: _,
        })
    ));
    assert_eq!(result.unwrap().results, vec![LetterResult::Correct; 4]);
}

#[test]
fn get_result_for_guess_partial() {
    let result = get_result_for_guess("mesas", "sassy");
    assert!(matches!(
        result,
        Ok(GuessResult {
            guess: "sassy",
            results: _
        })
    ));
    assert_eq!(
        result.unwrap().results,
        vec![
            LetterResult::PresentNotHere,
            LetterResult::PresentNotHere,
            LetterResult::Correct,
            LetterResult::NotPresent,
            LetterResult::NotPresent
        ]
    );

    let result = get_result_for_guess("abba", "babb");
    assert!(matches!(
        result,
        Ok(GuessResult {
            guess: "babb",
            results: _,
        })
    ));
    assert_eq!(
        result.unwrap().results,
        vec![
            LetterResult::PresentNotHere,
            LetterResult::PresentNotHere,
            LetterResult::Correct,
            LetterResult::NotPresent
        ]
    );

    let result = get_result_for_guess("abcb", "bcce");
    assert!(matches!(
        result,
        Ok(GuessResult {
            guess: "bcce",
            results: _,
        })
    ));
    assert_eq!(
        result.unwrap().results,
        vec![
            LetterResult::PresentNotHere,
            LetterResult::NotPresent,
            LetterResult::Correct,
            LetterResult::NotPresent
        ]
    );
}

#[test]
fn get_result_for_guess_none_match() {
    let result = get_result_for_guess("abcb", "defg");
    assert!(matches!(
        result,
        Ok(GuessResult {
            guess: "defg",
            results: _,
        })
    ));
    assert_eq!(result.unwrap().results, vec![LetterResult::NotPresent; 4]);
}

#[test]
fn get_result_for_guess_invalid_guess() {
    assert!(matches!(
        get_result_for_guess("goal", "guess"),
        Err(WordleError::WordLength(4))
    ));
}

#[test]
fn get_result_all_correct_exactly_for_the_objective() {
    let same = get_result_for_guess("crane", "crane").unwrap();
    assert!(same.results.iter().all(|r| *r == LetterResult::Correct));
    let other = get_result_for_guess("crane", "crate").unwrap();
    assert!(!other.results.iter().all(|r| *r == LetterResult::Correct));
}

#[test]
fn get_result_for_guess_duplicate_letters() {
    // One 'e' in the objective: only the first misplaced 'e' is marked present.
    let result = get_result_for_guess("abcde", "eeexx").unwrap();
    assert_eq!(
        result.results,
        vec![
            LetterResult::PresentNotHere,
            LetterResult::NotPresent,
            LetterResult::NotPresent,
            LetterResult::NotPresent,
            LetterResult::NotPresent
        ]
    );
    // A correct 'e' uses up the objective's only 'e'.
    let result = get_result_for_guess("abcde", "eeeee").unwrap();
    assert_eq!(
        result.results,
        vec![
            LetterResult::NotPresent,
            LetterResult::NotPresent,
            LetterResult::NotPresent,
            LetterResult::NotPresent,
            LetterResult::Correct
        ]
    );
}

#[test]
fn get_result_for_guess_empty_words() {
    let result = get_result_for_guess("", "").unwrap();
    assert!(result.results.is_empty());
}

#[test]
fn get_result_for_guess_compares_lengths_in_bytes() {
    assert!(matches!(
        rs_wordle_solver::get_result_for_guess("abc", "é"),
        Err(rs_wordle_solver::WordleError::WordLength(3))
    ));
}

#[test]
fn get_result_for_guess_matches_letters_by_byte_offset() {
    let result = rs_wordle_solver::get_result_for_guess("éa", "aé").unwrap();
    assert_eq!(
        result.results,
        vec![
            LetterResult::PresentNotHere,
            LetterResult::PresentNotHere,
            LetterResult::NotPresent
        ]
    );
    let result = rs_wordle_solver::get_result_for_guess("é", "ab").unwrap();
    assert_eq!(
        result.results,
        vec![LetterResult::NotPresent, LetterResult::NotPresent]
    );
    let result = rs_wordle_solver::get_result_for_guess("éa", "éa").unwrap();
    assert_eq!(
        result.results,
        vec![
            LetterResult::Correct,
            LetterResult::NotPresent,
            LetterResult::Correct
        ]
    );
}
