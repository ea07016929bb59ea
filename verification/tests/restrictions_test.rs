use rs_wordle_solver::{
    GuessResult, LetterRestriction, LetterResult, LocatedLetter, LocatedLetterState,
    PresentLetter, WordRestrictions, WordleError,
};

#[test]
fn present_letter_constructor() -> Result<(), WordleError> {
    let letter = PresentLetter::new(3);

    assert_eq!(letter.state(0), LocatedLetterState::Unknown);
    assert_eq!(letter.state(1), LocatedLetterState::Unknown);
    assert_eq!(letter.state(2), LocatedLetterState::Unknown);
    Ok(())
}

#[test]
fn present_letter_set_here() -> Result<(), WordleError> {
    let mut letter = PresentLetter::new(3);

    letter.set_must_be_at(1)?;

    assert_eq!(letter.state(0), LocatedLetterState::Unknown);
    assert_eq!(letter.state(1), LocatedLetterState::Here);
    assert_eq!(letter.state(2), LocatedLetterState::Unknown);
    Ok(())
}

#[test]
fn present_letter_set_here_can_be_repeated() -> Result<(), WordleError> {
    let mut letter = PresentLetter::new(3);

    letter.set_must_be_at(1)?;
    letter.set_must_be_at(1)?;
    letter.set_must_be_at(1)?;
    letter.set_must_be_at(1)?;

    assert_eq!(letter.state(0), LocatedLetterState::Unknown);
    assert_eq!(letter.state(1), LocatedLetterState::Here);
    assert_eq!(letter.state(2), LocatedLetterState::Unknown);
    Ok(())
}

#[test]
fn present_letter_set_not_here() -> Result<(), WordleError> {
    let mut letter = PresentLetter::new(3);

    letter.set_must_not_be_at(1)?;

    assert_eq!(letter.state(0), LocatedLetterState::Unknown);
    assert_eq!(letter.state(1), LocatedLetterState::NotHere);
    assert_eq!(letter.state(2), LocatedLetterState::Unknown);
    Ok(())
}

#[test]
fn present_letter_set_not_here_can_be_repeated() -> Result<(), WordleError> {
    let mut letter = PresentLetter::new(3);

    letter.set_must_not_be_at(1)?;
    letter.set_must_not_be_at(1)?;
    letter.set_must_not_be_at(1)?;
    letter.set_must_not_be_at(1)?;

    assert_eq!(letter.state(0), LocatedLetterState::Unknown);
    assert_eq!(letter.state(1), LocatedLetterState::NotHere);
    assert_eq!(letter.state(2), LocatedLetterState::Unknown);
    Ok(())
}

#[test]
fn present_letter_infer_must_be_here() -> Result<(), WordleError> {
    let mut letter = PresentLetter::new(3);

    letter.set_must_not_be_at(1)?;
    letter.set_must_not_be_at(2)?;

    assert_eq!(letter.state(0), LocatedLetterState::Here);
    assert_eq!(letter.state(1), LocatedLetterState::NotHere);
    assert_eq!(letter.state(2), LocatedLetterState::NotHere);
    Ok(())
}

#[test]
fn present_letter_must_be_here_whole_word() -> Result<(), WordleError> {
    let mut letter = PresentLetter::new(3);

    letter.set_must_be_at(0)?;
    letter.set_must_be_at(1)?;
    letter.set_must_be_at(2)?;

    assert_eq!(letter.state(0), LocatedLetterState::Here);
    assert_eq!(letter.state(1), LocatedLetterState::Here);
    assert_eq!(letter.state(2), LocatedLetterState::Here);
    Ok(())
}

#[test]
fn present_letter_max_count_then_here_fills_remainder_not_here() -> Result<(), WordleError> {
    let mut letter = PresentLetter::new(3);

    letter.set_required_count(2)?;
    letter.set_must_be_at(1)?;

    assert_eq!(letter.state(0), LocatedLetterState::Unknown);
    assert_eq!(letter.state(1), LocatedLetterState::Here);
    assert_eq!(letter.state(2), LocatedLetterState::Unknown);

    // Same location, no change.
    letter.set_must_be_at(1)?;

    assert_eq!(letter.state(0), LocatedLetterState::Unknown);
    assert_eq!(letter.state(1), LocatedLetterState::Here);
    assert_eq!(letter.state(2), LocatedLetterState::Unknown);

    letter.set_must_be_at(0)?;
    assert_eq!(letter.state(0), LocatedLetterState::Here);
    assert_eq!(letter.state(1), LocatedLetterState::Here);
    assert_eq!(letter.state(2), LocatedLetterState::NotHere);
    Ok(())
}

#[test]
fn present_letter_here_then_max_count_fills_remainder_not_here() -> Result<(), WordleError> {
    let mut letter = PresentLetter::new(3);

    letter.set_must_be_at(1)?;
    letter.set_required_count(1)?;

    assert_eq!(letter.state(0), LocatedLetterState::NotHere);
    assert_eq!(letter.state(1), LocatedLetterState::Here);
    assert_eq!(letter.state(2), LocatedLetterState::NotHere);
    Ok(())
}

#[test]
fn present_letter_max_count_then_not_here_fills_remainder_here() -> Result<(), WordleError> {
    let mut letter = PresentLetter::new(3);

    letter.set_must_be_at(1)?;
    letter.set_required_count(2)?;
    letter.set_must_not_be_at(0)?;

    assert_eq!(letter.state(0), LocatedLetterState::NotHere);
    assert_eq!(letter.state(1), LocatedLetterState::Here);
    assert_eq!(letter.state(2), LocatedLetterState::Here);
    Ok(())
}

#[test]
fn present_letter_max_count_less_than_here_errors() -> Result<(), WordleError> {
    let mut letter = PresentLetter::new(3);

    letter.set_must_be_at(0)?;
    letter.set_must_be_at(1)?;
    assert!(matches!(
        letter.set_required_count(1),
        Err(WordleError::InvalidResults)
    ));
    Ok(())
}

#[test]
fn present_letter_max_count_more_than_possible_errors() -> Result<(), WordleError> {
    let mut letter = PresentLetter::new(3);

    letter.set_must_not_be_at(0)?;
    letter.set_must_not_be_at(1)?;
    assert!(matches!(
        letter.set_required_count(2),
        Err(WordleError::InvalidResults)
    ));
    Ok(())
}

#[test]
fn present_letter_here_after_not_here_errors() -> Result<(), WordleError> {
    let mut letter = PresentLetter::new(3);

    letter.set_must_not_be_at(0)?;
    assert!(matches!(
        letter.set_must_be_at(0),
        Err(WordleError::InvalidResults)
    ));
    Ok(())
}

#[test]
fn present_letter_not_here_after_here_errors() -> Result<(), WordleError> {
    let mut letter = PresentLetter::new(3);

    letter.set_must_be_at(0)?;
    assert!(matches!(
        letter.set_must_not_be_at(0),
        Err(WordleError::InvalidResults)
    ));
    Ok(())
}

#[test]
fn word_restrictions_is_satisfied_by_no_restrictions() {
    let restrictions = WordRestrictions::new(4);

    assert!(restrictions.is_satisfied_by("abcd"));
    assert!(restrictions.is_satisfied_by("zzzz"));

    // Wrong length
    assert_eq!(restrictions.is_satisfied_by(""), false);
    assert_eq!(restrictions.is_satisfied_by("abcde"), false);
}

#[test]
fn word_restrictions_is_satisfied_by_with_restrictions() -> Result<(), WordleError> {
    let mut restrictions = WordRestrictions::new(4);

    restrictions.update(&GuessResult {
        guess: "abbc",
        results: vec![
            LetterResult::PresentNotHere,
            LetterResult::PresentNotHere,
            LetterResult::Correct,
            LetterResult::NotPresent,
        ],
    })?;

    assert!(restrictions.is_satisfied_by("bdba"));
    assert!(restrictions.is_satisfied_by("dabb"));

    assert_eq!(restrictions.is_satisfied_by("bbba"), false);
    assert_eq!(restrictions.is_satisfied_by("bcba"), false);
    assert_eq!(restrictions.is_satisfied_by("adbd"), false);
    assert_eq!(restrictions.is_satisfied_by("bdbd"), false);
    Ok(())
}

#[test]
fn word_restrictions_state() -> Result<(), WordleError> {
    let mut restrictions = WordRestrictions::new(4);

    restrictions.update(&GuessResult {
        guess: "abbc",
        results: vec![
            LetterResult::PresentNotHere,
            LetterResult::PresentNotHere,
            LetterResult::Correct,
            LetterResult::NotPresent,
        ],
    })?;

    assert_eq!(
        restrictions.state(&LocatedLetter::new('a', 0)),
        Some(LetterRestriction::PresentNotHere)
    );
    assert_eq!(
        restrictions.state(&LocatedLetter::new('a', 1)),
        Some(LetterRestriction::PresentMaybeHere)
    );
    assert_eq!(
        restrictions.state(&LocatedLetter::new('a', 2)),
        Some(LetterRestriction::PresentNotHere)
    );
    assert_eq!(
        restrictions.state(&LocatedLetter::new('b', 0)),
        Some(LetterRestriction::PresentMaybeHere)
    );
    assert_eq!(
        restrictions.state(&LocatedLetter::new('b', 1)),
        Some(LetterRestriction::PresentNotHere)
    );
    assert_eq!(
        restrictions.state(&LocatedLetter::new('b', 2)),
        Some(LetterRestriction::Here)
    );
    assert_eq!(
        restrictions.state(&LocatedLetter::new('c', 3)),
        Some(LetterRestriction::NotPresent)
    );
    assert_eq!(
        restrictions.state(&LocatedLetter::new('c', 0)),
        Some(LetterRestriction::NotPresent)
    );
    assert_eq!(restrictions.state(&LocatedLetter::new('z', 0)), None);
    Ok(())
}

#[test]
fn word_restrictions_is_state_known() -> Result<(), WordleError> {
    let mut restrictions = WordRestrictions::new(4);

    restrictions.update(&GuessResult {
        guess: "abbc",
        results: vec![
            LetterResult::PresentNotHere,
            LetterResult::PresentNotHere,
            LetterResult::Correct,
            LetterResult::NotPresent,
        ],
    })?;

    assert!(restrictions.is_state_known(LocatedLetter::new('a', 0)));
    assert_eq!(
        restrictions.is_state_known(LocatedLetter::new('a', 1)),
        false
    );
    assert!(restrictions.is_state_known(LocatedLetter::new('b', 2)));
    assert!(restrictions.is_state_known(LocatedLetter::new('c', 3)));
    assert!(restrictions.is_state_known(LocatedLetter::new('c', 0)));
    assert_eq!(
        restrictions.is_state_known(LocatedLetter::new('z', 0)),
        false
    );
    Ok(())
}

#[test]
fn word_restrictions_is_satisfied_by_with_known_required_count() -> Result<(), WordleError> {
    let mut restrictions = WordRestrictions::new(4);

    restrictions.update(&GuessResult {
        guess: "abbc",
        results: vec![
            LetterResult::PresentNotHere,
            LetterResult::NotPresent,
            LetterResult::Correct,
            LetterResult::NotPresent,
        ],
    })?;

    assert!(restrictions.is_satisfied_by("edba"));
    assert!(restrictions.is_satisfied_by("dabe"));
    assert!(restrictions.is_satisfied_by("daba"));

    assert_eq!(restrictions.is_satisfied_by("bdba"), false);
    assert_eq!(restrictions.is_satisfied_by("dcba"), false);
    assert_eq!(restrictions.is_satisfied_by("adbd"), false);
    Ok(())
}

#[test]
fn word_restrictions_is_satisfied_by_with_min_count() -> Result<(), WordleError> {
    let mut restrictions = WordRestrictions::new(4);

    restrictions.update(&GuessResult {
        guess: "abbc",
        results: vec![
            LetterResult::PresentNotHere,
            LetterResult::PresentNotHere,
            LetterResult::Correct,
            LetterResult::NotPresent,
        ],
    })?;

    assert!(restrictions.is_satisfied_by("beba"));
    assert!(restrictions.is_satisfied_by("dabb"));

    assert_eq!(restrictions.is_satisfied_by("edba"), false);
    assert_eq!(restrictions.is_satisfied_by("ebbd"), false);
    Ok(())
}

#[test]
fn word_restrictions_empty_then_merge() -> Result<(), WordleError> {
    let mut restrictions = WordRestrictions::new(4);
    let mut other_restrictions = WordRestrictions::new(4);
    other_restrictions.update(&GuessResult {
        guess: "abbc",
        results: vec![
            LetterResult::PresentNotHere,
            LetterResult::PresentNotHere,
            LetterResult::Correct,
            LetterResult::NotPresent,
        ],
    })?;

    restrictions.merge(&other_restrictions)?;

    assert!(restrictions.is_satisfied_by("babd"));
    assert!(restrictions.is_satisfied_by("baba"));
    assert_eq!(restrictions.is_satisfied_by("babc"), false);
    assert_eq!(restrictions.is_satisfied_by("badb"), false);
    assert_eq!(restrictions.is_satisfied_by("adbb"), false);
    assert_eq!(restrictions.is_satisfied_by("dbba"), false);
    Ok(())
}

#[test]
fn word_restrictions_merge() -> Result<(), WordleError> {
    let mut restrictions = WordRestrictions::new(4);
    let mut other_restrictions = WordRestrictions::new(4);
    restrictions.update(&GuessResult {
        guess: "bade",
        results: vec![
            LetterResult::Correct,
            LetterResult::Correct,
            LetterResult::NotPresent,
            LetterResult::Correct,
        ],
    })?;
    other_restrictions.update(&GuessResult {
        guess: "abbc",
        results: vec![
            LetterResult::PresentNotHere,
            LetterResult::PresentNotHere,
            LetterResult::Correct,
            LetterResult::NotPresent,
        ],
    })?;

    restrictions.merge(&other_restrictions)?;

    assert!(restrictions.is_satisfied_by("babe"));
    assert_eq!(restrictions.is_satisfied_by("baee"), false);
    Ok(())
}

#[test]
fn word_restrictions_merge_wrong_length() {
    let mut restrictions = WordRestrictions::new(4);
    let other_restrictions = WordRestrictions::new(5);

    assert!(matches!(
        restrictions.merge(&other_restrictions),
        Err(WordleError::InvalidResults)
    ));
}

#[test]
fn word_restrictions_conflicting_merge_present_then_not_present() -> Result<(), WordleError> {
    let mut restrictions = WordRestrictions::new(4);
    let mut other_restrictions = WordRestrictions::new(4);
    restrictions.update(&GuessResult {
        guess: "abcd",
        results: vec![
            LetterResult::PresentNotHere,
            LetterResult::PresentNotHere,
            LetterResult::PresentNotHere,
            LetterResult::NotPresent,
        ],
    })?;
    other_restrictions.update(&GuessResult {
        guess: "abbc",
        results: vec![
            LetterResult::PresentNotHere,
            LetterResult::PresentNotHere,
            LetterResult::Correct,
            LetterResult::NotPresent,
        ],
    })?;

    assert!(matches!(
        restrictions.merge(&other_restrictions),
        Err(WordleError::InvalidResults)
    ));
    Ok(())
}

#[test]
fn word_restrictions_conflicting_merge_not_present_then_present() -> Result<(), WordleError> {
    let mut restrictions = WordRestrictions::new(4);
    let mut other_restrictions = WordRestrictions::new(4);
    restrictions.update(&GuessResult {
        guess: "abcd",
        results: vec![
            LetterResult::NotPresent,
            LetterResult::PresentNotHere,
            LetterResult::NotPresent,
            LetterResult::NotPresent,
        ],
    })?;
    other_restrictions.update(&GuessResult {
        guess: "abbc",
        results: vec![
            LetterResult::PresentNotHere,
            LetterResult::PresentNotHere,
            LetterResult::Correct,
            LetterResult::NotPresent,
        ],
    })?;

    assert!(matches!(
        restrictions.merge(&other_restrictions),
        Err(WordleError::InvalidResults)
    ));
    Ok(())
}

#[test]
fn word_restrictions_conflicting_merge_present_different_place() -> Result<(), WordleError> {
    let mut restrictions = WordRestrictions::new(4);
    let mut other_restrictions = WordRestrictions::new(4);
    restrictions.update(&GuessResult {
        guess: "abbc",
        results: vec![
            LetterResult::PresentNotHere,
            LetterResult::Correct,
            LetterResult::Correct,
            LetterResult::NotPresent,
        ],
    })?;
    other_restrictions.update(&GuessResult {
        guess: "abbc",
        results: vec![
            LetterResult::PresentNotHere,
            LetterResult::PresentNotHere,
            LetterResult::Correct,
            LetterResult::NotPresent,
        ],
    })?;

    assert!(matches!(
        restrictions.merge(&other_restrictions),
        Err(WordleError::InvalidResults)
    ));
    Ok(())
}

#[test]
fn word_restrictions_update_change_num_required_fails() -> Result<(), WordleError> {
    let mut restrictions = WordRestrictions::new(4);
    restrictions.update(&GuessResult {
        guess: "aaaa",
        results: vec![
            LetterResult::NotPresent,
            LetterResult::PresentNotHere,
            LetterResult::Correct,
            LetterResult::NotPresent,
        ]
    })?;

    assert!(matches!(restrictions.clone().update(&GuessResult {
            guess: "aaaa",
            results: vec![
                LetterResult::NotPresent,
                LetterResult::PresentNotHere,
                LetterResult::Correct,
                LetterResult::Correct,
            ]
        }),
        Err(WordleError::InvalidResults)));
    assert!(matches!(restrictions.clone().update(&GuessResult {
            guess: "aaaa",
            results: vec![
                LetterResult::NotPresent,
                LetterResult::PresentNotHere,
                LetterResult::NotPresent,
                LetterResult::NotPresent,
            ]
        }),
        Err(WordleError::InvalidResults)));
    Ok(())
}

#[test]
fn present_letter_min_count_above_required_count_fails() {
    let mut letter = PresentLetter::new(3);
    assert!(letter.set_required_count(1).is_ok());
    assert!(matches!(
        letter.possibly_bump_min_count(2),
        Err(WordleError::InvalidResults)
    ));
    assert_eq!(letter.min_count(), 1);
    assert_eq!(letter.maybe_required_count(), Some(1));
}

#[test]
fn word_restrictions_update_needing_more_than_the_exact_count_fails() {
    let mut restrictions = WordRestrictions::new(5);
    assert!(restrictions
        .update(&GuessResult {
            guess: "aaxxx",
            results: vec![
                LetterResult::PresentNotHere,
                LetterResult::NotPresent,
                LetterResult::NotPresent,
                LetterResult::NotPresent,
                LetterResult::NotPresent,
            ],
        })
        .is_ok());
    assert!(matches!(
        restrictions.update(&GuessResult {
            guess: "yaayy",
            results: vec![
                LetterResult::NotPresent,
                LetterResult::PresentNotHere,
                LetterResult::PresentNotHere,
                LetterResult::NotPresent,
                LetterResult::NotPresent,
            ],
        }),
        Err(WordleError::InvalidResults)
    ));
}

#[test]
fn word_restrictions_merge_needing_more_than_the_exact_count_fails() {
    let mut exactly_one = WordRestrictions::from_result(&GuessResult {
        guess: "aaxxx",
        results: vec![
            LetterResult::PresentNotHere,
            LetterResult::NotPresent,
            LetterResult::NotPresent,
            LetterResult::NotPresent,
            LetterResult::NotPresent,
        ],
    });
    let at_least_two = WordRestrictions::from_result(&GuessResult {
        guess: "yaayy",
        results: vec![
            LetterResult::NotPresent,
            LetterResult::PresentNotHere,
            LetterResult::PresentNotHere,
            LetterResult::NotPresent,
            LetterResult::NotPresent,
        ],
    });
    assert!(matches!(
        exactly_one.merge(&at_least_two),
        Err(WordleError::InvalidResults)
    ));
}
