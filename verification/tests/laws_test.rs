use rs_wordle_solver::{get_result_for_guess, WordRestrictions};

const WORDS: [&str; 8] = [
    "sassy", "mesas", "abbey", "babes", "essay", "crane", "eerie", "geese",
];

#[test]
fn updating_with_the_objectives_results_keeps_it_possible() {
    for objective in WORDS {
        let mut restrictions = WordRestrictions::new(5);
        for guess in WORDS {
            let result = get_result_for_guess(objective, guess).unwrap();
            assert!(restrictions.update(&result).is_ok());
            assert!(restrictions.is_satisfied_by(objective));
        }
    }
}

#[test]
fn merging_restrictions_of_one_objective_keeps_it_possible() {
    for objective in WORDS {
        for first in WORDS {
            for second in WORDS {
                let mut restrictions =
                    WordRestrictions::from_result(&get_result_for_guess(objective, first).unwrap());
                let other =
                    WordRestrictions::from_result(&get_result_for_guess(objective, second).unwrap());
                assert!(restrictions.merge(&other).is_ok());
                assert!(restrictions.is_satisfied_by(objective));
            }
        }
    }
}

#[test]
fn a_wrong_guess_rules_itself_out() {
    for objective in WORDS {
        for guess in WORDS {
            if guess == objective {
                continue;
            }
            let restrictions =
                WordRestrictions::from_result(&get_result_for_guess(objective, guess).unwrap());
            assert!(!restrictions.is_satisfied_by(guess));
        }
    }
}

#[test]
fn a_wrong_guess_rules_itself_out_after_earlier_guesses() {
    for objective in WORDS {
        let mut restrictions = WordRestrictions::new(5);
        for guess in WORDS {
            let result = get_result_for_guess(objective, guess).unwrap();
            assert!(restrictions.update(&result).is_ok());
            assert_eq!(restrictions.is_satisfied_by(guess), guess == objective);
        }
    }
}

#[test]
fn merging_restrictions_of_one_objective_allows_what_both_allow() {
    for objective in WORDS {
        for first in WORDS {
            for second in WORDS {
                let first_restrictions =
                    WordRestrictions::from_result(&get_result_for_guess(objective, first).unwrap());
                let second_restrictions =
                    WordRestrictions::from_result(&get_result_for_guess(objective, second).unwrap());
                let mut merged = first_restrictions.clone();
                assert!(merged.merge(&second_restrictions).is_ok());
                for word in WORDS {
                    assert_eq!(
                        merged.is_satisfied_by(word),
                        first_restrictions.is_satisfied_by(word)
                            && second_restrictions.is_satisfied_by(word)
                    );
                }
            }
        }
    }
}
