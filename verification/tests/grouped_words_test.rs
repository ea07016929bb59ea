use std::collections::HashSet;

use rs_wordle_solver::{GroupedWords, WordBank, WordleError};

fn three_words() -> Result<WordBank, WordleError> {
    WordBank::from_iterator(&["the", "big", "dog"])
}

#[test]
fn test_grouped_words_new() -> Result<(), WordleError> {
    let words = three_words()?;
    let grouped_words = GroupedWords::new(&words);

    assert_eq!(grouped_words.all_words, words.words().to_vec());
    assert_eq!(grouped_words.num_possible_words(), 3);
    assert_eq!(grouped_words.num_unguessed_words(), 3);

    Ok(())
}

#[test]
fn test_grouped_words_remove_guess_if_present() -> Result<(), WordleError> {
    let words = three_words()?;
    let mut grouped_words = GroupedWords::new(&words);

    // Remove random word, should be no-op.
    grouped_words.remove_guess_if_present("cat");

    assert_eq!(grouped_words.num_possible_words(), 3);
    assert_eq!(grouped_words.num_unguessed_words(), 3);
    assert_eq!(grouped_words.unguessed_words(), words.words().to_vec());

    // Remove a present word, should remove it from unguessed words.
    grouped_words.remove_guess_if_present("big");

    assert_eq!(grouped_words.num_possible_words(), 3);
    assert_eq!(grouped_words.num_unguessed_words(), 2);
    assert_eq!(
        grouped_words.unguessed_words(),
        &[String::from("the"), String::from("dog")]
    );
    assert_eq!(
        HashSet::<&String>::from_iter(grouped_words.possible_words()),
        words.words().iter().collect::<HashSet<_>>()
    );

    // Remove again, should be no-op.
    grouped_words.remove_guess_if_present("big");

    assert_eq!(grouped_words.num_possible_words(), 3);
    assert_eq!(grouped_words.num_unguessed_words(), 2);
    assert_eq!(
        grouped_words.unguessed_words(),
        &[String::from("the"), String::from("dog")]
    );

    Ok(())
}

#[test]
fn test_grouped_words_filter_possible_words() -> Result<(), WordleError> {
    let words = three_words()?;
    let mut grouped_words = GroupedWords::new(&words);

    grouped_words.filter_possible_words(|word| word == "big");

    assert_eq!(grouped_words.num_possible_words(), 1);
    assert_eq!(grouped_words.num_unguessed_words(), 3);
    assert_eq!(grouped_words.possible_words(), &[String::from("big")]);
    assert_eq!(
        HashSet::<&String>::from_iter(grouped_words.unguessed_words()),
        words.words().iter().collect::<HashSet<_>>()
    );

    Ok(())
}

#[test]
fn test_grouped_words_guessing_the_word() -> Result<(), WordleError> {
    let words = three_words()?;
    let mut grouped_words = GroupedWords::new(&words);

    grouped_words.remove_guess_if_present("big");
    grouped_words.filter_possible_words(|word| word == "big");

    assert_eq!(grouped_words.num_possible_words(), 1);
    assert_eq!(grouped_words.num_unguessed_words(), 2);
    assert_eq!(grouped_words.possible_words(), &[String::from("big")]);
    assert_eq!(
        grouped_words
            .unguessed_words()
            .iter()
            .collect::<HashSet<_>>(),
        HashSet::from_iter(&[String::from("the"), String::from("dog")])
    );

    Ok(())
}

#[test]
fn test_grouped_words_display() -> Result<(), WordleError> {
    let words = WordBank::from_iterator(&["the", "big", "dog", "cat", "bat"])?;
    let mut grouped_words = GroupedWords::new(&words);

    grouped_words.remove_guess_if_present("the");
    grouped_words.filter_possible_words(|word| word == "big" || word == "bat");
    grouped_words.remove_guess_if_present("big");

    assert_eq!(
        grouped_words.describe(),
        "GroupedWords { possible, guessed: [\"big\"]; possible, unguessed: [\"bat\"]; impossible, guessed: [\"the\"]; impossible, unguessed: [\"cat\", \"dog\"] }"
    );
    Ok(())
}

#[test]
fn grouped_words_filter_keeps_every_word() -> Result<(), WordleError> {
    let words = WordBank::from_iterator(&["the", "big", "dog", "cat", "bat"])?;
    let mut grouped_words = GroupedWords::new(&words);

    grouped_words.remove_guess_if_present("cat");
    grouped_words.filter_possible_words(|word| word.contains('a') || word == "dog");

    let mut all = grouped_words.all_words.clone();
    all.sort();
    let mut expected = words.words().to_vec();
    expected.sort();
    assert_eq!(all, expected);
    // The guessed possible word "cat" stays possible and guessed; "bat" and "dog" stay
    // possible and unguessed.
    assert_eq!(grouped_words.num_possible_words(), 3);
    assert_eq!(grouped_words.num_unguessed_words(), 4);
    assert_eq!(grouped_words.possible_words()[0], "cat");
    Ok(())
}

#[test]
fn grouped_words_removing_an_impossible_guess_moves_it_to_the_end() -> Result<(), WordleError> {
    let words = WordBank::from_iterator(&["the", "big", "dog"])?;
    let mut grouped_words = GroupedWords::new(&words);

    grouped_words.filter_possible_words(|word| word != "the");
    grouped_words.remove_guess_if_present("the");

    assert_eq!(grouped_words.num_possible_words(), 2);
    assert_eq!(grouped_words.num_unguessed_words(), 2);
    assert_eq!(grouped_words.all_words[2], "the");
    Ok(())
}

#[test]
fn grouped_words_filter_when_every_possible_word_was_guessed() {
    let bank = WordBank::from_iterator(&["abc"]).unwrap();
    let mut grouped = GroupedWords::new(&bank);
    grouped.remove_guess_if_present("abc");
    grouped.filter_possible_words(|_| true);
    assert_eq!(grouped.num_possible_words(), 1);
    assert_eq!(grouped.possible_words(), &[String::from("abc")]);
    assert_eq!(grouped.num_unguessed_words(), 0);
    grouped.filter_possible_words(|_| false);
    assert_eq!(grouped.num_possible_words(), 0);
}

#[test]
fn grouped_words_remove_guess_keeps_words_and_is_then_a_no_op() -> Result<(), WordleError> {
    let words = three_words()?;
    let mut grouped_words = GroupedWords::new(&words);
    grouped_words.remove_guess_if_present("big");
    let mut possible: Vec<String> = grouped_words.possible_words().to_vec();
    possible.sort();
    assert_eq!(possible, vec!["big", "dog", "the"]);
    assert_eq!(grouped_words.num_unguessed_words(), 2);
    assert!(!grouped_words.unguessed_words().contains(&String::from("big")));
    let before: Vec<String> = grouped_words.all_words.clone();
    grouped_words.remove_guess_if_present("big");
    assert_eq!(grouped_words.all_words, before);
    assert_eq!(grouped_words.num_unguessed_words(), 2);
    Ok(())
}
