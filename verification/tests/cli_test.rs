use rs_wordle_solver::benchmark::{
    bucket_index, count_guess, count_possible_words, rounds_histogram, top_guesses,
    NUM_BUCKETS, NUM_COUNTED_TURNS,
};
use rs_wordle_solver::cli::{
    guess_from_name, guesser_impl_named, parse_guess_from, parse_guesser_impl,
    parse_letter_results, GuesserImpl, ResultsInputError,
};
use rs_wordle_solver::{GuessFrom, LetterResult, TurnData};

#[test]
fn parse_guesser_impl_names() {
    assert_eq!(parse_guesser_impl("random"), Ok(GuesserImpl::Random));
    assert_eq!(
        parse_guesser_impl("  Unique_Letters\n"),
        Ok(GuesserImpl::UniqueLetterFrequency)
    );
    assert_eq!(
        parse_guesser_impl("located_letters"),
        Ok(GuesserImpl::LocatedLetters)
    );
    assert_eq!(
        parse_guesser_impl("APPROX_ELIMINATIONS"),
        Ok(GuesserImpl::ApproximateEliminations)
    );
    assert_eq!(
        parse_guesser_impl("max_eliminations"),
        Ok(GuesserImpl::MaxEliminations)
    );
    assert_eq!(
        parse_guesser_impl("max_combo_eliminations"),
        Ok(GuesserImpl::MaxComboEliminations)
    );
    let error = parse_guesser_impl("best").unwrap_err();
    assert!(error.starts_with("Valid guesser implementations are:"));
}

#[test]
fn parse_guess_from_names() {
    assert_eq!(parse_guess_from("all"), Some(GuessFrom::AllUnguessedWords));
    assert_eq!(parse_guess_from(" "), Some(GuessFrom::AllUnguessedWords));
    assert_eq!(parse_guess_from("Possible"), Some(GuessFrom::PossibleWords));
    assert_eq!(parse_guess_from("some"), None);
}

#[test]
fn parse_letter_results_reads_each_letter() {
    assert_eq!(
        parse_letter_results("soapy", "g.gy.\n"),
        Ok(vec![
            LetterResult::Correct,
            LetterResult::NotPresent,
            LetterResult::Correct,
            LetterResult::PresentNotHere,
            LetterResult::NotPresent,
        ])
    );
    assert_eq!(
        parse_letter_results("soapy", "g.gy"),
        Err(ResultsInputError::LengthMismatch)
    );
    assert_eq!(
        parse_letter_results("soapy", "g.gyx"),
        Err(ResultsInputError::InvalidLetter)
    );
}

#[test]
fn bucket_index_finds_the_last_group_that_fits() {
    assert_eq!(bucket_index(1), 0);
    assert_eq!(bucket_index(3), 1);
    assert_eq!(bucket_index(4), 2);
    assert_eq!(bucket_index(95), 6);
    assert_eq!(bucket_index(96), 7);
    assert_eq!(bucket_index(2047), 11);
    assert_eq!(bucket_index(100000), NUM_BUCKETS - 1);
}

fn turn(num_possible_words_before_guess: usize) -> TurnData {
    TurnData {
        guess: String::from("abc"),
        num_possible_words_before_guess,
    }
}

#[test]
fn count_possible_words_counts_first_and_last_turns() {
    let turns = vec![turn(100), turn(20), turn(3), turn(1), turn(1)];
    let mut from_start = vec![vec![0u64; NUM_BUCKETS]; NUM_COUNTED_TURNS];
    let mut from_end = vec![vec![0u64; NUM_BUCKETS]; NUM_COUNTED_TURNS];
    count_possible_words(&mut from_start, &turns, false);
    count_possible_words(&mut from_end, &turns, true);

    assert_eq!(from_start[0][7], 1);
    assert_eq!(from_start[1][4], 1);
    assert_eq!(from_start[2][1], 1);
    assert_eq!(from_start[3][0], 1);
    assert_eq!(from_start.iter().flatten().sum::<u64>(), 4);
    assert_eq!(from_end[0][0], 1);
    assert_eq!(from_end[1][0], 1);
    assert_eq!(from_end[2][1], 1);
    assert_eq!(from_end[3][4], 1);
    assert_eq!(from_end.iter().flatten().sum::<u64>(), 4);

    let mut short = vec![vec![0u64; NUM_BUCKETS]; NUM_COUNTED_TURNS];
    count_possible_words(&mut short, &[turn(2)], false);
    assert_eq!(short[0][1], 1);
    assert_eq!(short.iter().flatten().sum::<u64>(), 1);
}

#[test]
fn count_guess_and_top_guesses() {
    let mut counts: Vec<(String, u64)> = Vec::new();
    for guess in ["abc", "def", "abc", "ghi", "def", "abc"] {
        count_guess(&mut counts, &String::from(guess));
    }
    assert_eq!(
        counts,
        vec![
            (String::from("abc"), 3),
            (String::from("def"), 2),
            (String::from("ghi"), 1)
        ]
    );
    let top = top_guesses(&counts, 2);
    assert_eq!(
        top,
        vec![(String::from("abc"), 3), (String::from("def"), 2)]
    );
    assert_eq!(top_guesses(&counts, 10).len(), 3);
}

#[test]
fn rounds_histogram_counts_in_order() {
    let histogram = rounds_histogram(&[4, 3, 4, 6, 3, 4]);
    assert_eq!(histogram, vec![(3, 2), (4, 3), (6, 1)]);
    assert!(rounds_histogram(&[]).is_empty());
}

#[test]
fn guesser_impl_named_reads_only_normalized_names() {
    assert_eq!(
        guesser_impl_named("max_combo_eliminations"),
        Ok(GuesserImpl::MaxComboEliminations)
    );
    assert_eq!(guesser_impl_named("unique_letters"), Ok(GuesserImpl::UniqueLetterFrequency));
    assert!(guesser_impl_named("Random").is_err());
    assert!(guesser_impl_named(" random").is_err());
}

#[test]
fn guess_from_name_reads_only_normalized_names() {
    assert_eq!(guess_from_name("all"), Some(GuessFrom::AllUnguessedWords));
    assert_eq!(guess_from_name(""), Some(GuessFrom::AllUnguessedWords));
    assert_eq!(guess_from_name("possible"), Some(GuessFrom::PossibleWords));
    assert_eq!(guess_from_name("Possible"), None);
}

#[test]
fn parse_guess_from_trims_unicode_whitespace() {
    assert_eq!(parse_guess_from("\u{3000}possible\u{a0}"), Some(GuessFrom::PossibleWords));
}
