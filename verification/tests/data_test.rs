use std::io::BufRead;
use std::io::Cursor;

use rs_wordle_solver::{
    CompressedGuessResult, LetterResult, LocatedLetter, WordBank, WordCounter, WordTracker,
    WordleError, MAX_LETTERS_IN_COMPRESSED_GUESS_RESULT,
};

fn lines_of(text: &str) -> Vec<Result<String, std::io::Error>> {
    Cursor::new(String::from(text)).lines().collect()
}

fn strings(words: &[&str]) -> Vec<String> {
    words.iter().map(|word| String::from(*word)).collect()
}

#[test]
fn word_bank_from_reader_succeeds() -> Result<(), WordleError> {
    let word_bank = WordBank::from_reader(lines_of("\n\nworda\n wordb\n"))?;

    assert_eq!(word_bank.len(), 2);
    assert_eq!(word_bank.words(), strings(&["worda", "wordb"]));
    assert_eq!(word_bank.word_length(), 5);
    Ok(())
}

#[test]
fn word_bank_from_iterator_succeeds() -> Result<(), WordleError> {
    let word_bank = WordBank::from_iterator(&["", "worda", "Wordb "])?;

    assert_eq!(word_bank.len(), 2);
    assert_eq!(word_bank.words(), strings(&["worda", "wordb"]));
    assert_eq!(word_bank.word_length(), 5);
    Ok(())
}

#[test]
fn word_bank_from_string_iterator_succeeds() -> Result<(), WordleError> {
    let words = vec!["".to_string(), "worda".to_string(), "Wordb ".to_string()];
    let word_refs: Vec<&str> = words.iter().map(|word| word.as_str()).collect();
    let word_bank = WordBank::from_iterator(&word_refs)?;

    assert_eq!(word_bank.len(), 2);
    assert_eq!(word_bank.words(), strings(&["worda", "wordb"]));
    assert_eq!(word_bank.word_length(), 5);
    Ok(())
}

#[test]
fn word_bank_from_reader_mismatched_word_length_fails() {
    assert!(matches!(
        WordBank::from_reader(lines_of("\nlongword\n   short\n")),
        Err(WordleError::WordLength(8))
    ));
}

#[test]
fn word_bank_from_reader_passes_on_read_errors() {
    let lines = vec![
        Ok(String::from("abc")),
        Err(std::io::Error::from(std::io::ErrorKind::InvalidData)),
        Ok(String::from("def")),
    ];
    assert!(matches!(
        WordBank::from_reader(lines),
        Err(WordleError::IoError(_))
    ));
}

#[test]
fn word_bank_derefs_to_its_words() -> Result<(), WordleError> {
    let word_bank = WordBank::from_iterator(&["abc", "DEF "])?;
    assert_eq!(&*word_bank, &strings(&["abc", "def"])[..]);
    assert_eq!(word_bank.to_vec(), strings(&["abc", "def"]));
    Ok(())
}

#[test]
fn word_bank_empty_and_blank() -> Result<(), WordleError> {
    let word_bank = WordBank::from_iterator(&["", "  ", "\t"])?;
    assert!(word_bank.is_empty());
    assert_eq!(word_bank.len(), 0);
    assert_eq!(word_bank.word_length(), 0);
    Ok(())
}

#[test]
fn word_bank_lowercases_and_trims() -> Result<(), WordleError> {
    let word_bank = WordBank::from_iterator(&["  ABC\t", "DeF"])?;
    assert_eq!(word_bank.words(), strings(&["abc", "def"]));
    assert_eq!(word_bank.word_length(), 3);
    Ok(())
}

#[test]
fn compressed_guess_result_equality() -> Result<(), WordleError> {
    let result_correct = CompressedGuessResult::from_results(&[LetterResult::Correct; 4])?;
    let result_not_here = CompressedGuessResult::from_results(&[LetterResult::PresentNotHere; 4])?;
    let result_not_present = CompressedGuessResult::from_results(&[LetterResult::NotPresent; 4])?;

    assert_eq!(result_correct, result_correct);
    assert_eq!(result_not_here, result_not_here);
    assert_eq!(result_not_present, result_not_present);
    assert!(result_correct != result_not_here);
    assert!(result_correct != result_not_present);
    assert!(result_not_here != result_not_present);
    Ok(())
}

#[test]
fn compressed_guess_result_too_long() {
    assert!(matches!(
        CompressedGuessResult::from_results(
            &[LetterResult::Correct; MAX_LETTERS_IN_COMPRESSED_GUESS_RESULT]
        ),
        Ok(_)
    ));
    assert!(matches!(
        CompressedGuessResult::from_results(
            &[LetterResult::Correct; MAX_LETTERS_IN_COMPRESSED_GUESS_RESULT + 1]
        ),
        Err(WordleError::WordLength(MAX_LETTERS_IN_COMPRESSED_GUESS_RESULT))
    ));
}

#[test]
fn compressed_guess_result_order_matters() -> Result<(), WordleError> {
    let first = CompressedGuessResult::from_results(&[
        LetterResult::Correct,
        LetterResult::NotPresent,
    ])?;
    let second = CompressedGuessResult::from_results(&[
        LetterResult::NotPresent,
        LetterResult::Correct,
    ])?;
    assert!(first != second);
    let empty = CompressedGuessResult::from_results(&[])?;
    let one = CompressedGuessResult::from_results(&[LetterResult::Correct])?;
    assert!(empty != one);
    Ok(())
}

#[test]
fn located_letter_new() {
    let ll = LocatedLetter::new('b', 2);
    assert_eq!(ll.letter, 'b');
    assert_eq!(ll.location, 2);
}

#[test]
fn word_counter_counts() {
    let all_words = strings(&["aba", "bbd", "efg"]);
    let counter = WordCounter::new(&all_words);

    assert_eq!(counter.num_words(), 3);
    assert_eq!(counter.num_words_with_letter('a'), 1);
    assert_eq!(counter.num_words_with_letter('b'), 2);
    assert_eq!(counter.num_words_with_letter('z'), 0);
    assert_eq!(
        counter.num_words_with_located_letter(&LocatedLetter::new('b', 0)),
        1
    );
    assert_eq!(
        counter.num_words_with_located_letter(&LocatedLetter::new('b', 1)),
        2
    );
    assert_eq!(
        counter.num_words_with_located_letter(&LocatedLetter::new('b', 2)),
        0
    );
    assert_eq!(
        counter.num_words_with_located_letter(&LocatedLetter::new('b', 3)),
        0
    );
    assert_eq!(
        counter.num_words_with_located_letter(&LocatedLetter::new('z', 0)),
        0
    );
}

#[test]
fn word_tracker_lists() {
    let all_words = strings(&["aba", "bcd", "efg"]);
    let tracker = WordTracker::new(&all_words);

    assert_eq!(tracker.all_words(), &all_words[..]);
    assert_eq!(tracker.words_with_letter('b'), strings(&["aba", "bcd"]));
    assert_eq!(
        tracker.words_with_located_letter(LocatedLetter::new('b', 1)),
        strings(&["aba"])
    );
    assert!(tracker.has_letter('a'));
    assert!(!tracker.has_letter('z'));
}

#[test]
fn word_tracker_queries() {
    let all_words = strings(&["bba", "bcd", "efg"]);
    let tracker = WordTracker::new(&all_words);

    assert_eq!(
        tracker.words_with_located_letter(LocatedLetter::new('b', 0)),
        strings(&["bba", "bcd"])
    );
    assert_eq!(
        tracker.words_with_located_letter(LocatedLetter::new('b', 1)),
        strings(&["bba"])
    );
    assert_eq!(
        tracker
            .words_with_located_letter(LocatedLetter::new('z', 1))
            .len(),
        0
    );
    assert_eq!(tracker.words_with_letter('b'), strings(&["bba", "bcd"]));
    assert_eq!(tracker.words_with_letter('e'), strings(&["efg"]));
    assert_eq!(tracker.words_with_letter('z').len(), 0);
    assert_eq!(
        tracker.words_with_letter_not_here(LocatedLetter::new('b', 1)),
        strings(&["bcd"])
    );
    assert_eq!(
        tracker
            .words_with_letter_not_here(LocatedLetter::new('b', 0))
            .len(),
        0
    );
    assert_eq!(
        tracker
            .words_with_letter_not_here(LocatedLetter::new('z', 0))
            .len(),
        0
    );
    assert_eq!(tracker.words_without_letter('a'), strings(&["bcd", "efg"]));
    assert_eq!(tracker.words_without_letter('z'), all_words);
}

#[test]
fn word_bank_parse_normalized_word() {
    assert!(matches!(WordBank::parse_normalized_word(0, String::new()), (0, None)));
    match WordBank::parse_normalized_word(0, String::from("abc")) {
        (3, Some(Ok(word))) => assert_eq!(word, "abc"),
        other => panic!("unexpected {:?}", other),
    }
    assert!(matches!(
        WordBank::parse_normalized_word(3, String::from("abcd")),
        (3, Some(Err(WordleError::WordLength(3))))
    ));
}

#[test]
fn word_bank_counts_lengths_in_bytes() -> Result<(), WordleError> {
    let bank = WordBank::from_iterator(&["ab", "é"])?;
    assert_eq!(bank.word_length(), 2);
    assert_eq!(bank.len(), 2);
    assert!(matches!(
        WordBank::from_iterator(&["é", "abc"]),
        Err(WordleError::WordLength(2))
    ));
    let empty = WordBank::from_iterator(&["", "  "])?;
    assert_eq!(empty.word_length(), 0);
    assert!(empty.is_empty());
    Ok(())
}

#[test]
fn word_tracker_letter_splits_the_words() {
    let words: Vec<String> = vec!["abc", "bcd", "cde", "abc"]
        .into_iter()
        .map(String::from)
        .collect();
    let tracker = WordTracker::new(&words);
    let with: Vec<String> = tracker.words_with_letter('a');
    let without: Vec<String> = tracker.words_without_letter('a');
    assert_eq!(with.len() + without.len(), words.len());
    assert!(with.iter().all(|w| w.contains('a')));
    assert!(without.iter().all(|w| !w.contains('a')));
    assert_eq!(with, vec![String::from("abc"), String::from("abc")]);
}

#[test]
fn word_bank_from_reader_matches_from_iterator() -> Result<(), WordleError> {
    let from_reader = WordBank::from_reader(lines_of("abc\n DEF\n\nghi\n"))?;
    let from_iterator = WordBank::from_iterator(&["abc", " DEF", "", "ghi"])?;
    assert_eq!(from_reader.words(), from_iterator.words());
    assert_eq!(from_reader.word_length(), from_iterator.word_length());
    Ok(())
}

#[test]
fn word_bank_from_reader_stops_at_the_first_read_error() {
    let lines: Vec<Result<String, std::io::Error>> = vec![
        Ok(String::from("abc")),
        Err(std::io::Error::new(std::io::ErrorKind::Other, "unreadable")),
        Ok(String::from("abcd")),
    ];
    assert!(matches!(WordBank::from_reader(lines), Err(WordleError::IoError(_))));
}
