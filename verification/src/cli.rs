use vstd::prelude::*;

use crate::engine::GuessFrom;
use crate::results::LetterResult;
use crate::text::{chars_of, lowercased, to_lowercase, trim, trimmed};

verus! {

/// The guessing algorithms that the command line offers.
#[derive(Debug, Clone, Copy, PartialEq, Eq, Structural)]
pub enum GuesserImpl {
    Random,
    UniqueLetterFrequency,
    LocatedLetters,
    ApproximateEliminations,
    MaxEliminations,
    MaxComboEliminations,
}

/// The text that lists the guesser names the command line accepts.
pub open spec fn guesser_names_help() -> Seq<char> {
    "Valid guesser implementations are: 'approx_eliminations', 'located_letters', 'max_eliminations', 'max_combo_eliminations', 'random', 'unique_letters', and 'unique_unguessed_letters'."@
}

/// The guesser that a (trimmed, lower-case) name stands for.
pub open spec fn guesser_named(name: Seq<char>) -> Option<GuesserImpl> {
    if name == "random"@ {
        Some(GuesserImpl::Random)
    } else if name == "unique_letters"@ {
        Some(GuesserImpl::UniqueLetterFrequency)
    } else if name == "located_letters"@ {
        Some(GuesserImpl::LocatedLetters)
    } else if name == "approx_eliminations"@ {
        Some(GuesserImpl::ApproximateEliminations)
    } else if name == "max_eliminations"@ {
        Some(GuesserImpl::MaxEliminations)
    } else if name == "max_combo_eliminations"@ {
        Some(GuesserImpl::MaxComboEliminations)
    } else {
        None
    }
}

/// The set of words to guess from that a (trimmed, lower-case) name stands for.
pub open spec fn guess_from_named(name: Seq<char>) -> Option<GuessFrom> {
    if name == "all"@ || name == ""@ {
        Some(GuessFrom::AllUnguessedWords)
    } else if name == "possible"@ {
        Some(GuessFrom::PossibleWords)
    } else {
        None
    }
}

/// Whether `s` reads `text`.
fn reads(s: &String, text: &str) -> (b: bool)
    ensures
        b == (s@ == text@),
{
    *s == text.to_owned()
}

/// Reads a trimmed, lower-case name as the name of a guesser.
pub fn guesser_impl_named(name: &str) -> (res: Result<GuesserImpl, String>)
    ensures
        match guesser_named(name@) {
            Some(g) => res == Ok::<GuesserImpl, String>(g),
            None => res matches Err(message) && message@ == guesser_names_help(),
        },
{
    let name = name.to_owned();
    if reads(&name, "random") {
        Ok(GuesserImpl::Random)
    } else if reads(&name, "unique_letters") {
        Ok(GuesserImpl::UniqueLetterFrequency)
    } else if reads(&name, "located_letters") {
        Ok(GuesserImpl::LocatedLetters)
    } else if reads(&name, "approx_eliminations") {
        Ok(GuesserImpl::ApproximateEliminations)
    } else if reads(&name, "max_eliminations") {
        Ok(GuesserImpl::MaxEliminations)
    } else if reads(&name, "max_combo_eliminations") {
        Ok(GuesserImpl::MaxComboEliminations)
    } else {
        Err(
            "Valid guesser implementations are: 'approx_eliminations', 'located_letters', 'max_eliminations', 'max_combo_eliminations', 'random', 'unique_letters', and 'unique_unguessed_letters'.".to_owned(),
        )
    }
}

/// Parses the name of a guesser, ignoring surrounding whitespace and case.
pub fn parse_guesser_impl(s: &str) -> (res: Result<GuesserImpl, String>)
    ensures
        match guesser_named(lowercased(trimmed(s@))) {
            Some(g) => res == Ok::<GuesserImpl, String>(g),
            None => res matches Err(message) && message@ == guesser_names_help(),
        },
{
    let name = to_lowercase(trim(s));
    guesser_impl_named(name.as_str())
}

/// Reads a trimmed, lower-case name as the words to guess from: `all` (or nothing) or
/// `possible`.
pub fn guess_from_name(name: &str) -> (res: Option<GuessFrom>)
    ensures
        res == guess_from_named(name@),
{
    let name = name.to_owned();
    if reads(&name, "all") || reads(&name, "") {
        Some(GuessFrom::AllUnguessedWords)
    } else if reads(&name, "possible") {
        Some(GuessFrom::PossibleWords)
    } else {
        None
    }
}

/// Parses which words to guess from, ignoring surrounding whitespace and case: `all` (or
/// nothing) or `possible`.
pub fn parse_guess_from(s: &str) -> (res: Option<GuessFrom>)
    ensures
        res == guess_from_named(lowercased(trimmed(s@))),
{
    let name = to_lowercase(trim(s));
    guess_from_name(name.as_str())
}

/// Why a line could not be read as the results of a guess.
#[derive(Debug, Clone, Copy, PartialEq, Eq, Structural)]
pub enum ResultsInputError {
    /// The line holds another number of letters than the guess.
    LengthMismatch,
    /// The line holds a letter other than `.`, `y` and `g`.
    InvalidLetter,
}

/// The result that a letter of the input stands for: `.` for not present, `y` for present
/// elsewhere, `g` for correct.
pub open spec fn letter_result_of(c: char) -> Option<LetterResult> {
    if c == '.' {
        Some(LetterResult::NotPresent)
    } else if c == 'y' {
        Some(LetterResult::PresentNotHere)
    } else if c == 'g' {
        Some(LetterResult::Correct)
    } else {
        None
    }
}

/// What reading a (trimmed) input line as the results of `guess` gives.
pub open spec fn read_results(guess: Seq<char>, input: Seq<char>) -> Result<
    Seq<LetterResult>,
    ResultsInputError,
> {
    if guess.len() != input.len() {
        Err(ResultsInputError::LengthMismatch)
    } else if exists|i: int| 0 <= i < input.len() && letter_result_of(#[trigger] input[i]) is None {
        Err(ResultsInputError::InvalidLetter)
    } else {
        Ok(Seq::new(input.len(), |i: int| letter_result_of(input[i])->Some_0))
    }
}

/// Reads a line typed by the player as the results of `guess`: one of `.`, `y` and `g` for each
/// letter, ignoring surrounding whitespace.
pub fn parse_letter_results(guess: &str, line: &str) -> (res: Result<
    Vec<LetterResult>,
    ResultsInputError,
>)
    ensures
        match read_results(guess@, trimmed(line@)) {
            Ok(results) => res matches Ok(r) && r@ == results,
            Err(e) => res == Err::<Vec<LetterResult>, ResultsInputError>(e),
        },
{
    let input = chars_of(trim(line));
    let guess_letters = chars_of(guess);
    if guess_letters.len() != input.len() {
        return Err(ResultsInputError::LengthMismatch);
    }
    let mut results: Vec<LetterResult> = Vec::new();
    let mut i: usize = 0;
    while i < input.len()
        invariant
            input@ == trimmed(line@),
            guess_letters@ == guess@,
            guess_letters@.len() == input@.len(),
            i <= input@.len(),
            results@.len() == i,
            forall|m: int|
                0 <= m < i ==> letter_result_of(#[trigger] input@[m]) == Some(results@[m]),
        decreases input@.len() - i,
    {
        let c = input[i];
        let r = if c == '.' {
            LetterResult::NotPresent
        } else if c == 'y' {
            LetterResult::PresentNotHere
        } else if c == 'g' {
            LetterResult::Correct
        } else {
            proof {
                assert(letter_result_of(input@[i as int]) is None);
            }
            return Err(ResultsInputError::InvalidLetter);
        };
        results.push(r);
        i = i + 1;
    }
    proof {
        assert(results@ =~= Seq::new(input@.len(), |m: int| letter_result_of(input@[m])->Some_0));
    }
    Ok(results)
}

} // verus!
