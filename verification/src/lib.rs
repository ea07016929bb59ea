mod counting;
mod ordered;
mod ranking;
mod text;
pub mod benchmark;
pub mod cli;
pub mod data;
pub mod engine;
pub mod grouped;
pub mod results;
pub mod restrictions;
pub mod scorers;
pub mod trie;
pub mod consistency;

pub use data::{LocatedLetter, WordBank, WordCounter, WordTracker};
pub use engine::{
    interactive_turn, play_game_with_guesser, GuessFrom, Guesser, MaxScoreGuesser, RandomGuesser,
    ScoredGuess, TurnOutcome,
};
pub use grouped::GroupedWords;
pub use restrictions::{LetterRestriction, LocatedLetterState, PresentLetter, WordRestrictions};
pub use results::{
    get_result_for_guess, CompressedGuessResult, GameData, GameResult, GuessResult, LetterResult,
    TurnData, WordleError, MAX_LETTERS_IN_COMPRESSED_GUESS_RESULT,
};
pub use scorers::{
    best_combo_elimination_total, expected_elimination_total, LocatedLettersScorer,
    MaxUniqueLetterFrequencyScorer, WordScorer,
};
