use vstd::prelude::*;

use crate::consistency::{
    lemma_fresh_truthful, lemma_update_keeps_objective, lemma_wrong_guess_ruled_out,
    restrictions_truthful,
};
use crate::data::{lemma_total_letters_uniform, total_letters, WordBank};
use crate::grouped::{
    answered, filtered_words, guess_removed, layout, lemma_guess_removed, lemma_position_in,
    lemma_regrouped_keeps_words, position_in, regrouped, still_held, GroupedWords,
};
use crate::ranking::{
    as_ints, lemma_best_found, lemma_best_is_first_maximum, par_best, par_rank_indices,
    par_score_words, rank_indices, ranked, reduced_best, scanned_best, sequential_best,
};
use crate::scorers::WordScorer;
use crate::restrictions::{word_outcome, WordRestrictions, WordRestrictionsView};
use crate::results::{
    byte_len, byte_results, get_result_for_guess, lemma_all_correct_iff_same,
    lemma_byte_len_ascii, lemma_byte_results_ascii, spec_guess_results, GameData, GameResult,
    GuessResult, LetterResult, TurnData, WordleError,
};

verus! {

/// Guesses words in order to solve a single Wordle.
pub trait Guesser: Sized {
    /// The guesser's state is consistent.
    spec fn inv(&self) -> bool;

    /// [`Self::select_next_guess()`] may leave the guesser as `next` and return `guess`.
    spec fn selects(&self, next: Self, guess: Option<Seq<char>>) -> bool;

    /// [`Self::update()`] with the results `results` of `guess` may leave the guesser as `next`
    /// and return `res`.
    spec fn updates(
        &self,
        next: Self,
        guess: Seq<char>,
        results: Seq<LetterResult>,
        res: Result<(), WordleError>,
    ) -> bool;

    /// The guesser can take in the results `results` of guessing `guess`.
    spec fn takes(&self, guess: Seq<char>, results: Seq<LetterResult>) -> bool;

    /// Taking in results that `objective` gives cannot fail.
    spec fn consistent_with(&self, objective: Seq<char>) -> bool;

    /// `objective` is still among the words that the guesser may guess.
    spec fn knows(&self, objective: Seq<char>) -> bool;

    /// The number of the guesser's possible words.
    spec fn possible_count(&self) -> nat;

    /// Updates this guesser with information about a word.
    fn update(&mut self, result: &GuessResult) -> (res: Result<(), WordleError>)
        requires
            old(self).inv(),
            old(self).takes(result.guess@, result.results@),
            result.results@.len() >= result.guess@.len(),
        ensures
            final(self).inv(),
            old(self).updates(*final(self), result.guess@, result.results@, res),
            forall|o: Seq<char>|
                #![trigger old(self).consistent_with(o)]
                old(self).consistent_with(o) && o.len() == result.guess@.len() && o
                    != result.guess@ && result.results@ == spec_guess_results(o, result.guess@)
                    ==> res is Ok && final(self).consistent_with(o) && (old(self).knows(o)
                    ==> final(self).knows(o)),
    ;

    /// Selects a new guess for the Wordle.
    ///
    /// Returns `None` if no known words are possible given the known restrictions imposed by
    /// previous calls to [`Self::update()`].
    fn select_next_guess(&mut self) -> (guess: Option<String>)
        requires
            old(self).inv(),
        ensures
            final(self).inv(),
            old(self).selects(*final(self), guess_view(guess)),
            forall|o: Seq<char>|
                #![trigger old(self).consistent_with(o)]
                old(self).consistent_with(o) ==> final(self).consistent_with(o) && match guess {
                    Some(g) => g@.len() == o.len() && g@ != o ==> final(self).takes(
                        g@,
                        spec_guess_results(o, g@),
                    ),
                    None => true,
                },
            forall|o: Seq<char>|
                #![trigger old(self).knows(o)]
                old(self).knows(o) ==> final(self).knows(o) && (guess matches Some(g) && g@.len()
                    == o.len()),
    ;

    /// Provides read access to the remaining set of possible words in this guesser. A word that
    /// the guesser knows is among them.
    fn possible_words(&self) -> (words: &[String])
        requires
            self.inv(),
        ensures
            words@.len() == self.possible_count(),
            forall|o: Seq<char>| #[trigger]
                self.knows(o) ==> words@.map_values(|s: String| s@).contains(o),
    ;

    /// Whether the guesser can take in the results `results` of guessing `guess`.
    fn takes_results(&self, guess: &str, results: &Vec<LetterResult>) -> (b: bool)
        requires
            self.inv(),
        ensures
            b == self.takes(guess@, results@),
    ;
}

/// A guess as its letters.
pub open spec fn guess_view(guess: Option<String>) -> Option<Seq<char>> {
    match guess {
        Some(g) => Some(g@),
        None => None,
    }
}

/// Whether every result is `Correct`.
fn all_correct(results: &Vec<LetterResult>) -> (b: bool)
    ensures
        b == forall|i: int| 0 <= i < results@.len() ==> results@[i] == LetterResult::Correct,
{
    let mut i: usize = 0;
    while i < results.len()
        invariant
            i <= results@.len(),
            forall|m: int| 0 <= m < i ==> results@[m] == LetterResult::Correct,
        decreases results@.len() - i,
    {
        if results[i] != LetterResult::Correct {
            return false;
        }
        i = i + 1;
    }
    true
}

/// What a turn of an interactive game comes to.
#[derive(Debug, Clone, Copy, PartialEq, Eq, Structural)]
pub enum TurnOutcome {
    /// Every letter was correct: the game is won, after the given number of guesses.
    Won(u32),
    /// The guesser took in the results, and that was the last round: the game is lost.
    Lost,
    /// The guesser took in the results, and the game goes on.
    Continue,
}

/// Takes in the results that the player gave for the guess of round `round` (counted from 0) of
/// a game of at most `max_rounds` rounds. The game is won if every letter is correct, and the
/// guesser is left as it is; else the guesser learns the results, and the game is lost if that
/// was the last round. An error from the guesser's update is returned.
pub fn interactive_turn<G: Guesser>(
    guesser: &mut G,
    round: u32,
    max_rounds: u32,
    result: &GuessResult,
) -> (outcome: Result<TurnOutcome, WordleError>)
    requires
        old(guesser).inv(),
        result.results@.len() == result.guess@.len(),
        old(guesser).takes(result.guess@, result.results@),
        round < max_rounds,
    ensures
        final(guesser).inv(),
        (forall|i: int|
            0 <= i < result.results@.len() ==> result.results@[i] == LetterResult::Correct)
            ==> outcome == Ok::<TurnOutcome, WordleError>(TurnOutcome::Won((round + 1) as u32))
            && *final(guesser) == *old(guesser),
        !(forall|i: int|
            0 <= i < result.results@.len() ==> result.results@[i] == LetterResult::Correct)
            ==> exists|res: Result<(), WordleError>|
            #[trigger] old(guesser).updates(
                *final(guesser),
                result.guess@,
                result.results@,
                res,
            ) && (res is Err <==> outcome is Err) && (res is Ok ==> outcome == Ok::<
                TurnOutcome,
                WordleError,
            >(
                if round + 1 >= max_rounds {
                    TurnOutcome::Lost
                } else {
                    TurnOutcome::Continue
                },
            )),
{
    if all_correct(&result.results) {
        return Ok(TurnOutcome::Won(round + 1));
    }
    let updated = guesser.update(result);
    match updated {
        Ok(()) => {
            if round + 1 >= max_rounds {
                Ok(TurnOutcome::Lost)
            } else {
                Ok(TurnOutcome::Continue)
            }
        },
        Err(e) => Err(e),
    }
}

/// Every result is `Correct`.
pub open spec fn all_correct_spec(results: Seq<LetterResult>) -> bool {
    forall|i: int| 0 <= i < results.len() ==> results[i] == LetterResult::Correct
}

/// The results of guessing `g` when the word is `w`, as [`get_result_for_guess`] gives them.
pub open spec fn turn_results(w: Seq<char>, g: Seq<char>) -> Seq<LetterResult> {
    byte_results(w, g, byte_len(g) as int)
}

/// `turns` are the turns of a game played by `guesser` against `word`: `states[i]` is the
/// guesser before turn `i`, whose [`Guesser::select_next_guess()`] left it as `picks[i]` and
/// returned the turn's guess, of the word's length in bytes, with the number of `picks[i]`'s
/// possible words recorded; unless the guess's results are all `Correct`, its
/// [`Guesser::update()`] with those results left it as `states[i + 1]` and returned `replies[i]`,
/// which is `Ok`.
pub open spec fn game_prefix<G: Guesser>(
    guesser: G,
    word: Seq<char>,
    turns: Seq<TurnData>,
    states: Seq<G>,
    picks: Seq<G>,
    replies: Seq<Result<(), WordleError>>,
) -> bool {
    &&& states.len() == turns.len() + 1
    &&& picks.len() == turns.len()
    &&& replies.len() == turns.len()
    &&& states[0] == guesser
    &&& forall|i: int|
        #![trigger turns[i]]
        0 <= i < turns.len() ==> {
            let g = turns[i].guess@;
            &&& states[i].selects(picks[i], Some(g))
            &&& byte_len(g) == byte_len(word)
            &&& turns[i].num_possible_words_before_guess == picks[i].possible_count()
            &&& !all_correct_spec(turn_results(word, g)) ==> replies[i] is Ok && picks[i].updates(
                states[i + 1],
                g,
                turn_results(word, g),
                replies[i],
            )
        }
}

/// Why a game stops without an answer after the guesser's selection of `g` left it as `next`:
/// there is no guess, the guess has another length in bytes, or the guesser cannot take in the
/// guess's results, or fails to.
pub open spec fn stopped_unknown<G: Guesser>(word: Seq<char>, next: G, g: Option<Seq<char>>) -> bool {
    match g {
        None => true,
        Some(w) => byte_len(w) != byte_len(word) || {
            let rs = turn_results(word, w);
            &&& !all_correct_spec(rs)
            &&& (rs.len() < w.len() || !next.takes(w, rs) || exists|after: G, e: WordleError|
                #[trigger] next.updates(after, w, rs, Err(e)))
        },
    }
}

/// The guesser takes in true results of the word from the start, and the word and the guesses
/// so far are ASCII, so that their results are letter by letter.
pub open spec fn plays_along<G: Guesser>(guesser: G, word: Seq<char>, turns: Seq<TurnData>) -> bool {
    &&& guesser.consistent_with(word)
    &&& vstd::utf8::is_ascii_chars(word)
    &&& forall|i: int|
        0 <= i < turns.len() ==> vstd::utf8::is_ascii_chars(#[trigger] turns[i].guess@)
}

/// Attempts to guess the given word within the maximum number of guesses, using the given word
/// guesser.
///
/// Each turn, the guesser selects a guess, which is recorded with the number of its possible
/// words; unless every result of the guess is `Correct`, the guesser is updated with the
/// results. The game is won at the first guess whose results are all `Correct` (for ASCII words,
/// the word itself); it is lost after `max_num_guesses` other guesses. It is `UnknownWord` when
/// the guesser selects no guess or a guess of another length in bytes, or cannot take in, or
/// fails to take in, a guess's results. A guesser that takes in true results and knows an ASCII
/// word only ends a game so with a guess that is not ASCII or of another length.
#[verifier::spinoff_prover]
#[verifier::rlimit(40)]
pub fn play_game_with_guesser<G: Guesser>(
    word_to_guess: &str,
    max_num_guesses: u32,
    guesser: G,
) -> (result: GameResult)
    requires
        guesser.inv(),
    ensures
        match result {
            GameResult::Success(data) => {
                &&& 1 <= data.turns@.len() <= max_num_guesses
                &&& all_correct_spec(turn_results(word_to_guess@, data.turns@.last().guess@))
                &&& forall|i: int|
                    0 <= i < data.turns@.len() - 1 ==> !all_correct_spec(
                        turn_results(word_to_guess@, (#[trigger] data.turns@[i]).guess@),
                    )
                &&& exists|states: Seq<G>, picks: Seq<G>, replies: Seq<Result<(), WordleError>>|
                    #[trigger] game_prefix(
                        guesser,
                        word_to_guess@,
                        data.turns@,
                        states,
                        picks,
                        replies,
                    )
            },
            GameResult::Failure(data) => {
                &&& data.turns@.len() == max_num_guesses
                &&& forall|i: int|
                    0 <= i < data.turns@.len() ==> !all_correct_spec(
                        turn_results(word_to_guess@, (#[trigger] data.turns@[i]).guess@),
                    )
                &&& exists|states: Seq<G>, picks: Seq<G>, replies: Seq<Result<(), WordleError>>|
                    #[trigger] game_prefix(
                        guesser,
                        word_to_guess@,
                        data.turns@,
                        states,
                        picks,
                        replies,
                    )
            },
            GameResult::UnknownWord => exists|
                turns: Seq<TurnData>,
                states: Seq<G>,
                picks: Seq<G>,
                replies: Seq<Result<(), WordleError>>,
                next: G,
                g: Option<Seq<char>>,
            |
                #[trigger] game_prefix(guesser, word_to_guess@, turns, states, picks, replies)
                    && turns.len() < max_num_guesses && (forall|i: int|
                    0 <= i < turns.len() ==> !all_correct_spec(
                        turn_results(word_to_guess@, (#[trigger] turns[i]).guess@),
                    )) && #[trigger] states.last().selects(next, g) && stopped_unknown(
                    word_to_guess@,
                    next,
                    g,
                ) && (plays_along(guesser, word_to_guess@, turns) && guesser.knows(
                    word_to_guess@,
                ) ==> (g matches Some(w) && (!vstd::utf8::is_ascii_chars(w) || byte_len(w)
                    != byte_len(word_to_guess@)))),
        },
{
    let ghost objective = word_to_guess@;
    let ghost known = guesser.knows(objective);
    let word_letters = crate::text::chars_of(word_to_guess).len();
    let mut current = guesser;
    let mut turns: Vec<TurnData> = Vec::new();
    let mut round: u32 = 0;
    let ghost mut states: Seq<G> = seq![guesser];
    let ghost mut picks: Seq<G> = Seq::empty();
    let ghost mut replies: Seq<Result<(), WordleError>> = Seq::empty();
    while round < max_num_guesses
        invariant
            objective == word_to_guess@,
            word_letters == objective.len(),
            known == guesser.knows(objective),
            current.inv(),
            round <= max_num_guesses,
            turns@.len() == round,
            forall|i: int|
                0 <= i < turns@.len() ==> !all_correct_spec(
                    turn_results(objective, (#[trigger] turns@[i]).guess@),
                ),
            game_prefix(guesser, objective, turns@, states, picks, replies),
            states.last() == current,
            plays_along(guesser, objective, turns@) ==> current.consistent_with(objective) && (
            known ==> current.knows(objective)),
        decreases max_num_guesses - round,
    {
        let ghost before_guess = current;
        let ghost turns_before = turns@;
        let ghost states_before = states;
        let ghost picks_before = picks;
        let ghost replies_before = replies;
        let ghost along = plays_along(guesser, objective, turns@);
        let maybe_guess = current.select_next_guess();
        proof {
            assert(states.last().selects(current, guess_view(maybe_guess)));
            if along && known {
                assert(before_guess.knows(objective));
            }
        }
        let guess = match maybe_guess {
            None => {
                return GameResult::UnknownWord;
            },
            Some(g) => g,
        };
        let guess_letters = crate::text::chars_of(guess.as_str()).len();
        let num_possible_words_before_guess = current.possible_words().len();
        let result = match get_result_for_guess(word_to_guess, guess.as_str()) {
            Err(_) => {
                return GameResult::UnknownWord;
            },
            Ok(r) => r,
        };
        let ghost rs = result.results@;
        let ghost selected = current;
        proof {
            assert(rs == turn_results(objective, guess@));
            if along && vstd::utf8::is_ascii_chars(guess@) {
                lemma_byte_len_ascii(guess@);
                lemma_byte_len_ascii(objective);
                lemma_byte_results_ascii(objective, guess@);
                lemma_all_correct_iff_same(objective, guess@);
                assert(rs == spec_guess_results(objective, guess@));
                assert(all_correct_spec(rs) <==> objective == guess@) by {
                    if all_correct_spec(rs) {
                        assert forall|i: int| 0 <= i < guess@.len() implies #[trigger] spec_guess_results(
                            objective,
                            guess@,
                        )[i] == LetterResult::Correct by {
                            assert(rs[i] == LetterResult::Correct);
                        }
                    }
                }
            }
        }
        turns.push(TurnData { num_possible_words_before_guess, guess: guess.clone() });
        proof {
            picks = picks.push(current);
            replies = replies.push(Ok(()));
        }
        if all_correct(&result.results) {
            proof {
                states = states.push(current);
                assert forall|i: int|
                    #![trigger turns@[i]]
                    0 <= i < turns@.len() implies {
                    let g = turns@[i].guess@;
                    &&& states[i].selects(picks[i], Some(g))
                    &&& byte_len(g) == byte_len(objective)
                    &&& turns@[i].num_possible_words_before_guess == picks[i].possible_count()
                    &&& !all_correct_spec(turn_results(objective, g)) ==> replies[i] is Ok
                        && picks[i].updates(states[i + 1], g, turn_results(objective, g), replies[i])
                } by {
                    if i < turns_before.len() {
                        assert(turns@[i] == turns_before[i]);
                        assert(states[i] == states_before[i]);
                        assert(states[i + 1] == states_before[i + 1]);
                        assert(picks[i] == picks_before[i]);
                        assert(replies[i] == replies_before[i]);
                    } else {
                        assert(turns@[i].guess@ == guess@);
                    }
                }
                assert(game_prefix(guesser, objective, turns@, states, picks, replies));
                assert(all_correct_spec(turn_results(objective, turns@.last().guess@)));
                assert forall|i: int| 0 <= i < turns@.len() - 1 implies !all_correct_spec(
                    turn_results(objective, (#[trigger] turns@[i]).guess@),
                ) by {
                    assert(turns@[i] == turns_before[i]);
                }
                assert(1 <= turns@.len() <= max_num_guesses);
            }
            let data = GameData { turns };
            proof {
                assert(data.turns@ == turns_before.push(data.turns@.last()));
            }
            return GameResult::Success(data);
        }
        if result.results.len() < guess_letters || !current.takes_results(
            guess.as_str(),
            &result.results,
        ) {
            proof {
                if along && known {
                    if vstd::utf8::is_ascii_chars(guess@) && byte_len(guess@) == byte_len(
                        objective,
                    ) {
                        assert(guess@.len() == objective.len());
                        assert(false);
                    }
                }
            }
            return GameResult::UnknownWord;
        }
        let ghost picked = current;
        let updated = current.update(&result);
        match updated {
            Ok(()) => {
                proof {
                    let ghost prior = states;
                    states = states.push(current);
                    replies = replies_before.push(updated);
                    assert forall|i: int|
                        #![trigger turns@[i]]
                        0 <= i < turns@.len() implies {
                        let g = turns@[i].guess@;
                        &&& states[i].selects(picks[i], Some(g))
                        &&& byte_len(g) == byte_len(objective)
                        &&& turns@[i].num_possible_words_before_guess == picks[i].possible_count()
                        &&& !all_correct_spec(turn_results(objective, g)) ==> replies[i] is Ok
                            && picks[i].updates(states[i + 1], g, turn_results(objective, g), replies[i])
                    } by {
                        if i < turns_before.len() {
                            assert(turns@[i] == turns_before[i]);
                            assert(states[i] == prior[i]);
                            assert(states[i + 1] == prior[i + 1]);
                            assert(picks[i] == picks_before[i]);
                            assert(replies[i] == replies_before[i]);
                        } else {
                            assert(turns@[i].guess@ == guess@);
                            assert(states[i] == prior[i]);
                            assert(picks[i] == selected);
                            assert(replies[i] == updated);
                        }
                    }
                    assert(game_prefix(guesser, objective, turns@, states, picks, replies));
                    if plays_along(guesser, objective, turns@) {
                        assert(vstd::utf8::is_ascii_chars(turns@[turns_before.len() as int].guess@));
                        assert(plays_along(guesser, objective, turns_before)) by {
                            assert forall|i: int| 0 <= i < turns_before.len() implies vstd::utf8::is_ascii_chars(
                                #[trigger] turns_before[i].guess@,
                            ) by {
                                assert(turns@[i] == turns_before[i]);
                            }
                        }
                        assert(guess@ != objective);
                        assert(current.consistent_with(objective));
                    }
                }
            },
            Err(e) => {
                proof {
                    assert(picked.updates(current, guess@, rs, Err(e)));
                    assert(stopped_unknown(objective, selected, Some(guess@)));
                    assert(states_before.last().selects(selected, Some(guess@)));
                    if along && known {
                        if vstd::utf8::is_ascii_chars(guess@) && byte_len(guess@) == byte_len(
                            objective,
                        ) {
                            assert(guess@ != objective);
                            assert(false);
                        }
                    }
                }
                return GameResult::UnknownWord;
            },
        }
        round = round + 1;
    }
    GameResult::Failure(GameData { turns })
}

/// The words of `words` that the restrictions `r` allow, in order.
pub open spec fn words_allowed(words: Seq<Seq<char>>, r: WordRestrictionsView) -> Seq<Seq<char>>
    decreases words.len(),
{
    if words.len() == 0 {
        Seq::empty()
    } else {
        words_allowed(words.drop_last(), r) + if r.allows(words.last()) {
            seq![words.last()]
        } else {
            Seq::empty()
        }
    }
}

/// Every word that [`words_allowed`] keeps is one of the words and is allowed, and every allowed
/// word is kept.
proof fn lemma_words_allowed(words: Seq<Seq<char>>, r: WordRestrictionsView)
    ensures
        forall|w: Seq<char>| #[trigger]
            words_allowed(words, r).contains(w) <==> words.contains(w) && r.allows(w),
    decreases words.len(),
{
    if words.len() > 0 {
        let rest = words.drop_last();
        lemma_words_allowed(rest, r);
        let kept = words_allowed(words, r);
        assert forall|w: Seq<char>| #[trigger]
            kept.contains(w) <==> words.contains(w) && r.allows(w) by {
            if kept.contains(w) {
                let m = choose|m: int| 0 <= m < kept.len() && kept[m] == w;
                if m < words_allowed(rest, r).len() {
                    assert(words_allowed(rest, r)[m] == w);
                    let m2 = choose|m2: int| 0 <= m2 < rest.len() && rest[m2] == w;
                    assert(words[m2] == w);
                } else {
                    assert(w == words.last());
                    assert(words[words.len() - 1] == w);
                }
            }
            if words.contains(w) && r.allows(w) {
                let m = choose|m: int| 0 <= m < words.len() && words[m] == w;
                if m < rest.len() {
                    assert(rest[m] == w);
                    assert(words_allowed(rest, r).contains(w));
                    let m2 = choose|m2: int|
                        0 <= m2 < words_allowed(rest, r).len() && words_allowed(rest, r)[m2] == w;
                    assert(kept[m2] == w);
                } else {
                    assert(kept[kept.len() - 1] == w);
                }
            }
        }
    }
}

/// [`words_allowed`] keeps no more words than it is given, and fewer when one of them is not
/// allowed.
proof fn lemma_words_allowed_len(words: Seq<Seq<char>>, r: WordRestrictionsView)
    ensures
        words_allowed(words, r).len() <= words.len(),
        (exists|w: Seq<char>| words.contains(w) && !r.allows(w)) ==> words_allowed(words, r).len()
            < words.len(),
    decreases words.len(),
{
    if words.len() > 0 {
        let rest = words.drop_last();
        lemma_words_allowed_len(rest, r);
        if exists|w: Seq<char>| words.contains(w) && !r.allows(w) {
            let w = choose|w: Seq<char>| words.contains(w) && !r.allows(w);
            let m = choose|m: int| 0 <= m < words.len() && words[m] == w;
            if m < rest.len() {
                assert(rest[m] == w);
                assert(rest.contains(w));
            }
        }
    }
}

/// A random guesser that knows the word gains from every wrong guess among its possible words:
/// learning the guess's results keeps knowing the word, drops the guess, and so leaves fewer
/// possible words to guess from.
pub proof fn lemma_random_guesser_progress(
    before: RandomGuesser,
    after: RandomGuesser,
    guess: Seq<char>,
    o: Seq<char>,
)
    requires
        before.knows(o),
        guess.len() == o.len(),
        guess != o,
        before.possible_view().contains(guess),
        Ok::<WordRestrictionsView, WordRestrictionsView>(after.known()) == before.known().updated(
            guess,
            spec_guess_results(o, guess),
        ),
        after.possible_view() == words_allowed(before.possible_view(), after.known()),
    ensures
        after.knows(o),
        !after.possible_view().contains(guess),
        after.possible_view().len() < before.possible_view().len(),
{
    lemma_update_keeps_objective(before.known(), o, guess);
    lemma_wrong_guess_ruled_out(before.known(), o, guess);
    lemma_words_allowed(before.possible_view(), after.known());
    lemma_words_allowed_len(before.possible_view(), after.known());
}

/// Calls `rand::random` for a `usize`: any value may come back.
#[verifier::external_body]
fn random_usize() -> usize {
    rand::random::<usize>()
}

/// The word that a drawn number `r` picks from `words`: the one at `r` modulo their number.
pub open spec fn drawn(words: Seq<Seq<char>>, r: usize) -> Seq<char> {
    words[(r as int) % (words.len() as int)]
}

/// The word that a drawn number `r` picks: the one at `r` modulo the number of words.
pub fn pick(words: &[String], r: usize) -> (g: String)
    requires
        words@.len() > 0,
    ensures
        g@ == words@[(r as int) % (words@.len() as int)]@,
{
    let index = r % words.len();
    words[index].clone()
}

/// Guesses at random from the possible words that meet the restrictions.
#[derive(Clone)]
pub struct RandomGuesser {
    possible_words: Vec<String>,
    restrictions: WordRestrictions,
}

impl RandomGuesser {
    /// The words that are still possible, in order.
    pub closed spec fn possible_view(&self) -> Seq<Seq<char>> {
        self.possible_words@.map_values(|s: String| s@)
    }

    /// What is known of the objective.
    pub closed spec fn known(&self) -> WordRestrictionsView {
        self.restrictions@
    }

    /// Constructs a new `RandomGuesser` using the given word bank.
    pub fn new(bank: WordBank) -> (guesser: RandomGuesser)
        requires
            bank.letters_uniform(),
            bank.word_len() <= 255,
        ensures
            guesser.inv(),
            guesser.possible_view() == bank.words_view(),
            guesser.known() == (WordRestrictionsView {
                word_length: bank.word_len() as u8,
                present: Map::empty(),
                not_present: Set::empty(),
            }),
            forall|o: Seq<char>| #[trigger] guesser.consistent_with(o),
            forall|o: Seq<char>| #[trigger]
                guesser.knows(o) <==> bank.words_view().contains(o),
    {
        let ghost words = bank.words_view();
        let (all_words, word_length) = bank.into_parts();
        let guesser = RandomGuesser {
            possible_words: all_words,
            restrictions: WordRestrictions::new(word_length as u8),
        };
        proof {
            assert forall|o: Seq<char>| #[trigger] guesser.consistent_with(o) by {
                if o.len() == word_length {
                    lemma_fresh_truthful(word_length as u8, o);
                }
            }
            assert forall|o: Seq<char>| #[trigger]
                guesser.knows(o) <==> bank.words_view().contains(o) by {
                if words.contains(o) {
                    let m = choose|m: int| 0 <= m < words.len() && words[m] == o;
                    assert(words[m].len() == word_length);
                    lemma_fresh_truthful(word_length as u8, o);
                }
            }
        }
        guesser
    }
}

impl Guesser for RandomGuesser {
    open spec fn inv(&self) -> bool {
        &&& self.restrictions_wf()
        &&& forall|i: int|
            0 <= i < self.possible_view().len() ==> (#[trigger] self.possible_view()[i]).len()
                == self.known().word_length
    }

    open spec fn selects(&self, next: Self, guess: Option<Seq<char>>) -> bool {
        &&& next == *self
        &&& guess is None <==> self.possible_view().len() == 0
        &&& guess matches Some(g) ==> self.possible_view().contains(g) && exists|r: usize|
            g == #[trigger] drawn(self.possible_view(), r)
    }

    open spec fn updates(
        &self,
        next: Self,
        guess: Seq<char>,
        results: Seq<LetterResult>,
        res: Result<(), WordleError>,
    ) -> bool {
        &&& word_outcome(res, next.known(), self.known().updated(guess, results))
        &&& res is Ok ==> next.possible_view() == words_allowed(self.possible_view(), next.known())
        &&& res is Err ==> next.possible_view() == self.possible_view()
    }

    open spec fn takes(&self, guess: Seq<char>, results: Seq<LetterResult>) -> bool {
        guess.len() == self.known().word_length
    }

    open spec fn consistent_with(&self, objective: Seq<char>) -> bool {
        objective.len() != self.known().word_length || restrictions_truthful(self.known(), objective)
    }

    open spec fn knows(&self, objective: Seq<char>) -> bool {
        restrictions_truthful(self.known(), objective) && self.possible_view().contains(objective)
    }

    open spec fn possible_count(&self) -> nat {
        self.possible_view().len()
    }

    fn update(&mut self, result: &GuessResult) -> (res: Result<(), WordleError>)
        ensures
            word_outcome(res, final(self).known(), old(self).known().updated(result.guess@, result.results@)),
            res is Ok ==> final(self).possible_view() == words_allowed(
                old(self).possible_view(),
                final(self).known(),
            ),
            res is Err ==> final(self).possible_view() == old(self).possible_view(),
    {
        let ghost before = self.possible_view();
        let ghost known_before = self.known();
        let r = self.restrictions.update(result);
        if r.is_err() {
            proof {
                assert forall|o: Seq<char>|
                    #![trigger old(self).consistent_with(o)]
                    old(self).consistent_with(o) && o.len() == result.guess@.len() && o
                        != result.guess@ && result.results@ == spec_guess_results(
                        o,
                        result.guess@,
                    ) implies false by {
                    lemma_update_keeps_objective(known_before, o, result.guess@);
                }
            }
            return r;
        }
        let mut kept: Vec<String> = Vec::new();
        let mut i: usize = 0;
        while i < self.possible_words.len()
            invariant
                self.restrictions_wf(),
                before == self.possible_words@.map_values(|s: String| s@),
                i <= before.len(),
                kept@.map_values(|s: String| s@) == words_allowed(
                    before.take(i as int),
                    self.known(),
                ),
                forall|m: int| 0 <= m < kept@.len() ==> (#[trigger] kept@[m])@.len()
                    == self.known().word_length,
                forall|m: int| 0 <= m < before.len() ==> (#[trigger] before[m]).len()
                    == self.known().word_length,
            decreases before.len() - i,
        {
            proof {
                assert(before.take(i + 1).drop_last() =~= before.take(i as int));
                assert(before[i as int] == self.possible_words@[i as int]@);
            }
            if self.restrictions.is_satisfied_by(self.possible_words[i].as_str()) {
                let ghost prior = kept@;
                kept.push(self.possible_words[i].clone());
                proof {
                    assert(kept@.map_values(|s: String| s@) =~= prior.map_values(|s: String| s@).push(
                        before[i as int],
                    ));
                }
            }
            proof {
                assert(kept@.map_values(|s: String| s@) =~= words_allowed(
                    before.take(i + 1),
                    self.known(),
                ));
            }
            i = i + 1;
        }
        proof {
            assert(before.take(i as int) =~= before);
        }
        self.possible_words = kept;
        proof {
            lemma_words_allowed(before, self.known());
            assert forall|o: Seq<char>|
                #![trigger old(self).consistent_with(o)]
                old(self).consistent_with(o) && o.len() == result.guess@.len() && o
                    != result.guess@ && result.results@ == spec_guess_results(
                    o,
                    result.guess@,
                ) implies self.consistent_with(o) && (old(self).knows(o) ==> self.knows(o)) by {
                lemma_update_keeps_objective(known_before, o, result.guess@);
            }
        }
        Ok(())
    }

    fn select_next_guess(&mut self) -> (guess: Option<String>)
        ensures
            *final(self) == *old(self),
            guess is None <==> old(self).possible_view().len() == 0,
            guess matches Some(g) ==> old(self).possible_view().contains(g@) && exists|r: usize|
                g@ == #[trigger] drawn(old(self).possible_view(), r),
    {
        if self.possible_words.len() == 0 {
            return None;
        }
        let random: usize = random_usize();
        let guess = pick(self.possible_words.as_slice(), random);
        proof {
            let index = (random as int) % (self.possible_words@.len() as int);
            assert(self.possible_view()[index] == guess@);
            assert(guess@ == drawn(self.possible_view(), random));
        }
        Some(guess)
    }

    fn possible_words(&self) -> (words: &[String])
        ensures
            words@.map_values(|s: String| s@) == self.possible_view(),
    {
        self.possible_words.as_slice()
    }

    fn takes_results(&self, guess: &str, results: &Vec<LetterResult>) -> (b: bool) {
        self.can_take(guess)
    }
}

impl RandomGuesser {
    /// Whether the guesser can take in the results of guessing `guess` (see [`Guesser::takes`]).
    pub fn can_take(&self, guess: &str) -> (b: bool)
        requires
            self.restrictions_wf(),
        ensures
            b == (guess@.len() == self.known().word_length),
    {
        let letters = crate::text::chars_of(guess);
        letters.len() == self.restrictions.word_length() as usize
    }

    /// The restrictions are well formed.
    pub closed spec fn restrictions_wf(&self) -> bool {
        self.restrictions.wf()
    }
}

/// Indicates which set of words to guess from. See
/// [`MaxScoreGuesser::with_parallelisation_limit()`].
#[derive(Debug, PartialEq, Eq, Clone, Copy, Hash, Structural)]
pub enum GuessFrom {
    /// Choose the next guess from any unguessed word in the whole word list.
    AllUnguessedWords,
    /// Choose the next guess from any possible word based on the current restrictions.
    PossibleWords,
}

/// Represents a guess with a 'score' estimating how useful the guess is. Higher scores are better.
#[derive(Clone, Debug, PartialEq, Eq, PartialOrd, Ord, Hash)]
pub struct ScoredGuess {
    pub score: i64,
    pub guess: String,
}

/// Selects the next guess that maximizes the score according to the owned scorer.
///
/// See [`WordScorer`] for more information about possible scoring algorithms.
#[derive(Clone)]
pub struct MaxScoreGuesser<T> where T: WordScorer + Clone + Sync {
    guess_mode: GuessFrom,
    grouped_words: GroupedWords,
    restrictions: WordRestrictions,
    scorer: T,
    parallelisation_limit: usize,
    word_scores: Option<Vec<i64>>,
}

impl<T> MaxScoreGuesser<T> where T: WordScorer + Clone + Sync {
    /// Which words the guesser guesses from.
    pub closed spec fn mode(&self) -> GuessFrom {
        self.guess_mode
    }

    /// The words, grouped by whether they are possible and whether they were guessed.
    pub closed spec fn grouped(&self) -> GroupedWords {
        self.grouped_words
    }

    /// What is known of the objective.
    pub closed spec fn known(&self) -> WordRestrictionsView {
        self.restrictions@
    }

    /// The scorer.
    pub closed spec fn scorer(&self) -> T {
        self.scorer
    }

    /// The size from which lists are handled in parallel.
    pub closed spec fn limit(&self) -> usize {
        self.parallelisation_limit
    }

    /// The scores computed for the words to score, if they are known.
    pub closed spec fn cached_scores(&self) -> Option<Seq<i64>> {
        match self.word_scores {
            Some(v) => Some(v@),
            None => None,
        }
    }

    /// The restrictions are well formed.
    pub closed spec fn restrictions_wf(&self) -> bool {
        self.restrictions.wf()
    }

    /// The length of the words.
    pub open spec fn word_len(&self) -> nat {
        self.known().word_length as nat
    }

    /// The words to score, in order: the possible words when two or fewer are left or when
    /// guessing from the possible words, else the unguessed words.
    pub open spec fn scored_words(&self) -> Seq<Seq<char>> {
        let g = self.grouped();
        if g.possible_end() <= 2 {
            g.words_view().subrange(0, g.possible_end())
        } else {
            match self.mode() {
                GuessFrom::AllUnguessedWords => g.words_view().subrange(
                    g.guessed_possible_end(),
                    g.unguessed_end(),
                ),
                GuessFrom::PossibleWords => g.words_view().subrange(0, g.possible_end()),
            }
        }
    }

    /// Where the words to score start among the grouped words: the possible words come first,
    /// then (guessing from all unguessed words) the words that can no longer be the answer.
    pub open spec fn scored_offset(&self) -> int {
        let g = self.grouped();
        if g.possible_end() <= 2 || self.mode() == GuessFrom::PossibleWords {
            0
        } else {
            g.guessed_possible_end()
        }
    }

    /// The pick of `select_next_guess` from the cached scores: the rayon reduction above the
    /// parallelisation limit, the sequential scan otherwise.
    pub open spec fn best_pick(&self, scores: Seq<i64>) -> (usize, i64) {
        if self.scored_words().len() > self.limit() {
            reduced_best(scores, scores.len() as int)
        } else {
            scanned_best(scores, scores.len() as int)
        }
    }

    /// The pick of `select_next_guess` has the highest score among the words scored, and a
    /// possible word wins a tie: the words to score list the possible words first, and when one
    /// of them has the highest score, the pick is a possible word.
    pub proof fn lemma_best_pick_prefers_possible(&self)
        requires
            self.inv(),
            self.cached_scores() is Some,
        ensures
            ({
                let scores = self.cached_scores()->Some_0;
                let words = self.scored_words();
                let best = self.best_pick(scores);
                let off = self.scored_offset();
                let g = self.grouped();
                &&& forall|k: int|
                    0 <= k < words.len() ==> #[trigger] words[k] == g.words_view()[off + k]
                &&& best.0 < words.len() ==> {
                    &&& forall|k: int|
                        0 <= k < words.len() ==> #[trigger] scores[k] <= scores[best.0 as int]
                    &&& forall|k: int|
                        0 <= k < words.len() && off + k < g.possible_end() && #[trigger] scores[k]
                            == scores[best.0 as int] ==> off + best.0 < g.possible_end()
                }
            }),
    {
        let scores = self.cached_scores()->Some_0;
        let words = self.scored_words();
        let best = self.best_pick(scores);
        let off = self.scored_offset();
        let g = self.grouped();
        self.lemma_scored_words_len();
        lemma_best_is_first_maximum(scores, scores.len() as int);
        lemma_best_found(scores, scores.len() as int);
        assert forall|k: int| 0 <= k < words.len() implies #[trigger] words[k] == g.words_view()[off
            + k] by {}
        if best.0 < words.len() {
            assert forall|k: int|
                0 <= k < words.len() && off + k < g.possible_end() && #[trigger] scores[k]
                    == scores[best.0 as int] implies off + best.0 < g.possible_end() by {
                assert(!(k < best.0));
            }
        }
    }

    /// The parts other than the cached scores are the same in `self` and `other`.
    pub open spec fn same_but_scores(&self, other: &Self) -> bool {
        &&& self.mode() == other.mode()
        &&& self.grouped() == other.grouped()
        &&& self.known() == other.known()
        &&& self.scorer() == other.scorer()
        &&& self.limit() == other.limit()
        &&& self.restrictions_wf() == other.restrictions_wf()
    }

    /// Constructs a new `MaxScoreGuesser` that will guess the word with the maximum score
    /// according to the given [`WordScorer`]. This will only score and guess from the words in the
    /// `word_bank` according to the given `guess_mode` strategy. Various internal operations may
    /// be parallelised if operating on lists of at least `parallelisation_limit` words.
    pub fn with_parallelisation_limit(
        guess_mode: GuessFrom,
        word_bank: WordBank,
        scorer: T,
        parallelisation_limit: usize,
    ) -> (guesser: MaxScoreGuesser<T>)
        requires
            word_bank.letters_uniform(),
            word_bank.word_len() <= 255,
            word_bank.words_view().len() < u32::MAX,
            word_bank.words_view().len() * word_bank.word_len() <= u32::MAX,
            scorer.ready(word_bank.word_len()),
        ensures
            guesser.inv(),
            guesser.mode() == guess_mode,
            guesser.grouped().words_view() == word_bank.words_view(),
            guesser.grouped().guessed_possible_end() == 0,
            guesser.grouped().possible_end() == word_bank.words_view().len(),
            guesser.grouped().unguessed_end() == word_bank.words_view().len(),
            guesser.known() == (WordRestrictionsView {
                word_length: word_bank.word_len() as u8,
                present: Map::empty(),
                not_present: Set::empty(),
            }),
            guesser.scorer() == scorer,
            guesser.limit() == parallelisation_limit,
            guesser.cached_scores() is None,
            forall|o: Seq<char>| #[trigger]
                guesser.knows(o) <==> word_bank.words_view().contains(o) && scorer.dependable(),
            forall|o: Seq<char>| #[trigger]
                guesser.consistent_with(o) <== scorer.dependable(),
    {
        let word_length = word_bank.word_length();
        let grouped_words = GroupedWords::new(&word_bank);
        let guesser = MaxScoreGuesser {
            guess_mode,
            grouped_words,
            restrictions: WordRestrictions::new(word_length as u8),
            scorer,
            parallelisation_limit,
            word_scores: None,
        };
        proof {
            let words = word_bank.words_view();
            assert forall|o: Seq<char>| #[trigger]
                guesser.knows(o) <==> words.contains(o) && scorer.dependable() by {
                if words.contains(o) {
                    let m = choose|m: int| 0 <= m < words.len() && words[m] == o;
                    assert(words[m].len() == word_length);
                    lemma_fresh_truthful(word_length as u8, o);
                    assert(guesser.grouped().words_view()[m] == o);
                }
                if guesser.grouped().holds_possible_unguessed(o) {
                    let j = choose|j: int|
                        0 <= j < words.len() && #[trigger] guesser.grouped().words_view()[j] == o;
                    assert(words[j] == o);
                }
            }
        }
        guesser
    }

    /// Retrieves the words that need scoring, in the same order as their scores.
    fn words_to_score(&self) -> (words: &[String])
        requires
            self.grouped().wf(),
        ensures
            words@.map_values(|s: String| s@) == self.scored_words(),
    {
        if self.grouped_words.num_possible_words() <= 2 {
            return self.grouped_words.possible_words();
        }
        match self.guess_mode {
            GuessFrom::AllUnguessedWords => self.grouped_words.unguessed_words(),
            GuessFrom::PossibleWords => self.grouped_words.possible_words(),
        }
    }

    /// Every word to score has the guesser's word length.
    proof fn lemma_scored_words_len(&self)
        requires
            self.inv(),
        ensures
            forall|k: int|
                0 <= k < self.scored_words().len() ==> (#[trigger] self.scored_words()[k]).len()
                    == self.word_len(),
            self.scored_words().len() < u32::MAX,
    {
        let g = self.grouped();
        assert forall|k: int| 0 <= k < self.scored_words().len() implies (
        #[trigger] self.scored_words()[k]).len() == self.word_len() by {
            if g.possible_end() <= 2 || self.mode() == GuessFrom::PossibleWords {
                assert(self.scored_words()[k] == g.words_view()[k]);
            } else {
                assert(self.scored_words()[k] == g.words_view()[k + g.guessed_possible_end()]);
            }
        }
    }

    /// Whether the guesser can take in the results of guessing `guess` (see [`Guesser::takes`]).
    pub fn can_take(&self, guess: &str) -> (b: bool)
        requires
            self.inv(),
        ensures
            b == (guess@.len() == self.word_len()),
    {
        let letters = crate::text::chars_of(guess);
        letters.len() == self.restrictions.word_length() as usize
    }

    /// Computes the word scores if they are not known. The result is cached until the guesser's
    /// state changes.
    ///
    /// This can be useful to precompute the scores for the first guess in a base guesser, and then
    /// clone that guesser for each use.
    pub fn compute_scores_if_unknown(&mut self)
        requires
            old(self).inv(),
        ensures
            final(self).inv(),
            final(self).same_but_scores(old(self)),
            final(self).cached_scores() is Some,
            old(self).cached_scores() is Some ==> final(self).cached_scores() == old(self).cached_scores(),
    {
        if self.word_scores.is_none() {
            proof {
                self.lemma_scored_words_len();
            }
            let words = self.words_to_score();
            let ghost scored = self.scored_words();
            proof {
                assert forall|k: int| 0 <= k < words@.len() implies self.scorer.ready(
                    (#[trigger] words@[k])@.len(),
                ) by {
                    assert(words@[k]@ == scored[k]);
                }
            }
            let scores = if words.len() >= self.parallelisation_limit {
                par_score_words(&self.scorer, words)
            } else {
                let mut scores: Vec<i64> = Vec::new();
                let mut k: usize = 0;
                while k < words.len()
                    invariant
                        words@.map_values(|s: String| s@) == scored,
                        forall|m: int|
                            0 <= m < scored.len() ==> (#[trigger] scored[m]).len()
                                == self.word_len(),
                        self.scorer.ready(self.word_len()),
                        k <= words@.len(),
                        scores@.len() == k,
                        forall|m: int|
                            0 <= m < k ==> #[trigger] scores@[m] == self.scorer.score_of(
                                scored[m],
                            ) && (self.scorer.dependable() ==> scores@[m] > i64::MIN),
                    decreases words@.len() - k,
                {
                    proof {
                        assert(words@[k as int]@ == scored[k as int]);
                    }
                    scores.push(self.scorer.score_word(&words[k]));
                    k = k + 1;
                }
                scores
            };
            proof {
                assert forall|m: int| 0 <= m < scores@.len() implies #[trigger] scores@[m]
                    == self.scorer.score_of(scored[m]) && (self.scorer.dependable() ==> scores@[m]
                    > i64::MIN) by {
                    assert(words@[m]@ == scored[m]);
                }
            }
            self.word_scores = Some(scores);
        }
    }

    /// With two or fewer possible words left, or when guessing from the possible words only, the
    /// guess that [`Guesser::select_next_guess()`] picks is one of the possible words, and there
    /// is a guess exactly when some word is still possible.
    pub proof fn lemma_pick_is_possible(&self, next: Self, guess: Option<Seq<char>>)
        requires
            self.inv(),
            self.selects(next, guess),
            self.grouped().possible_end() <= 2 || self.mode() == GuessFrom::PossibleWords,
        ensures
            guess is Some <==> self.grouped().possible_end() > 0,
            guess matches Some(g) ==> self.grouped().words_view().subrange(
                0,
                self.grouped().possible_end(),
            ).contains(g),
    {
        let g = self.grouped();
        let possible = g.words_view().subrange(0, g.possible_end());
        assert(next.scored_words() == possible);
        if let Some(w) = guess {
            let best = next.best_pick(next.cached_scores()->Some_0);
            assert(possible[best.0 as int] == w);
        }
    }

    /// Returns up-to the top `n` guesses for the wordle, based on the current state: the words to
    /// score, ranked by descending score, and by their order among the words to score where
    /// scores are equal.
    ///
    /// Returns an empty vector if no known words are possible given the known restrictions imposed
    /// by previous calls to [`Guesser::update()`].
    pub fn select_top_n_guesses(&mut self, n: usize) -> (guesses: Vec<ScoredGuess>)
        requires
            old(self).inv(),
            forall|k: int|
                0 <= k < old(self).scored_words().len() ==> old(self).scorer().score_of(
                    #[trigger] old(self).scored_words()[k],
                ) > i64::MIN,
        ensures
            final(self).inv(),
            final(self).same_but_scores(old(self)),
            final(self).cached_scores() matches Some(scores) && exists|order: Seq<int>|
                #[trigger] ranked(order, scores) && guesses@.len() == (if n < scores.len() {
                    n as int
                } else {
                    scores.len() as int
                }) && forall|x: int|
                    0 <= x < guesses@.len() ==> (#[trigger] guesses@[x]).score == scores[order[x]]
                        && guesses@[x].guess@ == final(self).scored_words()[order[x]],
            old(self).grouped().possible_end() <= 2 || old(self).mode() == GuessFrom::PossibleWords
                ==> guesses@.len() == (if n < old(self).grouped().possible_end() {
                n as int
            } else {
                old(self).grouped().possible_end()
            }) && forall|x: int|
                0 <= x < guesses@.len() ==> old(self).grouped().words_view().subrange(
                    0,
                    old(self).grouped().possible_end(),
                ).contains(#[trigger] guesses@[x].guess@),
    {
        self.compute_scores_if_unknown();
        proof {
            self.lemma_scored_words_len();
        }
        let scores: &Vec<i64> = match &self.word_scores {
            Some(v) => v,
            None => {
                proof {
                    assert(false);
                }
                return Vec::new();
            },
        };
        let words = self.words_to_score();
        let order = if scores.len() >= self.parallelisation_limit {
            par_rank_indices(scores.as_slice())
        } else {
            rank_indices(scores.as_slice())
        };
        let ghost order_ints = as_ints(order@);
        let count: usize = if n < scores.len() {
            n
        } else {
            scores.len()
        };
        let mut guesses: Vec<ScoredGuess> = Vec::new();
        let mut x: usize = 0;
        while x < count
            invariant
                ranked(order_ints, scores@),
                order_ints == as_ints(order@),
                words@.map_values(|s: String| s@) == self.scored_words(),
                scores@.len() == self.scored_words().len(),
                count <= scores@.len(),
                x <= count,
                guesses@.len() == x,
                forall|m: int|
                    0 <= m < x ==> (#[trigger] guesses@[m]).score == scores@[order_ints[m]]
                        && guesses@[m].guess@ == self.scored_words()[order_ints[m]],
            decreases count - x,
        {
            let index = order[x];
            proof {
                assert(order_ints[x as int] == index);
                assert(0 <= order_ints[x as int] < scores@.len());
                assert(words@[index as int]@ == self.scored_words()[index as int]);
            }
            guesses.push(ScoredGuess { score: scores[index], guess: words[index].clone() });
            x = x + 1;
        }
        proof {
            let ws = self.scored_words();
            assert forall|m: int| 0 <= m < guesses@.len() implies ws.contains(
                #[trigger] guesses@[m].guess@,
            ) by {
                assert(0 <= order_ints[m] < ws.len());
                assert(ws[order_ints[m]] == guesses@[m].guess@);
            }
        }
        guesses
    }
}

/// `after` holds the words of `before` regrouped by what the restrictions `r` allow: each
/// possible word that they do not allow became impossible (see [`regrouped`]).
pub open spec fn filtered_by(before: GroupedWords, after: GroupedWords, r: WordRestrictionsView) -> bool {
    &&& exists|perm: Seq<int>, kept: Seq<bool>|
        #[trigger] regrouped(before, after, perm, kept) && kept.len() == before.possible_end()
            && forall|k: int|
            0 <= k < before.possible_end() ==> kept[k] == r.allows(#[trigger] before.words_view()[k])
    &&& layout(after) == filtered_words(before, allowed_flags(before, r))
}

/// For each possible word of `before`, whether the restrictions allow it.
pub open spec fn allowed_flags(before: GroupedWords, r: WordRestrictionsView) -> Seq<bool> {
    Seq::new(before.possible_end() as nat, |k: int| r.allows(before.words_view()[k]))
}

impl<T> Guesser for MaxScoreGuesser<T> where T: WordScorer + Clone + Sync {
    open spec fn inv(&self) -> bool {
        let g = self.grouped();
        let n = g.words_view().len();
        let l = self.word_len();
        &&& g.wf()
        &&& self.restrictions_wf()
        &&& forall|j: int| 0 <= j < n ==> (#[trigger] g.words_view()[j]).len() == l
        &&& n < u32::MAX
        &&& n * l <= u32::MAX
        &&& self.scorer().ready(l)
        &&& match self.cached_scores() {
            Some(scores) => scores.len() == self.scored_words().len() && forall|k: int|
                0 <= k < scores.len() ==> #[trigger] scores[k] == self.scorer().score_of(
                    self.scored_words()[k],
                ) && (self.scorer().dependable() ==> scores[k] > i64::MIN),
            None => true,
        }
    }

    open spec fn selects(&self, next: Self, guess: Option<Seq<char>>) -> bool {
        &&& next.same_but_scores(self)
        &&& next.cached_scores() matches Some(scores) && ({
            let words = next.scored_words();
            let best = next.best_pick(scores);
            &&& guess is Some <==> words.len() > 0
            &&& match guess {
                None => best.0 > words.len(),
                Some(g) => best.0 < words.len() && g == words[best.0 as int],
            }
        })
    }

    open spec fn updates(
        &self,
        next: Self,
        guess: Seq<char>,
        results: Seq<LetterResult>,
        res: Result<(), WordleError>,
    ) -> bool {
        &&& next.mode() == self.mode()
        &&& next.limit() == self.limit()
        &&& next.cached_scores() is None
        &&& exists|removed: GroupedWords|
            #[trigger] guess_removed(self.grouped(), removed, guess) && match self.known().updated(
                guess,
                results,
            ) {
                Err(partial) => res matches Err(WordleError::InvalidResults) && next.known()
                    == partial && next.grouped() == removed && next.scorer() == self.scorer(),
                Ok(updated) => next.known() == updated && filtered_by(
                    removed,
                    next.grouped(),
                    updated,
                ) && self.scorer().updates_to(
                    next.scorer(),
                    res,
                    guess,
                    updated,
                    next.grouped().words_view().subrange(0, next.grouped().possible_end()),
                ),
            }
    }

    open spec fn takes(&self, guess: Seq<char>, results: Seq<LetterResult>) -> bool {
        guess.len() == self.word_len()
    }

    open spec fn consistent_with(&self, objective: Seq<char>) -> bool {
        objective.len() != self.word_len() || (restrictions_truthful(self.known(), objective)
            && self.scorer().dependable())
    }

    open spec fn knows(&self, objective: Seq<char>) -> bool {
        &&& restrictions_truthful(self.known(), objective)
        &&& self.grouped().holds_possible_unguessed(objective)
        &&& self.scorer().dependable()
    }

    open spec fn possible_count(&self) -> nat {
        self.grouped().possible_end() as nat
    }

    fn update(&mut self, result: &GuessResult) -> (res: Result<(), WordleError>)
        ensures
            final(self).mode() == old(self).mode(),
            final(self).limit() == old(self).limit(),
            final(self).cached_scores() is None,
            exists|removed: GroupedWords|
                #[trigger] guess_removed(old(self).grouped(), removed, result.guess@) && match old(self).known().updated(result.guess@, result.results@) {
                    Err(partial) => res matches Err(WordleError::InvalidResults) && final(self).known() == partial && final(self).grouped() == removed && final(self).scorer() == old(self).scorer(),
                    Ok(updated) => final(self).known() == updated && filtered_by(
                        removed,
                        final(self).grouped(),
                        updated,
                    ) && old(self).scorer().updates_to(
                        final(self).scorer(),
                        res,
                        result.guess@,
                        updated,
                        final(self).grouped().words_view().subrange(
                            0,
                            final(self).grouped().possible_end(),
                        ),
                    ),
                },
    {
        let ghost before = *self;
        let ghost l = self.word_len();
        let ghost guess = result.guess@;
        self.word_scores = None;
        self.grouped_words.remove_guess_if_present(result.guess);
        let ghost removed = self.grouped_words;
        proof {
            lemma_guess_removed(before.grouped(), removed, guess);
            assert(crate::grouped::all_of_length(before.grouped().words_view(), l));
        }
        let ghost known_before = self.restrictions@;
        let r = self.restrictions.update(result);
        if r.is_err() {
            proof {
                assert forall|o: Seq<char>|
                    #![trigger before.consistent_with(o)]
                    before.consistent_with(o) && o.len() == guess.len() && o != guess
                        && result.results@ == spec_guess_results(o, guess) implies false by {
                    lemma_update_keeps_objective(known_before, o, guess);
                }
                assert(guess_removed(before.grouped(), removed, guess));
            }
            return r;
        }
        let restrictions = &self.restrictions;
        let allows_word = |word: &str| -> (allowed: bool)
            requires
                restrictions.wf(),
            ensures
                allowed == restrictions@.allows(word@),
            { restrictions.is_satisfied_by(word) };
        self.grouped_words.filter_possible_words(allows_word);
        let ghost filtered = self.grouped_words;
        proof {
            assert(exists|perm: Seq<int>, kept: Seq<bool>|
                #[trigger] regrouped(removed, filtered, perm, kept) && kept.len()
                    == removed.possible_end() && forall|k: int|
                    0 <= k < removed.possible_end() ==> #[trigger] answered(
                        allows_word,
                        removed.words_view()[k],
                        kept[k],
                    ));
            let (perm, kept) = choose|perm: Seq<int>, kept: Seq<bool>|
                #[trigger] regrouped(removed, filtered, perm, kept) && kept.len()
                    == removed.possible_end() && forall|k: int|
                    0 <= k < removed.possible_end() ==> #[trigger] answered(
                        allows_word,
                        removed.words_view()[k],
                        kept[k],
                    );
            lemma_regrouped_keeps_words(removed, filtered, perm, kept);
            assert forall|k: int| 0 <= k < removed.possible_end() implies kept[k]
                == self.restrictions@.allows(#[trigger] removed.words_view()[k]) by {
                assert(answered(allows_word, removed.words_view()[k], kept[k]));
                let s = choose|s: &str|
                    s@ == removed.words_view()[k] && #[trigger] call_ensures(
                        allows_word,
                        (s,),
                        kept[k],
                    );
            }
            let flags = choose|flags: Seq<bool>|
                flags.len() == removed.possible_end() && (forall|k: int|
                    0 <= k < removed.possible_end() ==> #[trigger] answered(
                        allows_word,
                        removed.words_view()[k],
                        flags[k],
                    )) && layout(filtered) == #[trigger] filtered_words(removed, flags);
            assert forall|k: int| 0 <= k < removed.possible_end() implies flags[k]
                == #[trigger] allowed_flags(removed, self.restrictions@)[k] by {
                assert(answered(allows_word, removed.words_view()[k], flags[k]));
                let s = choose|s: &str|
                    s@ == removed.words_view()[k] && #[trigger] call_ensures(
                        allows_word,
                        (s,),
                        flags[k],
                    );
            }
            assert(flags =~= allowed_flags(removed, self.restrictions@));
            assert(filtered_by(removed, filtered, self.restrictions@));
            assert forall|j: int| 0 <= j < filtered.words_view().len() implies (
            #[trigger] filtered.words_view()[j]).len() == l by {
                assert(filtered.words_view()[j] == removed.words_view()[perm[j]]);
            }
            assert forall|o: Seq<char>|
                #![trigger before.consistent_with(o)]
                before.consistent_with(o) && o.len() == guess.len() && result.results@
                    == spec_guess_results(o, guess) && o != guess implies restrictions_truthful(
                self.restrictions@,
                o,
            ) by {
                lemma_update_keeps_objective(known_before, o, guess);
            }
            assert forall|o: Seq<char>|
                #![trigger before.knows(o)]
                before.knows(o) && o.len() == guess.len() && result.results@
                    == spec_guess_results(o, guess) && o != guess implies #[trigger]
                filtered.holds_possible_unguessed(o) && restrictions_truthful(self.restrictions@, o) by {
                lemma_update_keeps_objective(known_before, o, guess);
                assert(removed.holds_possible_unguessed(o));
                let k = choose|k: int|
                    removed.guessed_possible_end() <= k < removed.possible_end()
                        && #[trigger] removed.words_view()[k] == o;
                assert(answered(allows_word, removed.words_view()[k], kept[k]));
                let s = choose|s: &str|
                    s@ == removed.words_view()[k] && #[trigger] call_ensures(
                        allows_word,
                        (s,),
                        kept[k],
                    );
                assert(kept[k]);
                assert(still_held(removed, filtered, kept, k));
                let j = choose|j: int|
                    0 <= j < filtered.words_view().len() && #[trigger] filtered.words_view()[j]
                        == removed.words_view()[k] && filtered.section(j) == crate::grouped::filtered_section(
                        removed.section(k),
                        kept[k],
                    );
                assert(filtered.words_view()[j] == o);
            }
        }
        let possible = self.grouped_words.possible_words();
        proof {
            let words = possible@.map_values(|s: String| s@);
            assert forall|i: int| 0 <= i < words.len() implies (#[trigger] words[i]).len() == l by {
                assert(words[i] == filtered.words_view()[i]);
            }
            lemma_total_letters_uniform(words, l);
            assert(words.len() * l <= filtered.words_view().len() * l) by (nonlinear_arith)
                requires
                    words.len() <= filtered.words_view().len(),
            ;
        }
        let scored = self.scorer.update(result.guess, &self.restrictions, possible);
        proof {
            assert(guess_removed(before.grouped(), removed, guess));
            assert(self.scorer().ready(l));
            assert forall|o: Seq<char>|
                #![trigger before.consistent_with(o)]
                before.consistent_with(o) && o.len() == guess.len() && o != guess
                    && result.results@ == spec_guess_results(o, guess) implies scored is Ok
                && self.consistent_with(o) && (before.knows(o) ==> self.knows(o)) by {
                if before.knows(o) {
                    assert(filtered.holds_possible_unguessed(o));
                }
            }
        }
        scored
    }

    fn select_next_guess(&mut self) -> (guess: Option<String>)
        ensures
            final(self).same_but_scores(old(self)),
            final(self).cached_scores() matches Some(scores) && ({
                let words = final(self).scored_words();
                let best = final(self).best_pick(scores);
                &&& guess is Some <==> words.len() > 0
                &&& match guess {
                    None => best.0 > words.len(),
                    Some(g) => best.0 < words.len() && g@ == words[best.0 as int],
                }
            }),
            old(self).grouped().possible_end() <= 2 || old(self).mode() == GuessFrom::PossibleWords
                ==> match guess {
                Some(g) => old(self).grouped().words_view().subrange(
                    0,
                    old(self).grouped().possible_end(),
                ).contains(g@),
                None => old(self).grouped().possible_end() == 0,
            },
    {
        self.compute_scores_if_unknown();
        proof {
            self.lemma_scored_words_len();
        }
        let word_scores: &Vec<i64> = match &self.word_scores {
            Some(v) => v,
            None => {
                proof {
                    assert(false);
                }
                return None;
            },
        };
        let words_to_score = self.words_to_score();
        proof {
            assert(word_scores@.len() == self.scored_words().len());
        }
        let (best_index, _) = if words_to_score.len() > self.parallelisation_limit {
            par_best(word_scores.as_slice())
        } else {
            sequential_best(word_scores.as_slice())
        };
        proof {
            lemma_best_found(word_scores@, word_scores@.len() as int);
        }
        let guess = if best_index > words_to_score.len() {
            None
        } else {
            Some(words_to_score[best_index].clone())
        };
        proof {
            let g = self.grouped();
            let ws = self.scored_words();
            assert forall|o: Seq<char>|
                #![trigger old(self).knows(o)]
                old(self).knows(o) implies guess is Some by {
                let j = choose|j: int|
                    g.guessed_possible_end() <= j < g.possible_end() && #[trigger] g.words_view()[j]
                        == o;
                let k = if g.possible_end() <= 2 || self.mode() == GuessFrom::PossibleWords {
                    j
                } else {
                    j - g.guessed_possible_end()
                };
                assert(ws[k] == o);
                assert(word_scores@[k] > i64::MIN);
            }
            assert forall|o: Seq<char>|
                #![trigger old(self).consistent_with(o)]
                old(self).consistent_with(o) implies match guess {
                    Some(w) => w@.len() == o.len() && w@ != o ==> self.takes(
                        w@,
                        spec_guess_results(o, w@),
                    ),
                    None => true,
                } by {
                if let Some(w) = guess {
                    if w@.len() == o.len() && w@ != o {
                        assert(w@ == ws[best_index as int]);
                        let j = choose|j: int|
                            g.guessed_possible_end() <= j < g.possible_end()
                                && #[trigger] g.words_view()[j] == o;
                        lemma_position_in(
                            g.words_view(),
                            g.guessed_possible_end(),
                            g.unguessed_end(),
                            w@,
                        );
                    }
                }
            }
        }
        guess
    }

    fn possible_words(&self) -> (words: &[String])
        ensures
            words@.map_values(|s: String| s@) == self.grouped().words_view().subrange(
                0,
                self.grouped().possible_end(),
            ),
    {
        let words = self.grouped_words.possible_words();
        proof {
            let g = self.grouped();
            assert(words@.map_values(|s: String| s@).len() == words@.len());
            assert forall|o: Seq<char>| #[trigger]
                self.knows(o) implies words@.map_values(|s: String| s@).contains(o) by {
                let j = choose|j: int|
                    g.guessed_possible_end() <= j < g.possible_end() && #[trigger] g.words_view()[j]
                        == o;
                assert(words@.map_values(|s: String| s@)[j] == o);
            }
        }
        words
    }

    fn takes_results(&self, guess: &str, results: &Vec<LetterResult>) -> (b: bool) {
        self.can_take(guess)
    }
}

} // verus!
