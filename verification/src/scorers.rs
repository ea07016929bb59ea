use std::collections::BTreeSet;
use std::collections::HashMap;
use vstd::prelude::*;

use crate::data::{
    contains_char, letter_count, letter_key, located_count, seen_before, total_letters,
    LocatedLetter, WordBank, WordCounter,
};
use crate::restrictions::{LetterRestriction, WordRestrictions, WordRestrictionsView};
use crate::results::{
    byte_len, byte_results, get_result_for_guess, packed_results, spec_guess_results,
    CompressedGuessResult, WordleError,
};
use crate::text::chars_of;

verus! {

broadcast use {
    vstd::std_specs::btree::group_btree_axioms,
    vstd::std_specs::hash::group_hash_axioms,
    vstd::laws_cmp::group_laws_cmp,
    vstd::utf8::char_is_scalar,
};

/// Gives words a score, where the maximum score indicates the best guess.
///
/// Each implementation has different pros and cons, but generally you want to use either a
/// scorer that maximizes the expected eliminations to guess the word in the fewest number of
/// guesses if you can afford the computation/time cost, or the [`LocatedLettersScorer`] for decent
/// guessing performance at considerably lower computational cost.
pub trait WordScorer: Sized {
    /// The scorer can score words of length `word_length`. A scorer that does not say so is
    /// ready for none.
    open spec fn ready(&self, word_length: nat) -> bool {
        false
    }

    /// The score that the scorer gives `word` in its current state. A scorer that does not say
    /// what it gives promises the lowest score.
    open spec fn score_of(&self, word: Seq<char>) -> i64 {
        i64::MIN
    }

    /// The scorer's updates succeed, and every score it gives is above `i64::MIN`. A scorer that
    /// does not say so is not dependable.
    open spec fn dependable(&self) -> bool {
        false
    }

    /// `update`, given the latest guess, the restrictions and the possible words, may leave the
    /// scorer as `next` and return `res`. A scorer that does not say so promises nothing of them.
    open spec fn updates_to(
        &self,
        next: Self,
        res: Result<(), WordleError>,
        latest_guess: Seq<char>,
        restrictions: WordRestrictionsView,
        possible_words: Seq<Seq<char>>,
    ) -> bool {
        true
    }

    /// Updates the scorer with the latest guess, the updated set of restrictions, and the updated
    /// list of possible words.
    fn update(
        &mut self,
        latest_guess: &str,
        restrictions: &WordRestrictions,
        possible_words: &[String],
    ) -> (res: Result<(), WordleError>)
        requires
            restrictions.wf(),
            possible_words@.len() <= u32::MAX,
            total_letters(possible_words@.map_values(|s: String| s@)) <= u32::MAX,
        ensures
            forall|n: nat|
                #![trigger final(self).ready(n)]
                old(self).ready(n) && n <= restrictions@.word_length ==> final(self).ready(n),
            old(self).dependable() ==> res is Ok && final(self).dependable(),
            old(self).updates_to(
                *final(self),
                res,
                latest_guess@,
                restrictions@,
                possible_words@.map_values(|s: String| s@),
            ),
    ;

    /// Determines a score for the given word. The higher the score, the better the guess.
    fn score_word(&self, word: &String) -> (score: i64)
        requires
            self.ready(word@.len()),
        ensures
            score == self.score_of(word@),
            self.dependable() ==> score > i64::MIN,
    ;
}

/// The letters of `w`, by their keys.
pub open spec fn letter_keys(w: Seq<char>) -> Set<u32> {
    Set::new(|k: u32| exists|i: int| 0 <= i < w.len() && letter_key(#[trigger] w[i]) == k)
}

/// The score of the first `n` letters of `w`: for each letter that does not appear earlier in
/// `w` and has not been guessed, the number of `words` that contain it.
pub open spec fn unique_letter_score(
    w: Seq<char>,
    guessed: Set<u32>,
    words: Seq<Seq<char>>,
    n: int,
) -> int
    decreases n,
{
    if n <= 0 {
        0
    } else {
        unique_letter_score(w, guessed, words, n - 1) + if !w.take(n - 1).contains(w[n - 1])
            && !guessed.contains(letter_key(w[n - 1])) {
            letter_count(words, w[n - 1]) as int
        } else {
            0
        }
    }
}

/// The unique-letter score of the first `n` letters of `w` depends on those letters alone.
proof fn lemma_unique_letter_score_prefix(
    w: Seq<char>,
    guessed: Set<u32>,
    words: Seq<Seq<char>>,
    m: int,
    n: int,
)
    requires
        0 <= n <= m <= w.len(),
    ensures
        unique_letter_score(w.take(m), guessed, words, n) == unique_letter_score(w, guessed, words, n),
    decreases n,
{
    if n > 0 {
        lemma_unique_letter_score_prefix(w, guessed, words, m, n - 1);
        assert(w.take(m).take(n - 1) =~= w.take(n - 1));
        assert(w.take(m)[n - 1] == w[n - 1]);
    }
}

/// Scores words by the number of unique words that have the same letter (in any location), summed
/// across each unique and not-yet guessed letter in the word.
#[derive(Clone)]
pub struct MaxUniqueLetterFrequencyScorer {
    guessed_letters: BTreeSet<u32>,
    word_counter: WordCounter,
}

impl MaxUniqueLetterFrequencyScorer {
    /// The keys of the letters guessed so far.
    pub closed spec fn guessed(&self) -> Set<u32> {
        self.guessed_letters@
    }

    /// The words that the scorer counts letters in.
    pub closed spec fn counted_words(&self) -> Seq<Seq<char>> {
        self.word_counter.counted_words()
    }

    /// Constructs a `MaxUniqueLetterFrequencyScorer` that counts letters in the given words,
    /// which should be the words of the bank that the guesser will use.
    pub fn new(all_words: &[String]) -> (scorer: MaxUniqueLetterFrequencyScorer)
        requires
            all_words@.len() <= u32::MAX,
            total_letters(all_words@.map_values(|s: String| s@)) <= u32::MAX,
        ensures
            scorer.guessed() == Set::<u32>::empty(),
            scorer.counted_words() == all_words@.map_values(|s: String| s@),
            forall|n: nat| n <= 255 ==> #[trigger] scorer.ready(n),
    {
        MaxUniqueLetterFrequencyScorer {
            guessed_letters: BTreeSet::new(),
            word_counter: WordCounter::new(all_words),
        }
    }
}

impl MaxUniqueLetterFrequencyScorer {
    /// What each letter adds to a word's score, measured as the score of the word up to and
    /// including that letter less the score of the word before it: one point per counted word
    /// that holds the letter, where the letter does not occur earlier in the word and has not
    /// been guessed, and nothing otherwise.
    pub proof fn lemma_letter_points(&self, w: Seq<char>, i: int)
        requires
            self.ready(w.len()),
            0 <= i < w.len(),
        ensures
            self.score_of(w.take(i + 1)) - self.score_of(w.take(i)) == if w.take(i).contains(w[i])
                || self.guessed().contains(letter_key(w[i])) {
                0
            } else {
                letter_count(self.counted_words(), w[i]) as int
            },
    {
        let guessed = self.guessed_letters@;
        let words = self.word_counter.counted_words();
        self.word_counter.lemma_counted_fits();
        lemma_unique_letter_score_prefix(w, guessed, words, i + 1, i + 1);
        lemma_unique_letter_score_prefix(w, guessed, words, i, i);
        lemma_unique_letter_score_bounds(w, guessed, words, i + 1);
        lemma_unique_letter_score_bounds(w, guessed, words, i);
        assert(w.take(i + 1).len() == i + 1);
        assert(w.take(i).len() == i);
    }
}

impl WordScorer for MaxUniqueLetterFrequencyScorer {
    closed spec fn ready(&self, word_length: nat) -> bool {
        self.word_counter.wf() && word_length <= 255
    }

    open spec fn dependable(&self) -> bool {
        true
    }

    open spec fn updates_to(
        &self,
        next: Self,
        res: Result<(), WordleError>,
        latest_guess: Seq<char>,
        restrictions: WordRestrictionsView,
        possible_words: Seq<Seq<char>>,
    ) -> bool {
        &&& res is Ok
        &&& next.guessed() == self.guessed() + letter_keys(latest_guess)
        &&& next.counted_words() == possible_words
    }

    closed spec fn score_of(&self, word: Seq<char>) -> i64 {
        unique_letter_score(
            word,
            self.guessed_letters@,
            self.word_counter.counted_words(),
            word.len() as int,
        ) as i64
    }

    fn update(
        &mut self,
        latest_guess: &str,
        restrictions: &WordRestrictions,
        possible_words: &[String],
    ) -> (res: Result<(), WordleError>)
        ensures
            res is Ok,
            final(self).guessed() == old(self).guessed() + letter_keys(latest_guess@),
            final(self).counted_words() == possible_words@.map_values(|s: String| s@),
    {
        let guess = chars_of(latest_guess);
        let ghost before = self.guessed_letters@;
        let mut i: usize = 0;
        while i < guess.len()
            invariant
                i <= guess@.len(),
                guess@ == latest_guess@,
                self.guessed_letters@ == before + letter_keys(guess@.take(i as int)),
            decreases guess@.len() - i,
        {
            let key: u32 = guess[i] as u32;
            self.guessed_letters.insert(key);
            proof {
                let longer = guess@.take(i + 1);
                assert(key == letter_key(guess@[i as int]));
                assert(letter_keys(longer) =~= letter_keys(guess@.take(i as int)).insert(key)) by {
                    assert(longer[i as int] == guess@[i as int]);
                    assert forall|k: u32| #[trigger]
                        letter_keys(longer).contains(k) implies letter_keys(
                        guess@.take(i as int),
                    ).insert(key).contains(k) by {
                        let m = choose|m: int|
                            0 <= m < longer.len() && letter_key(#[trigger] longer[m]) == k;
                        if m < i {
                            assert(guess@.take(i as int)[m] == longer[m]);
                        }
                    }
                    assert forall|k: u32| #[trigger]
                        letter_keys(guess@.take(i as int)).contains(k) implies letter_keys(
                        longer,
                    ).contains(k) by {
                        let m = choose|m: int|
                            0 <= m < i && letter_key(#[trigger] guess@.take(i as int)[m]) == k;
                        assert(longer[m] == guess@.take(i as int)[m]);
                    }
                }
                assert(self.guessed_letters@ =~= before + letter_keys(longer));
            }
            i = i + 1;
        }
        proof {
            assert(guess@.take(i as int) =~= guess@);
        }
        self.word_counter = WordCounter::new(possible_words);
        Ok(())
    }

    fn score_word(&self, word: &String) -> (score: i64) {
        let w = chars_of(word.as_str());
        let ghost counted = self.word_counter.counted_words();
        proof {
            self.word_counter.lemma_counted_fits();
        }
        let mut sum: i64 = 0;
        let mut index: usize = 0;
        while index < w.len()
            invariant
                w@ == word@,
                w@.len() <= 255,
                self.word_counter.wf(),
                counted == self.word_counter.counted_words(),
                counted.len() <= u32::MAX,
                index <= w@.len(),
                sum == unique_letter_score(w@, self.guessed_letters@, counted, index as int),
                0 <= sum <= index * u32::MAX,
            decreases w@.len() - index,
        {
            let letter = w[index];
            let earlier = seen_before(&w, index);
            let key: u32 = letter as u32;
            let guessed = self.guessed_letters.contains(&key);
            proof {
                assert(key == letter_key(letter));
                assert(w@.take(index + 1).take(index as int) =~= w@.take(index as int));
            }
            if !earlier && !guessed {
                let count = self.word_counter.num_words_with_letter(letter);
                proof {
                    crate::data::lemma_letter_count_bound(counted, letter);
                }
                sum = sum + count as i64;
            }
            index = index + 1;
        }
        sum
    }
}

/// The unique-letter score of `n` letters lies between 0 and `n` times the most words a `u32`
/// counts, when no letter is counted in more words than that.
proof fn lemma_unique_letter_score_bounds(
    w: Seq<char>,
    guessed: Set<u32>,
    words: Seq<Seq<char>>,
    n: int,
)
    requires
        0 <= n <= w.len(),
        forall|c: char| #[trigger] letter_count(words, c) <= u32::MAX,
    ensures
        0 <= unique_letter_score(w, guessed, words, n) <= n * u32::MAX,
    decreases n,
{
    if n > 0 {
        lemma_unique_letter_score_bounds(w, guessed, words, n - 1);
        assert(letter_count(words, w[n - 1]) <= u32::MAX);
    }
}

/// The located-letters score of `n` letters lies between 0 and `n` times twice the most words a
/// `u32` counts, when no count exceeds that.
proof fn lemma_located_letters_score_bounds(
    w: Seq<char>,
    r: WordRestrictionsView,
    words: Seq<Seq<char>>,
    n: int,
)
    requires
        0 <= n <= w.len(),
        forall|c: char| #[trigger] letter_count(words, c) <= u32::MAX,
        forall|c: char, loc: u8| #[trigger] located_count(words, c, loc) <= u32::MAX,
    ensures
        0 <= located_letters_score(w, r, words, n) <= n * 2 * (u32::MAX as int),
    decreases n,
{
    if n > 0 {
        lemma_located_letters_score_bounds(w, r, words, n - 1);
        let c = w[n - 1];
        let loc = ((n - 1) % 256) as u8;
        assert(letter_count(words, c) <= u32::MAX);
        assert(located_count(words, c, loc) <= u32::MAX);
    }
}

/// What a letter at index `i` of `w` adds to its located-letters score, given the restrictions `r`
/// and the possible `words`.
pub open spec fn located_letter_points(
    w: Seq<char>,
    r: WordRestrictionsView,
    words: Seq<Seq<char>>,
    i: int,
) -> int {
    let c = w[i];
    let loc = (i % 256) as u8;
    match r.state_of(c, loc as int) {
        Some(LetterRestriction::Here) => 1,
        Some(LetterRestriction::PresentMaybeHere) => located_count(words, c, loc) as int,
        Some(_) => 0,
        None => (if w.take(i).contains(c) {
            0
        } else {
            letter_count(words, c) as int
        }) + located_count(words, c, loc) as int,
    }
}

/// The located-letters score of the first `n` letters of `w` depends on those letters alone.
proof fn lemma_located_letters_score_prefix(
    w: Seq<char>,
    r: WordRestrictionsView,
    words: Seq<Seq<char>>,
    m: int,
    n: int,
)
    requires
        0 <= n <= m <= w.len(),
    ensures
        located_letters_score(w.take(m), r, words, n) == located_letters_score(w, r, words, n),
    decreases n,
{
    if n > 0 {
        lemma_located_letters_score_prefix(w, r, words, m, n - 1);
        assert(w.take(m).take(n - 1) =~= w.take(n - 1));
        assert(w.take(m)[n - 1] == w[n - 1]);
    }
}

/// The located-letters score of the first `n` letters of `w`.
pub open spec fn located_letters_score(
    w: Seq<char>,
    r: WordRestrictionsView,
    words: Seq<Seq<char>>,
    n: int,
) -> int
    decreases n,
{
    if n <= 0 {
        0
    } else {
        located_letters_score(w, r, words, n - 1) + located_letter_points(w, r, words, n - 1)
    }
}

/// This selects the word that maximizes a score, based on both the presence and the the location of
/// that letter in the possible words. The score is computed for each letter and then summed. Each
/// letter is scored as follows.
///
/// * For each letter, score:
///
///   * 1 point if the letter must be in this location.
///   * 1 point for every word with this letter in this place if the letter's location is not yet
///     known, and this is a new location for the letter.
///   * If this letter is completely new:
///
///      * If this letter has not yet been scored in this word:
///
///         * 1 point for every possible word with this letter in the same place.
///         * 1 point for every possible word with this letter in another place.
///
///      * Else:
///
///         * 1 point for every possible word with this letter in the same place.
#[derive(Clone)]
pub struct LocatedLettersScorer {
    counter: WordCounter,
    restrictions: WordRestrictions,
}

impl LocatedLettersScorer {
    /// The restrictions that the scorer knows.
    pub closed spec fn known(&self) -> WordRestrictionsView {
        self.restrictions@
    }

    /// The words that the scorer counts letters in.
    pub closed spec fn counted_words(&self) -> Seq<Seq<char>> {
        self.counter.counted_words()
    }

    /// Constructs a `LocatedLettersScorer` based on the words of the given [`WordBank`].
    pub fn new(bank: &WordBank) -> (scorer: LocatedLettersScorer)
        requires
            bank.words_view().len() <= u32::MAX,
            total_letters(bank.words_view()) <= u32::MAX,
        ensures
            scorer.known() == (WordRestrictionsView {
                word_length: bank.word_len() as u8,
                present: Map::empty(),
                not_present: Set::empty(),
            }),
            scorer.counted_words() == bank.words_view(),
            forall|n: nat| n <= bank.word_len() as u8 ==> #[trigger] scorer.ready(n),
    {
        let words = bank.words();
        LocatedLettersScorer {
            restrictions: WordRestrictions::new(bank.word_length() as u8),
            counter: WordCounter::new(words),
        }
    }
}

impl LocatedLettersScorer {
    /// What each letter adds to a word's score, measured as the score of the word up to and
    /// including that letter less the score of the word before it. A letter known to be in its
    /// place adds exactly one point, however many counted words hold it there. A letter known to
    /// be in the word, with its place here still open, adds one point per counted word that holds
    /// it here. A letter known to be elsewhere, or known to be absent, adds nothing. A letter of
    /// which nothing is known adds one point per counted word that holds it here, and, where it
    /// does not occur earlier in the word, one point more per counted word that holds it at all.
    pub proof fn lemma_letter_points(&self, w: Seq<char>, i: int)
        requires
            self.ready(w.len()),
            0 <= i < w.len(),
        ensures
            ({
                let gain = self.score_of(w.take(i + 1)) - self.score_of(w.take(i));
                let c = w[i];
                let words = self.counted_words();
                match self.known().state_of(c, i) {
                    Some(LetterRestriction::Here) => gain == 1,
                    Some(LetterRestriction::PresentMaybeHere) => gain == located_count(
                        words,
                        c,
                        i as u8,
                    ),
                    Some(LetterRestriction::PresentNotHere) => gain == 0,
                    Some(LetterRestriction::NotPresent) => gain == 0,
                    None => gain == located_count(words, c, i as u8) + if w.take(i).contains(c) {
                        0
                    } else {
                        letter_count(words, c)
                    },
                }
            }),
    {
        let r = self.restrictions@;
        let words = self.counter.counted_words();
        self.counter.lemma_counted_fits();
        lemma_located_letters_score_prefix(w, r, words, i + 1, i + 1);
        lemma_located_letters_score_prefix(w, r, words, i, i);
        lemma_located_letters_score_bounds(w, r, words, i + 1);
        lemma_located_letters_score_bounds(w, r, words, i);
        assert(w.take(i + 1).len() == i + 1);
        assert(w.take(i).len() == i);
        assert(i < 256);
        assert((i % 256) as u8 == i as u8);
    }
}

impl WordScorer for LocatedLettersScorer {
    closed spec fn ready(&self, word_length: nat) -> bool {
        self.counter.wf() && self.restrictions.wf() && word_length <= self.restrictions@.word_length
    }

    open spec fn dependable(&self) -> bool {
        true
    }

    open spec fn updates_to(
        &self,
        next: Self,
        res: Result<(), WordleError>,
        latest_guess: Seq<char>,
        restrictions: WordRestrictionsView,
        possible_words: Seq<Seq<char>>,
    ) -> bool {
        &&& res is Ok
        &&& next.known() == restrictions
        &&& next.counted_words() == possible_words
    }

    closed spec fn score_of(&self, word: Seq<char>) -> i64 {
        located_letters_score(
            word,
            self.restrictions@,
            self.counter.counted_words(),
            word.len() as int,
        ) as i64
    }

    fn update(
        &mut self,
        latest_guess: &str,
        restrictions: &WordRestrictions,
        possible_words: &[String],
    ) -> (res: Result<(), WordleError>)
        ensures
            res is Ok,
            final(self).known() == restrictions@,
            final(self).counted_words() == possible_words@.map_values(|s: String| s@),
    {
        self.restrictions = restrictions.copy();
        self.counter = WordCounter::new(possible_words);
        Ok(())
    }

    fn score_word(&self, word: &String) -> (score: i64) {
        let w = chars_of(word.as_str());
        let ghost counted = self.counter.counted_words();
        let mut sum: i64 = 0;
        let mut index: usize = 0;
        while index < w.len()
            invariant
                w@ == word@,
                w@.len() <= self.restrictions@.word_length,
                self.counter.wf(),
                self.restrictions.wf(),
                counted == self.counter.counted_words(),
                index <= w@.len(),
                sum == located_letters_score(w@, self.restrictions@, counted, index as int),
                0 <= sum <= index * 2 * (u32::MAX as int),
            decreases w@.len() - index,
        {
            let letter = w[index];
            let location: u8 = (index % 256) as u8;
            let located_letter = LocatedLetter::new(letter, location);
            let ghost points = located_letter_points(w@, self.restrictions@, counted, index as int);
            proof {
                assert(location == index);
            }
            let known_state = self.restrictions.state(&located_letter);
            let mut add: u64 = 0;
            match known_state {
                Some(LetterRestriction::Here) => {
                    add = 1;
                },
                Some(LetterRestriction::PresentMaybeHere) => {
                    add = self.counter.num_words_with_located_letter(&located_letter) as u64;
                },
                Some(_) => {},
                None => {
                    let letter_already_scored = seen_before(&w, index);
                    if !letter_already_scored {
                        add = self.counter.num_words_with_letter(letter) as u64;
                    }
                    add = add + self.counter.num_words_with_located_letter(&located_letter) as u64;
                },
            }
            proof {
                assert(add == points);
            }
            sum = sum + add as i64;
            index = index + 1;
        }
        sum
    }
}

/// How many of the first `n` keys equal `k`.
pub open spec fn key_count(keys: Seq<u64>, k: u64, n: int) -> nat
    decreases n,
{
    if n <= 0 {
        0
    } else {
        key_count(keys, k, n - 1) + if keys[n - 1] == k {
            1nat
        } else {
            0nat
        }
    }
}

/// The eliminations summed over the first `j` keys: each adds the number of keys that differ from
/// it. Over all keys this is the sum, over each group of equal keys, of the group's size times the
/// number of keys outside it.
pub open spec fn eliminations(keys: Seq<u64>, j: int) -> nat
    decreases j,
{
    if j <= 0 {
        0
    } else {
        eliminations(keys, j - 1) + (keys.len() - key_count(keys, keys[j - 1], keys.len() as int))
            as nat
    }
}

/// The key of the results that guessing `g` gives when the objective is `o`: the packed value of
/// a [`CompressedGuessResult`].
pub open spec fn result_key(o: Seq<char>, g: Seq<char>) -> u64 {
    packed_results(byte_results(o, g, byte_len(g) as int)) as u64
}

/// The result keys of guessing `g`, for each objective of `objectives`.
pub open spec fn result_keys(g: Seq<char>, objectives: Seq<Seq<char>>) -> Seq<u64> {
    Seq::new(objectives.len(), |k: int| result_key(objectives[k], g))
}

/// The keys of the pairs of results of guessing `g` and then `s`, for each objective of
/// `objectives`: the first result's key in the high half, the second's in the low half.
pub open spec fn pair_keys(g: Seq<char>, s: Seq<char>, objectives: Seq<Seq<char>>) -> Seq<u64> {
    Seq::new(
        objectives.len(),
        |k: int| (result_key(objectives[k], g) * 0x1_0000_0000 + result_key(objectives[k], s)) as u64,
    )
}

/// The most eliminations of the pairs of guessing `g` and then one of the first `m` words of
/// `seconds`, or 0.
pub open spec fn best_combo(
    g: Seq<char>,
    seconds: Seq<Seq<char>>,
    objectives: Seq<Seq<char>>,
    m: int,
) -> nat
    decreases m,
{
    if m <= 0 {
        0
    } else {
        let rest = best_combo(g, seconds, objectives, m - 1);
        let here = eliminations(pair_keys(g, seconds[m - 1], objectives), objectives.len() as int);
        if here > rest {
            here
        } else {
            rest
        }
    }
}

/// The value `m` holds for `k`, or 0.
pub open spec fn lookup_count(m: Map<u64, u64>, k: u64) -> nat {
    if m.contains_key(k) {
        m[k] as nat
    } else {
        0
    }
}

proof fn lemma_key_count_bounds(keys: Seq<u64>, k: u64, n: int)
    requires
        0 <= n <= keys.len(),
    ensures
        key_count(keys, k, n) <= n,
        forall|j: int| 0 <= j < n && keys[j] == k ==> key_count(keys, k, n) >= 1,
    decreases n,
{
    if n > 0 {
        lemma_key_count_bounds(keys, k, n - 1);
    }
}

proof fn lemma_eliminations_bound(keys: Seq<u64>, j: int)
    requires
        0 <= j <= keys.len(),
    ensures
        eliminations(keys, j) <= j * keys.len(),
    decreases j,
{
    if j > 0 {
        lemma_eliminations_bound(keys, j - 1);
        lemma_key_count_bounds(keys, keys[j - 1], keys.len() as int);
        assert(j * keys.len() == (j - 1) * keys.len() + keys.len()) by (nonlinear_arith);
    }
}

/// The sum that [`eliminations`] defines over all of `keys`.
fn eliminations_of(keys: &Vec<u64>) -> (total: u64)
    requires
        keys@.len() <= u32::MAX,
    ensures
        total == eliminations(keys@, keys@.len() as int),
{
    let n = keys.len();
    let mut counts: HashMap<u64, u64> = HashMap::new();
    let mut j: usize = 0;
    while j < n
        invariant
            n == keys@.len() <= u32::MAX,
            j <= n,
            forall|k: u64| #[trigger] lookup_count(counts@, k) == key_count(keys@, k, j as int),
        decreases n - j,
    {
        let k = keys[j];
        proof {
            lemma_key_count_bounds(keys@, k, j as int);
            assert(lookup_count(counts@, k) == key_count(keys@, k, j as int));
        }
        let current: u64 = match counts.get(&k) {
            Some(v) => *v,
            None => 0,
        };
        let ghost before = counts@;
        counts.insert(k, current + 1);
        proof {
            assert forall|k2: u64| #[trigger]
                lookup_count(counts@, k2) == key_count(keys@, k2, j + 1) by {
                assert(lookup_count(before, k2) == key_count(keys@, k2, j as int));
            }
        }
        j = j + 1;
    }
    let mut total: u64 = 0;
    let mut i: usize = 0;
    while i < n
        invariant
            n == keys@.len() <= u32::MAX,
            i <= n,
            forall|k: u64| #[trigger] lookup_count(counts@, k) == key_count(keys@, k, n as int),
            total == eliminations(keys@, i as int),
        decreases n - i,
    {
        let k = keys[i];
        proof {
            lemma_key_count_bounds(keys@, k, n as int);
            assert(lookup_count(counts@, k) == key_count(keys@, k, n as int));
            lemma_eliminations_bound(keys@, i + 1);
            assert((i + 1) * n <= n * n) by (nonlinear_arith)
                requires
                    i < n,
            ;
            assert(n * n <= 0xffff_ffff * 0xffff_ffff) by (nonlinear_arith)
                requires
                    n <= 0xffff_ffff,
            ;
        }
        let count: u64 = match counts.get(&k) {
            Some(v) => *v,
            None => 0,
        };
        total = total + ((n as u64) - count);
        i = i + 1;
    }
    total
}

/// The result key of guessing `guess` when the objective is `objective`.
fn result_key_of(objective: &str, guess: &str) -> (key: u64)
    requires
        byte_len(guess@) <= 16,
        byte_len(objective@) == byte_len(guess@),
    ensures
        key == result_key(objective@, guess@),
        key < 0x1_0000_0000,
{
    match get_result_for_guess(objective, guess) {
        Ok(result) => match CompressedGuessResult::from_results(result.results.as_slice()) {
            Ok(compressed) => compressed.packed() as u64,
            Err(_) => 0,
        },
        Err(_) => 0,
    }
}

/// The eliminations of guessing `word`: over the possible objectives, grouped by the results the
/// guess gives, each group's size times the number of objectives outside it, summed. Dividing by
/// the number of possible objectives gives the expected number of objectives that the guess rules
/// out.
pub fn expected_elimination_total(word: &str, possible_words: &[String]) -> (total: u64)
    requires
        byte_len(word@) <= 16,
        possible_words@.len() <= u32::MAX,
        forall|k: int|
            0 <= k < possible_words@.len() ==> byte_len((#[trigger] possible_words@[k])@)
                == byte_len(word@),
    ensures
        total == eliminations(
            result_keys(word@, possible_words@.map_values(|s: String| s@)),
            possible_words@.len() as int,
        ),
{
    let ghost objectives = possible_words@.map_values(|s: String| s@);
    let mut keys: Vec<u64> = Vec::new();
    let mut k: usize = 0;
    while k < possible_words.len()
        invariant
            byte_len(word@) <= 16,
            objectives == possible_words@.map_values(|s: String| s@),
            forall|m: int|
                0 <= m < possible_words@.len() ==> byte_len((#[trigger] possible_words@[m])@)
                    == byte_len(word@),
            k <= possible_words@.len(),
            keys@ == result_keys(word@, objectives).take(k as int),
        decreases possible_words@.len() - k,
    {
        let key = result_key_of(possible_words[k].as_str(), word);
        keys.push(key);
        proof {
            assert(keys@ =~= result_keys(word@, objectives).take(k + 1));
        }
        k = k + 1;
    }
    proof {
        assert(keys@ =~= result_keys(word@, objectives));
    }
    eliminations_of(&keys)
}

/// The most eliminations of guessing `word` and then one of `all_words`: for each second guess,
/// the possible objectives are grouped by the pair of results the two guesses give, and the
/// groups' sizes times the number of objectives outside them are summed; the largest sum is
/// returned, or 0 if there is no second guess.
pub fn best_combo_elimination_total(
    word: &str,
    all_words: &[String],
    possible_words: &[String],
) -> (best: u64)
    requires
        byte_len(word@) <= 16,
        possible_words@.len() <= u32::MAX,
        forall|k: int|
            0 <= k < possible_words@.len() ==> byte_len((#[trigger] possible_words@[k])@)
                == byte_len(word@),
        forall|k: int|
            0 <= k < all_words@.len() ==> byte_len((#[trigger] all_words@[k])@)
                == byte_len(word@),
    ensures
        best == best_combo(
            word@,
            all_words@.map_values(|s: String| s@),
            possible_words@.map_values(|s: String| s@),
            all_words@.len() as int,
        ),
{
    let ghost objectives = possible_words@.map_values(|s: String| s@);
    let ghost seconds = all_words@.map_values(|s: String| s@);
    let mut first_keys: Vec<u64> = Vec::new();
    let mut k: usize = 0;
    while k < possible_words.len()
        invariant
            byte_len(word@) <= 16,
            objectives == possible_words@.map_values(|s: String| s@),
            forall|m: int|
                0 <= m < possible_words@.len() ==> byte_len((#[trigger] possible_words@[m])@)
                    == byte_len(word@),
            k <= possible_words@.len(),
            first_keys@ == result_keys(word@, objectives).take(k as int),
            forall|m: int| 0 <= m < k ==> #[trigger] first_keys@[m] < 0x1_0000_0000,
        decreases possible_words@.len() - k,
    {
        let key = result_key_of(possible_words[k].as_str(), word);
        first_keys.push(key);
        proof {
            assert(first_keys@ =~= result_keys(word@, objectives).take(k + 1));
        }
        k = k + 1;
    }
    let mut best: u64 = 0;
    let mut s: usize = 0;
    while s < all_words.len()
        invariant
            byte_len(word@) <= 16,
            objectives == possible_words@.map_values(|s: String| s@),
            seconds == all_words@.map_values(|s: String| s@),
            possible_words@.len() <= u32::MAX,
            forall|m: int|
                0 <= m < possible_words@.len() ==> byte_len((#[trigger] possible_words@[m])@)
                    == byte_len(word@),
            forall|m: int|
                0 <= m < all_words@.len() ==> byte_len((#[trigger] all_words@[m])@)
                    == byte_len(word@),
            first_keys@.len() == possible_words@.len(),
            forall|m: int|
                0 <= m < first_keys@.len() ==> #[trigger] first_keys@[m] == result_key(
                    objectives[m],
                    word@,
                ) && first_keys@[m] < 0x1_0000_0000,
            s <= all_words@.len(),
            best == best_combo(word@, seconds, objectives, s as int),
        decreases all_words@.len() - s,
    {
        let second: &str = all_words[s].as_str();
        let ghost expected = pair_keys(word@, seconds[s as int], objectives);
        let mut keys: Vec<u64> = Vec::new();
        let mut k: usize = 0;
        while k < possible_words.len()
            invariant
                byte_len(word@) <= 16,
                second@ == seconds[s as int],
                byte_len(second@) == byte_len(word@),
                objectives == possible_words@.map_values(|s: String| s@),
                forall|m: int|
                    0 <= m < possible_words@.len() ==> byte_len((#[trigger] possible_words@[m])@)
                        == byte_len(word@),
                first_keys@.len() == possible_words@.len(),
                forall|m: int|
                    0 <= m < first_keys@.len() ==> #[trigger] first_keys@[m] == result_key(
                        objectives[m],
                        word@,
                    ) && first_keys@[m] < 0x1_0000_0000,
                expected == pair_keys(word@, second@, objectives),
                k <= possible_words@.len(),
                keys@ == expected.take(k as int),
            decreases possible_words@.len() - k,
        {
            let second_key = result_key_of(possible_words[k].as_str(), second);
            let first_key = first_keys[k];
            proof {
                assert(first_keys@[k as int] < 0x1_0000_0000);
                assert(first_key * 0x1_0000_0000 + second_key < 0x1_0000_0000_0000_0000)
                    by (nonlinear_arith)
                    requires
                        first_key < 0x1_0000_0000,
                        second_key < 0x1_0000_0000,
                ;
            }
            keys.push(first_key * 0x1_0000_0000 + second_key);
            proof {
                assert(keys@ =~= expected.take(k + 1));
            }
            k = k + 1;
        }
        proof {
            assert(keys@ =~= expected);
        }
        let total = eliminations_of(&keys);
        if total > best {
            best = total;
        }
        s = s + 1;
    }
    best
}

} // verus!
