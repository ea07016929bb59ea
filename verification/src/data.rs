use std::collections::HashMap;
use vstd::prelude::*;

use crate::results::{byte_len, WordleError};
use crate::text::{chars_of, lowercased, to_lowercase, trim, trimmed};

verus! {

broadcast use {vstd::std_specs::hash::group_hash_axioms, vstd::utf8::char_is_scalar};

/// A letter along with its location in the word.
#[derive(Copy, Clone, Debug, PartialEq, Eq, Hash, Structural)]
pub struct LocatedLetter {
    pub letter: char,
    /// The zero-based location (i.e. index) for this letter in a word.
    pub location: u8,
}

impl LocatedLetter {
    pub fn new(letter: char, location: u8) -> (ll: LocatedLetter)
        ensures
            ll.letter == letter,
            ll.location == location,
    {
        LocatedLetter { letter, location }
    }
}

/// A word as a bank stores it: trimmed and in lower case.
pub open spec fn normalized_word(w: Seq<char>) -> Seq<char> {
    lowercased(trimmed(w))
}

/// What reading a list of words gives.
pub enum WordListOutcome {
    /// The kept words, and their common length (0 if there are none).
    Words(Seq<Seq<char>>, nat),
    /// A word's length differed from the given length of the words before it.
    Mismatch(nat),
    /// A line could not be read.
    ReadFailure,
}

/// Reads the lines `lines[i..]` (`None` for a line that could not be read) after the words
/// `kept` of length `word_length` in bytes: blank lines are skipped, the others normalized, and
/// the first failure, or word of another length in bytes, stops the reading.
pub open spec fn read_words_from(
    lines: Seq<Option<Seq<char>>>,
    i: int,
    word_length: nat,
    kept: Seq<Seq<char>>,
) -> WordListOutcome
    decreases lines.len() - i,
{
    if i < 0 || i >= lines.len() {
        WordListOutcome::Words(kept, word_length)
    } else {
        match lines[i] {
            None => WordListOutcome::ReadFailure,
            Some(w) => {
                let n = normalized_word(w);
                if byte_len(n) == 0 {
                    read_words_from(lines, i + 1, word_length, kept)
                } else if word_length != 0 && word_length != byte_len(n) {
                    WordListOutcome::Mismatch(word_length)
                } else {
                    read_words_from(lines, i + 1, byte_len(n) as nat, kept.push(n))
                }
            },
        }
    }
}

/// What reading the given lines gives.
pub open spec fn read_words(lines: Seq<Option<Seq<char>>>) -> WordListOutcome {
    read_words_from(lines, 0, 0, Seq::empty())
}

/// The lines of a word list that was read without failure.
pub open spec fn lines_of(words: Seq<&str>) -> Seq<Option<Seq<char>>> {
    words.map_values(|w: &str| Some(w@))
}

/// The lines of a word list as they were read.
pub open spec fn read_lines(lines: Seq<Result<String, std::io::Error>>) -> Seq<Option<Seq<char>>> {
    lines.map_values(
        |l: Result<String, std::io::Error>|
            match l {
                Ok(s) => Some(s@),
                Err(_) => None,
            },
    )
}

/// Reading a bank from lines that were all read gives what building it from the same words
/// gives: [`WordBank::from_reader`] and [`WordBank::from_iterator`] agree.
pub proof fn lemma_reader_matches_iterator(
    lines: Seq<Result<String, std::io::Error>>,
    words: Seq<&str>,
)
    requires
        lines.len() == words.len(),
        forall|i: int|
            0 <= i < lines.len() ==> (#[trigger] lines[i] matches Ok(s) && s@ == words[i]@),
    ensures
        read_lines(lines) == lines_of(words),
        read_words(read_lines(lines)) == read_words(lines_of(words)),
{
    assert(read_lines(lines) =~= lines_of(words));
}

/// Reading all the lines goes as reading the first `k` lines does, then goes on from there.
proof fn lemma_read_words_prefix(
    lines: Seq<Option<Seq<char>>>,
    k: int,
    i: int,
    word_length: nat,
    kept: Seq<Seq<char>>,
)
    requires
        0 <= i <= k <= lines.len(),
    ensures
        read_words_from(lines.take(k), i, word_length, kept) matches WordListOutcome::Words(
            ks,
            l,
        ) ==> read_words_from(lines, i, word_length, kept) == read_words_from(lines, k, l, ks),
    decreases k - i,
{
    if i < k {
        let prefix = lines.take(k);
        assert(prefix[i] == lines[i]);
        match lines[i] {
            None => {},
            Some(w) => {
                let n = normalized_word(w);
                if byte_len(n) == 0 {
                    lemma_read_words_prefix(lines, k, i + 1, word_length, kept);
                } else if word_length != 0 && word_length != byte_len(n) {
                } else {
                    lemma_read_words_prefix(lines, k, i + 1, byte_len(n) as nat, kept.push(n));
                }
            },
        }
    }
}

/// The first line that could not be read ends the reading with a read failure, when no length
/// mismatch came before it: [`WordBank::from_reader`] then returns an
/// [`WordleError::IoError`].
pub proof fn lemma_first_read_failure(lines: Seq<Option<Seq<char>>>, k: int)
    requires
        0 <= k < lines.len(),
        lines[k] is None,
        read_words(lines.take(k)) is Words,
    ensures
        read_words(lines) is ReadFailure,
{
    lemma_read_words_prefix(lines, k, 0, 0, Seq::empty());
}

/// Whether a bank constructor's result is the one reading gives.
pub open spec fn bank_outcome(res: Result<WordBank, WordleError>, expected: WordListOutcome) -> bool {
    match expected {
        WordListOutcome::Words(ws, n) => res matches Ok(bank) && bank.words_view() == ws
            && bank.word_len() == n,
        WordListOutcome::Mismatch(n) => res matches Err(WordleError::WordLength(m)) && m == n,
        WordListOutcome::ReadFailure => res matches Err(WordleError::IoError(_)),
    }
}

/// Contains all the possible words for a Wordle game.
#[derive(Clone, Debug, PartialEq)]
pub struct WordBank {
    pub(crate) all_words: Vec<String>,
    pub(crate) word_length: usize,
}

impl WordBank {
    /// The words of the bank.
    pub closed spec fn words_view(&self) -> Seq<Seq<char>> {
        self.all_words@.map_values(|s: String| s@)
    }

    /// The length of each word of the bank.
    pub closed spec fn word_len(&self) -> nat {
        self.word_length as nat
    }

    /// Every word of the bank has the bank's word length, in bytes.
    pub open spec fn uniform(&self) -> bool {
        forall|i: int|
            0 <= i < self.words_view().len() ==> byte_len(#[trigger] self.words_view()[i])
                == self.word_len()
    }

    /// Every word of the bank has as many letters as the bank's word length: the words are
    /// compared letter by letter, at positions counted in letters. (For ASCII words, letters are
    /// bytes.)
    pub open spec fn letters_uniform(&self) -> bool {
        forall|i: int| 0 <= i < self.words_view().len() ==> (#[trigger] self.words_view()[i]).len()
            == self.word_len()
    }

    /// Parses a word that was already trimmed and converted to lower case, filtering out empty
    /// lines and returning an error if the word's length in bytes differs from `word_length` (if
    /// non-zero).
    ///
    /// Returns the new `word_length` to use, and the parsed word.
    pub fn parse_normalized_word(word_length: usize, normalized: String) -> (r: (
        usize,
        Option<Result<String, WordleError>>,
    ))
        ensures
            ({
                let n = normalized@;
                if byte_len(n) == 0 {
                    r.0 == word_length && r.1 is None
                } else if word_length != 0 && word_length != byte_len(n) {
                    r.0 == word_length && (r.1 matches Some(Err(WordleError::WordLength(m))) && m
                        == word_length)
                } else {
                    r.0 == byte_len(n) && (r.1 matches Some(Ok(s)) && s@ == n)
                }
            }),
    {
        let this_word_length = normalized.as_str().len();
        if this_word_length == 0 {
            return (word_length, None);
        }
        if word_length != 0 && word_length != this_word_length {
            return (word_length, Some(Err(WordleError::WordLength(word_length))));
        }
        (this_word_length, Some(Ok(normalized)))
    }

    /// Cleans and parses the given word, filtering out empty lines and returning an error if the
    /// word's length differs from `word_length` (if non-zero).
    ///
    /// Returns the new `word_length` to use, and the parsed word.
    fn parse_word(word_length: usize, word: &str) -> (r: (usize, Option<Result<String, WordleError>>))
        ensures
            ({
                let n = normalized_word(word@);
                if byte_len(n) == 0 {
                    r.0 == word_length && r.1 is None
                } else if word_length != 0 && word_length != byte_len(n) {
                    r.0 == word_length && (r.1 matches Some(Err(WordleError::WordLength(m))) && m
                        == word_length)
                } else {
                    r.0 == byte_len(n) && (r.1 matches Some(Ok(s)) && s@ == n)
                }
            }),
    {
        Self::parse_normalized_word(word_length, to_lowercase(trim(word)))
    }

    /// Constructs a new `WordBank` from the lines of a word list, as a reader's `lines()` gives
    /// them.
    ///
    /// Each word will be trimmed and converted to lower case, and blank lines are skipped. After
    /// trimming, all words must be the same length, else this returns an error of type
    /// [`WordleError::WordLength`]. A line that could not be read gives a
    /// [`WordleError::IoError`].
    pub fn from_reader(lines: Vec<Result<String, std::io::Error>>) -> (res: Result<
        Self,
        WordleError,
    >)
        ensures
            bank_outcome(res, read_words(read_lines(lines@))),
            res matches Ok(bank) ==> bank.uniform() && (bank.word_len() == 0 <==> bank.words_view().len()
                == 0),
    {
        let ghost all = read_lines(lines@);
        let ghost given = lines@;
        let mut word_length: usize = 0;
        let mut all_words: Vec<String> = Vec::new();
        proof {
            assert(all_words@.map_values(|s: String| s@) =~= Seq::<Seq<char>>::empty());
        }
        for line in it: lines.into_iter()
            invariant
                it.seq() == given,
                all == read_lines(given),
                read_words(all) == read_words_from(
                    all,
                    it.index() as int,
                    word_length as nat,
                    all_words@.map_values(|s: String| s@),
                ),
                forall|m: int|
                    0 <= m < all_words@.len() ==> byte_len((#[trigger] all_words@[m])@)
                        == word_length,
                word_length == 0 <==> all_words@.len() == 0,
        {
            proof {
                assert(all[it.index() as int] == match line {
                    Ok(s) => Some(s@),
                    Err(_) => None::<Seq<char>>,
                });
            }
            match line {
                Err(e) => {
                    return Err(WordleError::IoError(e));
                },
                Ok(word) => {
                    let (new_length, parsed) = Self::parse_word(word_length, word.as_str());
                    word_length = new_length;
                    match parsed {
                        None => {},
                        Some(Err(e)) => {
                            return Err(e);
                        },
                        Some(Ok(w)) => {
                            let ghost kept = all_words@.map_values(|s: String| s@);
                            all_words.push(w);
                            proof {
                                assert(all_words@.map_values(|s: String| s@) =~= kept.push(w@));
                            }
                        },
                    }
                },
            }
        }
        let bank = WordBank { all_words, word_length };
        proof {
            assert forall|m: int| 0 <= m < bank.words_view().len() implies byte_len(
                #[trigger] bank.words_view()[m],
            ) == bank.word_len() by {
                assert(bank.words_view()[m] == bank.all_words@[m]@);
            }
        }
        Ok(bank)
    }

    /// Constructs a new `WordBank` struct using the given words. Each word will be trimmed and
    /// converted to lower case, and blank words are skipped.
    ///
    /// After trimming, all words must be the same length, else this returns an error of type
    /// [`WordleError::WordLength`].
    pub fn from_iterator(words: &[&str]) -> (res: Result<Self, WordleError>)
        ensures
            bank_outcome(res, read_words(lines_of(words@))),
            res matches Ok(bank) ==> bank.uniform() && (bank.word_len() == 0 <==> bank.words_view().len()
                == 0),
    {
        let ghost all = lines_of(words@);
        let mut word_length: usize = 0;
        let mut all_words: Vec<String> = Vec::new();
        proof {
            assert(all_words@.map_values(|s: String| s@) =~= Seq::<Seq<char>>::empty());
        }
        let mut i: usize = 0;
        while i < words.len()
            invariant
                all.len() == words@.len(),
                all == lines_of(words@),
                i <= words@.len(),
                read_words(all) == read_words_from(
                    all,
                    i as int,
                    word_length as nat,
                    all_words@.map_values(|s: String| s@),
                ),
                forall|m: int|
                    0 <= m < all_words@.len() ==> byte_len((#[trigger] all_words@[m])@)
                        == word_length,
                word_length == 0 <==> all_words@.len() == 0,
            decreases words@.len() - i,
        {
            let (new_length, parsed) = Self::parse_word(word_length, words[i]);
            word_length = new_length;
            match parsed {
                None => {},
                Some(Err(e)) => {
                    return Err(e);
                },
                Some(Ok(w)) => {
                    let ghost kept = all_words@.map_values(|s: String| s@);
                    all_words.push(w);
                    proof {
                        assert(all_words@.map_values(|s: String| s@) =~= kept.push(w@));
                    }
                },
            }
            i = i + 1;
        }
        let bank = WordBank { all_words, word_length };
        proof {
            assert forall|m: int| 0 <= m < bank.words_view().len() implies byte_len(
                #[trigger] bank.words_view()[m],
            ) == bank.word_len() by {
                assert(bank.words_view()[m] == bank.all_words@[m]@);
            }
        }
        Ok(bank)
    }

    /// The words of the bank and their length.
    pub(crate) fn into_parts(self) -> (parts: (Vec<String>, usize))
        ensures
            parts.0@.map_values(|s: String| s@) == self.words_view(),
            parts.1 == self.word_len(),
    {
        (self.all_words, self.word_length)
    }

    /// Returns the number of possible words.
    pub fn len(&self) -> (n: usize)
        ensures
            n == self.words_view().len(),
    {
        self.all_words.len()
    }

    /// Returns true iff this word bank is empty.
    pub fn is_empty(&self) -> (b: bool)
        ensures
            b == (self.words_view().len() == 0),
    {
        self.all_words.len() == 0
    }

    /// Returns the length of each word in the word bank, in bytes.
    pub fn word_length(&self) -> (n: usize)
        ensures
            n == self.word_len(),
    {
        self.word_length
    }

    /// The words of the bank.
    pub fn words(&self) -> (words: &[String])
        ensures
            words@.map_values(|s: String| s@) == self.words_view(),
    {
        self.all_words.as_slice()
    }
}

impl std::ops::Deref for WordBank {
    type Target = [String];

    /// Derefs the list of words in the `WordBank` as a slice.
    fn deref(&self) -> (words: &[String])
        ensures
            words@.map_values(|s: String| s@) == self.words_view(),
    {
        self.all_words.as_slice()
    }
}

/// The key under which a letter at a location is counted: its code, then the location.
pub open spec fn ll_key(c: char, loc: u8) -> u32 {
    ((c as u32) * 256 + loc) as u32
}

/// The key under which a letter is counted: its code.
pub open spec fn letter_key(c: char) -> u32 {
    c as u32
}

/// The value `m` holds for `k`, or 0.
pub open spec fn lookup(m: Map<u32, u32>, k: u32) -> nat {
    if m.contains_key(k) {
        m[k] as nat
    } else {
        0
    }
}

/// The number of indices `i < n` of `w` that hold `c` and whose location, as a `u8`, is `loc`.
pub open spec fn occurrences_at(w: Seq<char>, c: char, loc: u8, n: int) -> nat
    decreases n,
{
    if n <= 0 {
        0
    } else {
        occurrences_at(w, c, loc, n - 1) + if w[n - 1] == c && (n - 1) % 256 == loc {
            1nat
        } else {
            0nat
        }
    }
}

/// The number of times the words hold `c` at location `loc`.
pub open spec fn located_count(words: Seq<Seq<char>>, c: char, loc: u8) -> nat
    decreases words.len(),
{
    if words.len() == 0 {
        0
    } else {
        located_count(words.drop_last(), c, loc) + occurrences_at(
            words.last(),
            c,
            loc,
            words.last().len() as int,
        )
    }
}

/// The number of words that contain `c`.
pub open spec fn letter_count(words: Seq<Seq<char>>, c: char) -> nat
    decreases words.len(),
{
    if words.len() == 0 {
        0
    } else {
        letter_count(words.drop_last(), c) + if words.last().contains(c) {
            1nat
        } else {
            0nat
        }
    }
}

/// The number of letters in all the words.
pub open spec fn total_letters(words: Seq<Seq<char>>) -> nat
    decreases words.len(),
{
    if words.len() == 0 {
        0
    } else {
        total_letters(words.drop_last()) + words.last().len()
    }
}

proof fn lemma_ll_key_injective(c1: char, l1: u8, c2: char, l2: u8)
    ensures
        ll_key(c1, l1) == ll_key(c2, l2) ==> c1 == c2 && l1 == l2,
{
    vstd::utf8::char_u32_cast(c1, c1 as u32);
    vstd::utf8::char_u32_cast(c2, c2 as u32);
    assert(vstd::utf8::is_scalar(c1 as u32));
    assert(vstd::utf8::is_scalar(c2 as u32));
}

proof fn lemma_occurrences_bound(w: Seq<char>, c: char, loc: u8, n: int)
    requires
        0 <= n,
    ensures
        occurrences_at(w, c, loc, n) <= n,
    decreases n,
{
    if n > 0 {
        lemma_occurrences_bound(w, c, loc, n - 1);
    }
}

proof fn lemma_located_count_bound(words: Seq<Seq<char>>, c: char, loc: u8)
    ensures
        located_count(words, c, loc) <= total_letters(words),
    decreases words.len(),
{
    if words.len() > 0 {
        lemma_located_count_bound(words.drop_last(), c, loc);
        lemma_occurrences_bound(words.last(), c, loc, words.last().len() as int);
    }
}

pub(crate) proof fn lemma_letter_count_bound(words: Seq<Seq<char>>, c: char)
    ensures
        letter_count(words, c) <= words.len(),
    decreases words.len(),
{
    if words.len() > 0 {
        lemma_letter_count_bound(words.drop_last(), c);
    }
}

/// Words that all have length `l` hold `l` letters each.
pub proof fn lemma_total_letters_uniform(words: Seq<Seq<char>>, l: nat)
    requires
        forall|i: int| 0 <= i < words.len() ==> (#[trigger] words[i]).len() == l,
    ensures
        total_letters(words) == words.len() * l,
    decreases words.len(),
{
    if words.len() > 0 {
        let rest = words.drop_last();
        assert forall|i: int| 0 <= i < rest.len() implies (#[trigger] rest[i]).len() == l by {
            assert(rest[i] == words[i]);
        }
        lemma_total_letters_uniform(rest, l);
        assert(words.last() == words[words.len() - 1]);
        assert(words.len() * l == rest.len() * l + l) by (nonlinear_arith)
            requires
                words.len() == rest.len() + 1,
        ;
    }
}

proof fn lemma_total_letters_prefix(words: Seq<Seq<char>>, j: int)
    requires
        0 <= j < words.len(),
    ensures
        total_letters(words.take(j)) + words[j].len() == total_letters(words.take(j + 1)),
        total_letters(words.take(j + 1)) <= total_letters(words),
    decreases words.len() - j,
{
    assert(words.take(j + 1).drop_last() =~= words.take(j));
    if j + 1 < words.len() {
        lemma_total_letters_prefix(words, j + 1);
    } else {
        assert(words.take(j + 1) =~= words);
    }
}

/// Adds one to the count that `m` holds for `k`.
fn bump(m: &mut HashMap<u32, u32>, k: u32)
    requires
        lookup(old(m)@, k) < u32::MAX,
    ensures
        final(m)@ == old(m)@.insert(k, (lookup(old(m)@, k) + 1) as u32),
{
    let current: u32 = match m.get(&k) {
        Some(v) => *v,
        None => 0,
    };
    m.insert(k, current + 1);
}

/// Whether the letter at index `i` of `w` also appears before it.
pub(crate) fn seen_before(w: &Vec<char>, i: usize) -> (b: bool)
    requires
        i < w@.len(),
    ensures
        b == w@.take(i as int).contains(w@[i as int]),
{
    let mut k: usize = 0;
    while k < i
        invariant
            k <= i < w@.len(),
            forall|m: int| 0 <= m < k ==> w@[m] != w@[i as int],
        decreases i - k,
    {
        if w[k] == w[i] {
            proof {
                assert(w@.take(i as int)[k as int] == w@[i as int]);
            }
            return true;
        }
        k = k + 1;
    }
    proof {
        if w@.take(i as int).contains(w@[i as int]) {
            let m = choose|m: int| 0 <= m < i && #[trigger] w@.take(i as int)[m] == w@[i as int];
            assert(w@[m] == w@[i as int]);
        }
    }
    false
}

/// Counts the number of words that contain each letter anywhere, as well as by the location of
/// each letter.
#[derive(Clone)]
pub struct WordCounter {
    num_words: u32,
    num_words_by_ll: HashMap<u32, u32>,
    num_words_by_letter: HashMap<u32, u32>,
    words: Ghost<Seq<Seq<char>>>,
}

impl WordCounter {
    /// The words that were counted.
    pub closed spec fn counted_words(&self) -> Seq<Seq<char>> {
        self.words@
    }

    /// The counts agree with the counted words.
    pub closed spec fn wf(&self) -> bool {
        &&& self.num_words == self.words@.len()
        &&& forall|c: char|
            #[trigger] lookup(self.num_words_by_letter@, letter_key(c)) == letter_count(self.words@, c)
        &&& forall|c: char, loc: u8|
            #[trigger] lookup(self.num_words_by_ll@, ll_key(c, loc)) == located_count(
                self.words@,
                c,
                loc,
            )
    }

    /// Creates a new word counter based on the given word list.
    pub fn new(words: &[String]) -> (counter: WordCounter)
        requires
            words@.len() <= u32::MAX,
            total_letters(words@.map_values(|s: String| s@)) <= u32::MAX,
        ensures
            counter.wf(),
            counter.counted_words() == words@.map_values(|s: String| s@),
    {
        let ghost all = words@.map_values(|s: String| s@);
        let mut num_words_by_ll: HashMap<u32, u32> = HashMap::new();
        let mut num_words_by_letter: HashMap<u32, u32> = HashMap::new();
        let mut num_words: u32 = 0;
        let mut j: usize = 0;
        while j < words.len()
            invariant
                all == words@.map_values(|s: String| s@),
                all.len() <= u32::MAX,
                total_letters(all) <= u32::MAX,
                j <= all.len(),
                num_words == j,
                forall|c: char|
                    #[trigger] lookup(num_words_by_letter@, letter_key(c)) == letter_count(
                        all.take(j as int),
                        c,
                    ),
                forall|c: char, loc: u8|
                    #[trigger] lookup(num_words_by_ll@, ll_key(c, loc)) == located_count(
                        all.take(j as int),
                        c,
                        loc,
                    ),
            decreases all.len() - j,
        {
            num_words = num_words + 1;
            let w = chars_of(words[j].as_str());
            let ghost done = all.take(j as int);
            proof {
                assert(w@ == all[j as int]);
                lemma_total_letters_prefix(all, j as int);
            }
            let mut index: usize = 0;
            while index < w.len()
                invariant
                    w@ == all[j as int],
                    j < all.len(),
                    done == all.take(j as int),
                    done.len() == j,
                    all.len() <= u32::MAX,
                    total_letters(done) + w@.len() <= u32::MAX,
                    index <= w@.len(),
                    forall|c: char|
                        #[trigger] lookup(num_words_by_letter@, letter_key(c)) == letter_count(done, c)
                            + if w@.take(index as int).contains(c) {
                            1nat
                        } else {
                            0nat
                        },
                    forall|c: char, loc: u8|
                        #[trigger] lookup(num_words_by_ll@, ll_key(c, loc)) == located_count(
                            done,
                            c,
                            loc,
                        ) + occurrences_at(w@, c, loc, index as int),
                decreases w@.len() - index,
            {
                let letter = w[index];
                let location: u8 = (index % 256) as u8;
                let ghost before_ll = num_words_by_ll@;
                let ghost before_letter = num_words_by_letter@;
                proof {
                    assert(lookup(before_letter, letter_key(letter)) == letter_count(done, letter) + if w@.take(
                        index as int,
                    ).contains(letter) {
                        1nat
                    } else {
                        0nat
                    });
                    lemma_located_count_bound(done, letter, location);
                    lemma_occurrences_bound(w@, letter, location, index as int);
                    vstd::utf8::char_is_scalar(letter);
                    assert(lookup(num_words_by_ll@, ll_key(letter, location)) == located_count(
                        done,
                        letter,
                        location,
                    ) + occurrences_at(w@, letter, location, index as int));
                }
                let key = (letter as u32) * 256 + (location as u32);
                bump(&mut num_words_by_ll, key);
                proof {
                    assert forall|c: char, loc: u8|
                        #[trigger] lookup(num_words_by_ll@, ll_key(c, loc)) == located_count(
                            done,
                            c,
                            loc,
                        ) + occurrences_at(w@, c, loc, index + 1) by {
                        lemma_ll_key_injective(c, loc, letter, location);
                        assert(lookup(before_ll, ll_key(c, loc)) == located_count(done, c, loc)
                            + occurrences_at(w@, c, loc, index as int));
                    }
                }
                let lk: u32 = letter as u32;
                proof {
                    assert(lk == letter_key(letter));
                }
                let seen = seen_before(&w, index);
                if !seen {
                    proof {
                        lemma_letter_count_bound(done, letter);
                        assert(lookup(num_words_by_letter@, letter_key(letter)) == letter_count(
                            done,
                            letter,
                        ));
                    }
                    bump(&mut num_words_by_letter, lk);
                }
                proof {
                    let prefix = w@.take(index as int);
                    let longer = w@.take(index + 1);
                    assert(longer =~= prefix.push(letter));
                    assert(longer[index as int] == letter);
                    assert forall|c: char|
                        #[trigger] lookup(num_words_by_letter@, letter_key(c)) == letter_count(done, c)
                            + if longer.contains(c) {
                            1nat
                        } else {
                            0nat
                        } by {
                        vstd::utf8::char_u32_cast(c, letter_key(c));
                        vstd::utf8::char_u32_cast(letter, lk);
                        assert(lookup(before_letter, letter_key(c)) == letter_count(done, c)
                            + if prefix.contains(c) {
                            1nat
                        } else {
                            0nat
                        });
                        if prefix.contains(c) {
                            let m = choose|m: int| 0 <= m < prefix.len() && #[trigger] prefix[m] == c;
                            assert(longer[m] == c);
                        }
                        if longer.contains(c) && c != letter {
                            let m = choose|m: int| 0 <= m < longer.len() && #[trigger] longer[m] == c;
                            assert(prefix[m] == c);
                        }
                    }
                }
                index = index + 1;
            }
            proof {
                assert(all.take(j + 1).drop_last() =~= done);
                assert(all.take(j + 1).last() == w@);
                assert(w@.take(w@.len() as int) =~= w@);
            }
            j = j + 1;
        }
        proof {
            assert(all.take(j as int) =~= all);
        }
        WordCounter {
            num_words,
            num_words_by_ll,
            num_words_by_letter,
            words: Ghost(all),
        }
    }

    /// Retrieves the count of words with the given letter at the given location.
    pub fn num_words_with_located_letter(&self, ll: &LocatedLetter) -> (n: u32)
        requires
            self.wf(),
        ensures
            n == located_count(self.counted_words(), ll.letter, ll.location),
    {
        proof {
            vstd::utf8::char_is_scalar(ll.letter);
            assert(lookup(self.num_words_by_ll@, ll_key(ll.letter, ll.location)) == located_count(
                self.words@,
                ll.letter,
                ll.location,
            ));
        }
        let key = (ll.letter as u32) * 256 + (ll.location as u32);
        match self.num_words_by_ll.get(&key) {
            Some(v) => *v,
            None => 0,
        }
    }

    /// Retrieves the count of words that contain the given letter.
    pub fn num_words_with_letter(&self, letter: char) -> (n: u32)
        requires
            self.wf(),
        ensures
            n == letter_count(self.counted_words(), letter),
    {
        proof {
            assert(lookup(self.num_words_by_letter@, letter_key(letter)) == letter_count(
                self.words@,
                letter,
            ));
        }
        let key: u32 = letter as u32;
        match self.num_words_by_letter.get(&key) {
            Some(v) => *v,
            None => 0,
        }
    }

    /// A well-formed counter counts no more words, and no more letters of a kind, than a `u32`
    /// holds.
    pub proof fn lemma_counted_fits(&self)
        requires
            self.wf(),
        ensures
            self.counted_words().len() <= u32::MAX,
            forall|c: char| #[trigger] letter_count(self.counted_words(), c) <= u32::MAX,
            forall|c: char, loc: u8| #[trigger] located_count(self.counted_words(), c, loc) <= u32::MAX,
    {
        assert forall|c: char| #[trigger] letter_count(self.counted_words(), c) <= u32::MAX by {
            assert(lookup(self.num_words_by_letter@, letter_key(c)) == letter_count(self.words@, c));
        }
        assert forall|c: char, loc: u8| #[trigger] located_count(self.counted_words(), c, loc)
            <= u32::MAX by {
            assert(lookup(self.num_words_by_ll@, ll_key(c, loc)) == located_count(self.words@, c, loc));
        }
    }

    /// Retrieves the total number of words in this counter.
    pub fn num_words(&self) -> (n: u32)
        requires
            self.wf(),
        ensures
            n == self.counted_words().len(),
    {
        self.num_words
    }
}

/// The words that contain `c`, in order.
pub open spec fn words_containing(words: Seq<Seq<char>>, c: char) -> Seq<Seq<char>>
    decreases words.len(),
{
    if words.len() == 0 {
        Seq::empty()
    } else {
        words_containing(words.drop_last(), c) + if words.last().contains(c) {
            seq![words.last()]
        } else {
            Seq::empty()
        }
    }
}

/// The words that do not contain `c`, in order.
pub open spec fn words_lacking(words: Seq<Seq<char>>, c: char) -> Seq<Seq<char>>
    decreases words.len(),
{
    if words.len() == 0 {
        Seq::empty()
    } else {
        words_lacking(words.drop_last(), c) + if words.last().contains(c) {
            Seq::empty()
        } else {
            seq![words.last()]
        }
    }
}

/// Every word either contains the letter or lacks it: [`WordTracker::words_with_letter`] and
/// [`WordTracker::words_without_letter`] split the words into two disjoint parts that together
/// hold each word as often as the words do.
pub proof fn lemma_letter_splits_words(words: Seq<Seq<char>>, c: char)
    ensures
        words_containing(words, c).to_multiset().add(words_lacking(words, c).to_multiset())
            =~= words.to_multiset(),
        forall|w: Seq<char>| #[trigger] words_containing(words, c).contains(w) ==> w.contains(c),
        forall|w: Seq<char>| #[trigger] words_lacking(words, c).contains(w) ==> !w.contains(c),
    decreases words.len(),
{
    broadcast use {
        vstd::seq_lib::group_to_multiset_ensures,
        vstd::multiset::group_multiset_axioms,
        vstd::seq_lib::lemma_multiset_commutative,
    };

    if words.len() == 0 {
        assert(words.to_multiset() =~= vstd::multiset::Multiset::empty());
        assert(words_containing(words, c).to_multiset() =~= vstd::multiset::Multiset::empty());
        assert(words_lacking(words, c).to_multiset() =~= vstd::multiset::Multiset::empty());
    } else {
        let rest = words.drop_last();
        let w = words.last();
        lemma_letter_splits_words(rest, c);
        assert(words =~= rest.push(w));
        if w.contains(c) {
            assert(words_containing(words, c) =~= words_containing(rest, c).push(w));
            assert(words_lacking(words, c) =~= words_lacking(rest, c));
        } else {
            assert(words_containing(words, c) =~= words_containing(rest, c));
            assert(words_lacking(words, c) =~= words_lacking(rest, c).push(w));
        }
        assert forall|x: Seq<char>| #[trigger] words_containing(words, c).contains(x) implies x.contains(
            c,
        ) by {
            let m = choose|m: int|
                0 <= m < words_containing(words, c).len() && words_containing(words, c)[m] == x;
            if m < words_containing(rest, c).len() {
                assert(words_containing(rest, c)[m] == x);
                assert(words_containing(rest, c).contains(x));
            } else {
                assert(x == w);
            }
        }
        assert forall|x: Seq<char>| #[trigger] words_lacking(words, c).contains(x) implies !x.contains(
            c,
        ) by {
            let m = choose|m: int|
                0 <= m < words_lacking(words, c).len() && words_lacking(words, c)[m] == x;
            if m < words_lacking(rest, c).len() {
                assert(words_lacking(rest, c)[m] == x);
                assert(words_lacking(rest, c).contains(x));
            } else {
                assert(x == w);
            }
        }
    }
}

/// The words that hold `c` at location `loc`, in order; a word appears once for each index of
/// it that counts as `loc` (see [`occurrences_at`]).
pub open spec fn words_at(words: Seq<Seq<char>>, c: char, loc: u8) -> Seq<Seq<char>>
    decreases words.len(),
{
    if words.len() == 0 {
        Seq::empty()
    } else {
        words_at(words.drop_last(), c, loc) + Seq::new(
            occurrences_at(words.last(), c, loc, words.last().len() as int),
            |_i: int| words.last(),
        )
    }
}

/// The words whose letter at index `loc` is not `c`, in order.
pub open spec fn words_not_at(words: Seq<Seq<char>>, c: char, loc: int) -> Seq<Seq<char>>
    decreases words.len(),
{
    if words.len() == 0 {
        Seq::empty()
    } else {
        words_not_at(words.drop_last(), c, loc) + if words.last()[loc] != c {
            seq![words.last()]
        } else {
            Seq::empty()
        }
    }
}

/// The words that `m` holds under `k`, or none.
pub open spec fn lookup_words(m: Map<u32, Vec<String>>, k: u32) -> Seq<Seq<char>> {
    if m.contains_key(k) {
        m[k]@.map_values(|s: String| s@)
    } else {
        Seq::empty()
    }
}

/// Every list that `m` holds has a word.
pub open spec fn lists_nonempty(m: Map<u32, Vec<String>>) -> bool {
    forall|k: u32| #[trigger] m.contains_key(k) ==> m[k]@.len() > 0
}

/// A copy of the given words.
pub(crate) fn copy_words(v: &[String]) -> (r: Vec<String>)
    ensures
        r@ == v@,
{
    let mut r: Vec<String> = Vec::new();
    let mut i: usize = 0;
    while i < v.len()
        invariant
            i <= v@.len(),
            r@ == v@.take(i as int),
        decreases v@.len() - i,
    {
        r.push(v[i].clone());
        proof {
            assert(v@.take(i + 1) =~= v@.take(i as int).push(v@[i as int]));
        }
        i = i + 1;
    }
    proof {
        assert(v@.take(v@.len() as int) =~= v@);
    }
    r
}

/// Appends a copy of `w` to the list that `m` holds under `k`.
fn push_word(m: &mut HashMap<u32, Vec<String>>, k: u32, w: &String)
    requires
        lists_nonempty(old(m)@),
    ensures
        lists_nonempty(final(m)@),
        final(m)@.contains_key(k),
        final(m)@ == old(m)@.insert(k, final(m)@[k]),
        lookup_words(final(m)@, k) == lookup_words(old(m)@, k).push(w@),
{
    let ghost before = lookup_words(m@, k);
    let mut list: Vec<String> = match m.remove(&k) {
        Some(v) => v,
        None => Vec::new(),
    };
    proof {
        assert(list@.map_values(|s: String| s@) =~= before);
    }
    list.push(w.clone());
    let ghost pushed = list@;
    m.insert(k, list);
    proof {
        assert(m@[k]@ == pushed);
        assert(pushed.map_values(|s: String| s@) =~= before.push(w@));
        assert(m@ =~= old(m)@.insert(k, m@[k]));
    }
}

/// Computes the unique set of words that contain each letter anywhere, as well as by the location
/// of each letter.
///
/// If you only need to know the number of words instead of the list of words, see [`WordCounter`].
#[derive(Clone)]
pub struct WordTracker<'w> {
    all_words: &'w [String],
    words_by_letter: HashMap<u32, Vec<String>>,
    words_by_located_letter: HashMap<u32, Vec<String>>,
}

impl<'w> WordTracker<'w> {
    /// The words of this tracker.
    pub closed spec fn tracked_words(&self) -> Seq<Seq<char>> {
        self.all_words@.map_values(|s: String| s@)
    }

    /// The lists agree with the tracked words.
    pub closed spec fn wf(&self) -> bool {
        &&& lists_nonempty(self.words_by_letter@)
        &&& lists_nonempty(self.words_by_located_letter@)
        &&& forall|c: char|
            #[trigger] lookup_words(self.words_by_letter@, letter_key(c)) == words_containing(
                self.tracked_words(),
                c,
            )
        &&& forall|c: char, loc: u8|
            #[trigger] lookup_words(self.words_by_located_letter@, ll_key(c, loc)) == words_at(
                self.tracked_words(),
                c,
                loc,
            )
    }

    /// Constructs a new `WordTracker` from the given words. Note that the words are not checked
    /// for uniqueness, so if duplicates exist in the given words, then those duplicates will
    /// remain part of this tracker's information.
    pub fn new<'w_in: 'w>(all_words: &'w_in [String]) -> (tracker: WordTracker<'w>)
        ensures
            tracker.wf(),
            tracker.tracked_words() == all_words@.map_values(|s: String| s@),
    {
        let ghost all = all_words@.map_values(|s: String| s@);
        let mut words_by_letter: HashMap<u32, Vec<String>> = HashMap::new();
        let mut words_by_located_letter: HashMap<u32, Vec<String>> = HashMap::new();
        let mut j: usize = 0;
        while j < all_words.len()
            invariant
                all == all_words@.map_values(|s: String| s@),
                j <= all.len(),
                lists_nonempty(words_by_letter@),
                lists_nonempty(words_by_located_letter@),
                forall|c: char|
                    #[trigger] lookup_words(words_by_letter@, letter_key(c)) == words_containing(
                        all.take(j as int),
                        c,
                    ),
                forall|c: char, loc: u8|
                    #[trigger] lookup_words(words_by_located_letter@, ll_key(c, loc)) == words_at(
                        all.take(j as int),
                        c,
                        loc,
                    ),
            decreases all.len() - j,
        {
            let word: &String = &all_words[j];
            let w = chars_of(word.as_str());
            let ghost done = all.take(j as int);
            proof {
                assert(w@ == all[j as int]);
                assert(word@ == all[j as int]);
            }
            let mut index: usize = 0;
            while index < w.len()
                invariant
                    w@ == all[j as int],
                    word@ == w@,
                    j < all.len(),
                    done == all.take(j as int),
                    index <= w@.len(),
                    lists_nonempty(words_by_letter@),
                    lists_nonempty(words_by_located_letter@),
                    forall|c: char|
                        #[trigger] lookup_words(words_by_letter@, letter_key(c)) == words_containing(
                            done,
                            c,
                        ) + if w@.take(index as int).contains(c) {
                            seq![w@]
                        } else {
                            Seq::empty()
                        },
                    forall|c: char, loc: u8|
                        #[trigger] lookup_words(words_by_located_letter@, ll_key(c, loc))
                            == words_at(done, c, loc) + Seq::new(
                            occurrences_at(w@, c, loc, index as int),
                            |_i: int| w@,
                        ),
                decreases w@.len() - index,
            {
                let letter = w[index];
                let location: u8 = (index % 256) as u8;
                let ghost before_ll = words_by_located_letter@;
                let ghost before_letter = words_by_letter@;
                proof {
                    vstd::utf8::char_is_scalar(letter);
                }
                let key = (letter as u32) * 256 + (location as u32);
                push_word(&mut words_by_located_letter, key, word);
                proof {
                    assert forall|c: char, loc: u8|
                        #[trigger] lookup_words(words_by_located_letter@, ll_key(c, loc))
                            == words_at(done, c, loc) + Seq::new(
                            occurrences_at(w@, c, loc, index + 1),
                            |_i: int| w@,
                        ) by {
                        lemma_ll_key_injective(c, loc, letter, location);
                        let n = occurrences_at(w@, c, loc, index as int);
                        assert(lookup_words(before_ll, ll_key(c, loc)) == words_at(done, c, loc)
                            + Seq::new(n, |_i: int| w@));
                        if c == letter && loc == location {
                            assert(Seq::new(n + 1, |_i: int| w@) =~= Seq::new(n, |_i: int| w@).push(
                                w@,
                            ));
                            assert((words_at(done, c, loc) + Seq::new(n, |_i: int| w@)).push(w@)
                                =~= words_at(done, c, loc) + Seq::new(n + 1, |_i: int| w@));
                        }
                    }
                }
                let lk: u32 = letter as u32;
                proof {
                    assert(lk == letter_key(letter));
                }
                let seen = seen_before(&w, index);
                if !seen {
                    push_word(&mut words_by_letter, lk, word);
                }
                proof {
                    let prefix = w@.take(index as int);
                    let longer = w@.take(index + 1);
                    assert(longer =~= prefix.push(letter));
                    assert(longer[index as int] == letter);
                    assert forall|c: char|
                        #[trigger] lookup_words(words_by_letter@, letter_key(c)) == words_containing(
                            done,
                            c,
                        ) + if longer.contains(c) {
                            seq![w@]
                        } else {
                            Seq::empty()
                        } by {
                        vstd::utf8::char_u32_cast(c, letter_key(c));
                        vstd::utf8::char_u32_cast(letter, lk);
                        assert(lookup_words(before_letter, letter_key(c)) == words_containing(
                            done,
                            c,
                        ) + if prefix.contains(c) {
                            seq![w@]
                        } else {
                            Seq::empty()
                        });
                        if prefix.contains(c) {
                            let m = choose|m: int| 0 <= m < prefix.len() && #[trigger] prefix[m] == c;
                            assert(longer[m] == c);
                        }
                        if longer.contains(c) && c != letter {
                            let m = choose|m: int| 0 <= m < longer.len() && #[trigger] longer[m] == c;
                            assert(prefix[m] == c);
                        }
                        if c == letter && !prefix.contains(c) {
                            assert(words_containing(done, c).push(w@) =~= words_containing(done, c)
                                + seq![w@]);
                            assert(words_containing(done, c) + Seq::<Seq<char>>::empty()
                                =~= words_containing(done, c));
                        }
                    }
                }
                index = index + 1;
            }
            proof {
                assert(all.take(j + 1).drop_last() =~= done);
                assert(all.take(j + 1).last() == w@);
                assert(w@.take(w@.len() as int) =~= w@);
            }
            j = j + 1;
        }
        proof {
            assert(all.take(j as int) =~= all);
        }
        WordTracker { all_words, words_by_letter, words_by_located_letter }
    }

    /// Retrieves the full list of words stored in this word tracker.
    pub fn all_words(&self) -> (words: &[String])
        ensures
            words@.map_values(|s: String| s@) == self.tracked_words(),
    {
        self.all_words
    }

    /// Returns true iff any of the words in this tracker contain the given letter.
    pub fn has_letter(&self, letter: char) -> (b: bool)
        requires
            self.wf(),
        ensures
            b == (words_containing(self.tracked_words(), letter).len() > 0),
    {
        let key: u32 = letter as u32;
        proof {
            assert(key == letter_key(letter));
            assert(lookup_words(self.words_by_letter@, letter_key(letter)) == words_containing(
                self.tracked_words(),
                letter,
            ));
        }
        self.words_by_letter.contains_key(&key)
    }

    /// Returns the words that have the given letter at the given location.
    pub fn words_with_located_letter(&self, ll: LocatedLetter) -> (words: Vec<String>)
        requires
            self.wf(),
        ensures
            words@.map_values(|s: String| s@) == words_at(
                self.tracked_words(),
                ll.letter,
                ll.location,
            ),
    {
        proof {
            vstd::utf8::char_is_scalar(ll.letter);
            assert(lookup_words(self.words_by_located_letter@, ll_key(ll.letter, ll.location))
                == words_at(self.tracked_words(), ll.letter, ll.location));
        }
        let key = (ll.letter as u32) * 256 + (ll.location as u32);
        match self.words_by_located_letter.get(&key) {
            Some(v) => copy_words(v.as_slice()),
            None => Vec::new(),
        }
    }

    /// Returns the words that have the given letter.
    pub fn words_with_letter(&self, letter: char) -> (words: Vec<String>)
        requires
            self.wf(),
        ensures
            words@.map_values(|s: String| s@) == words_containing(self.tracked_words(), letter),
    {
        let key: u32 = letter as u32;
        proof {
            assert(key == letter_key(letter));
            assert(lookup_words(self.words_by_letter@, letter_key(letter)) == words_containing(
                self.tracked_words(),
                letter,
            ));
        }
        match self.words_by_letter.get(&key) {
            Some(v) => copy_words(v.as_slice()),
            None => Vec::new(),
        }
    }

    /// Returns the words that have the given letter, but not at the given location.
    pub fn words_with_letter_not_here(&self, ll: LocatedLetter) -> (words: Vec<String>)
        requires
            self.wf(),
            forall|i: int|
                0 <= i < self.tracked_words().len() && #[trigger] self.tracked_words()[i].contains(
                    ll.letter,
                ) ==> ll.location < self.tracked_words()[i].len(),
        ensures
            words@.map_values(|s: String| s@) == words_not_at(
                words_containing(self.tracked_words(), ll.letter),
                ll.letter,
                ll.location as int,
            ),
    {
        let key: u32 = ll.letter as u32;
        let ghost candidates = words_containing(self.tracked_words(), ll.letter);
        proof {
            assert(key == letter_key(ll.letter));
            assert(lookup_words(self.words_by_letter@, letter_key(ll.letter)) == candidates);
            lemma_words_containing_members(self.tracked_words(), ll.letter);
        }
        let mut words: Vec<String> = Vec::new();
        match self.words_by_letter.get(&key) {
            None => {
                proof {
                    assert(words@.map_values(|s: String| s@) =~= words_not_at(
                        candidates,
                        ll.letter,
                        ll.location as int,
                    ));
                }
            },
            Some(list) => {
                let loc: usize = ll.location as usize;
                let mut i: usize = 0;
                proof {
                    assert(words@.map_values(|s: String| s@) =~= words_not_at(
                        candidates.take(0),
                        ll.letter,
                        ll.location as int,
                    ));
                }
                while i < list.len()
                    invariant
                        list@.map_values(|s: String| s@) == candidates,
                        loc == ll.location,
                        i <= list@.len(),
                        forall|k: int|
                            0 <= k < candidates.len() ==> ll.location < (
                            #[trigger] candidates[k]).len(),
                        words@.map_values(|s: String| s@) == words_not_at(
                            candidates.take(i as int),
                            ll.letter,
                            ll.location as int,
                        ),
                    decreases list@.len() - i,
                {
                    let w = chars_of(list[i].as_str());
                    proof {
                        assert(candidates[i as int] == list@[i as int]@);
                        assert(candidates.take(i + 1).drop_last() =~= candidates.take(i as int));
                        assert(candidates.take(i + 1).last() == w@);
                    }
                    if w[loc] != ll.letter {
                        let ghost before = words@;
                        words.push(list[i].clone());
                        proof {
                            assert(words@.map_values(|s: String| s@) =~= before.map_values(
                                |s: String| s@,
                            ).push(w@));
                        }
                    }
                    proof {
                        assert(words@.map_values(|s: String| s@) =~= words_not_at(
                            candidates.take(i + 1),
                            ll.letter,
                            ll.location as int,
                        ));
                    }
                    i = i + 1;
                }
                proof {
                    assert(candidates.take(i as int) =~= candidates);
                }
            },
        }
        words
    }

    /// Returns the words that don't have the given letter.
    pub fn words_without_letter(&self, letter: char) -> (words: Vec<String>)
        ensures
            words@.map_values(|s: String| s@) == words_lacking(self.tracked_words(), letter),
    {
        let ghost all = self.tracked_words();
        let mut words: Vec<String> = Vec::new();
        let mut i: usize = 0;
        while i < self.all_words.len()
            invariant
                all == self.all_words@.map_values(|s: String| s@),
                i <= all.len(),
                words@.map_values(|s: String| s@) == words_lacking(all.take(i as int), letter),
            decreases all.len() - i,
        {
            let w = chars_of(self.all_words[i].as_str());
            proof {
                assert(all.take(i + 1).drop_last() =~= all.take(i as int));
                assert(all.take(i + 1).last() == w@);
            }
            if !contains_char(&w, letter) {
                let ghost before = words@;
                words.push(self.all_words[i].clone());
                proof {
                    assert(words@.map_values(|s: String| s@) =~= before.map_values(|s: String| s@).push(
                        w@,
                    ));
                }
            }
            proof {
                assert(words@.map_values(|s: String| s@) =~= words_lacking(
                    all.take(i + 1),
                    letter,
                ));
            }
            i = i + 1;
        }
        proof {
            assert(all.take(i as int) =~= all);
        }
        words
    }
}

/// Each word that [`words_containing`] keeps contains the letter, and bounds that hold of every
/// word that contains the letter hold of each kept word.
proof fn lemma_words_containing_members(words: Seq<Seq<char>>, c: char)
    ensures
        forall|k: int|
            0 <= k < words_containing(words, c).len() ==> (#[trigger] words_containing(words, c)[k]).contains(c)
                && words.contains(words_containing(words, c)[k]),
    decreases words.len(),
{
    if words.len() > 0 {
        lemma_words_containing_members(words.drop_last(), c);
        let rest = words_containing(words.drop_last(), c);
        assert forall|k: int| 0 <= k < words_containing(words, c).len() implies (
        #[trigger] words_containing(words, c)[k]).contains(c) && words.contains(
            words_containing(words, c)[k],
        ) by {
            if k < rest.len() {
                assert(words_containing(words, c)[k] == rest[k]);
                let m = choose|m: int| 0 <= m < words.drop_last().len() && words.drop_last()[m] == rest[k];
                assert(words[m] == rest[k]);
            } else {
                assert(words_containing(words, c)[k] == words.last());
                assert(words[words.len() - 1] == words.last());
            }
        }
    }
}

/// Whether `w` holds `c`.
pub(crate) fn contains_char(w: &Vec<char>, c: char) -> (b: bool)
    ensures
        b == w@.contains(c),
{
    let mut k: usize = 0;
    while k < w.len()
        invariant
            k <= w@.len(),
            forall|m: int| 0 <= m < k ==> w@[m] != c,
        decreases w@.len() - k,
    {
        if w[k] == c {
            return true;
        }
        k = k + 1;
    }
    false
}

} // verus!
