use vstd::prelude::*;

use crate::text::chars_of;

verus! {

/// The IO error type that word lists read from a reader may carry.
#[verifier::external_type_specification]
#[verifier::external_body]
pub struct ExIoError(std::io::Error);

/// The most results that a [`CompressedGuessResult`] can hold (two bits each in a `u32`).
pub const MAX_LETTERS_IN_COMPRESSED_GUESS_RESULT: usize = 16;

/// The result of a given letter at a specific location. There is some complexity here when a
/// letter appears in a word more than once. See [`GuessResult`] for more details.
#[derive(Debug, PartialEq, Eq, Clone, Copy, Hash, Structural)]
pub enum LetterResult {
    /// This letter goes exactly here in the objective word.
    Correct,
    /// This letter is in the objective word, but not here.
    PresentNotHere,
    /// This letter is not in the objective word, or is only in the word as many times as it was
    /// marked either `PresentNotHere` or `Correct`.
    NotPresent,
}

/// Indicates that an error occurred while trying to guess the objective word.
#[derive(Debug)]
pub enum WordleError {
    /// Indicates that the word lengths differed, or words were too long for the chosen
    /// implementation. The expected word length or max possible word length is provided.
    WordLength(usize),
    /// Indicates that the given `GuessResult`s are impossible due to some inconsistency.
    InvalidResults,
    /// An IO error occurred.
    IoError(std::io::Error),
}

impl From<std::io::Error> for WordleError {
    fn from(io_err: std::io::Error) -> (error: WordleError) {
        WordleError::IoError(io_err)
    }
}

impl vstd::std_specs::convert::FromSpecImpl<std::io::Error> for WordleError {
    open spec fn obeys_from_spec() -> bool {
        true
    }

    open spec fn from_spec(io_err: std::io::Error) -> WordleError {
        WordleError::IoError(io_err)
    }
}

/// The result of a single word guess.
///
/// Duplicate letters are matched to [`LetterResult`]s as follows:
///
/// 1. All letters in the correct location are marked `Correct`.
/// 2. For any remaining letters, if the objective word has more letters than were marked correct,
///    then these letters are marked as `PresentNotHere` starting from the beginning of the word,
///    until all letters have been accounted for.
/// 3. Any remaining letters are marked as `NotPresent`.
#[derive(Clone, Debug, PartialEq, Hash)]
pub struct GuessResult<'a> {
    /// The guess that was made.
    pub guess: &'a str,
    /// The result of each letter, provided in the same letter order as in the guess.
    pub results: Vec<LetterResult>,
}

/// Data about a single turn of a Wordle game.
#[derive(Clone, Debug, PartialEq, Hash)]
pub struct TurnData {
    /// The guess that was made this turn.
    pub guess: String,
    /// The number of possible words that remained at the start of this turn.
    pub num_possible_words_before_guess: usize,
}

/// The data from a game that was played.
#[derive(Clone, Debug, PartialEq)]
pub struct GameData {
    /// Data for each turn that was played.
    pub turns: Vec<TurnData>,
}

/// Whether the game was won or lost by the guesser.
#[derive(Clone, Debug, PartialEq)]
pub enum GameResult {
    /// Indicates that the guesser won the game, and provides the guesses that were given.
    Success(GameData),
    /// Indicates that the guesser failed to guess the word under the guess limit, and provides the
    /// guesses that were given.
    Failure(GameData),
    /// Indicates that the given word was not in the guesser's word bank.
    UnknownWord,
}

/// A compressed form of [LetterResult]s. Can only store vectors of up to
/// [`MAX_LETTERS_IN_COMPRESSED_GUESS_RESULT`] results.
#[derive(Debug, PartialEq, Eq, Clone, Copy, Hash, Structural)]
pub struct CompressedGuessResult {
    data: u32,
}

/// The two-bit code of a letter result.
pub open spec fn result_code(r: LetterResult) -> nat {
    match r {
        LetterResult::Correct => 1,
        LetterResult::PresentNotHere => 2,
        LetterResult::NotPresent => 3,
    }
}

/// `4` to the power of `n`.
pub open spec fn pow4(n: nat) -> nat
    decreases n,
{
    if n == 0 {
        1
    } else {
        4 * pow4((n - 1) as nat)
    }
}

/// The number whose base-4 digits, least significant first, are the codes of `s`.
pub open spec fn packed_results(s: Seq<LetterResult>) -> nat
    decreases s.len(),
{
    if s.len() == 0 {
        0
    } else {
        result_code(s[0]) + 4 * packed_results(s.drop_first())
    }
}

impl CompressedGuessResult {
    /// The packed value.
    pub closed spec fn value(self) -> nat {
        self.data as nat
    }

    /// The packed value, as stored.
    pub(crate) fn packed(&self) -> (d: u32)
        ensures
            d as nat == self.value(),
    {
        self.data
    }

    /// Compressed results with the same packed value are equal.
    pub proof fn lemma_value_determines(c1: Self, c2: Self)
        ensures
            c1 == c2 <==> c1.value() == c2.value(),
    {
    }

    fn code(r: LetterResult) -> (c: u32)
        ensures
            c == result_code(r),
    {
        match r {
            LetterResult::Correct => 1,
            LetterResult::PresentNotHere => 2,
            LetterResult::NotPresent => 3,
        }
    }

    /// Creates a compressed form of the given letter results.
    ///
    /// Returns a [`WordleError::WordLength`] error if `letter_results` has more than
    /// [`MAX_LETTERS_IN_COMPRESSED_GUESS_RESULT`] values.
    pub fn from_results(letter_results: &[LetterResult]) -> (res: Result<
        CompressedGuessResult,
        WordleError,
    >)
        ensures
            letter_results@.len() > MAX_LETTERS_IN_COMPRESSED_GUESS_RESULT ==> (res matches Err(
                WordleError::WordLength(n),
            ) && n == MAX_LETTERS_IN_COMPRESSED_GUESS_RESULT),
            letter_results@.len() <= MAX_LETTERS_IN_COMPRESSED_GUESS_RESULT ==> (res matches Ok(c)
                && c.value() == packed_results(letter_results@)),
    {
        if letter_results.len() > MAX_LETTERS_IN_COMPRESSED_GUESS_RESULT {
            return Err(WordleError::WordLength(MAX_LETTERS_IN_COMPRESSED_GUESS_RESULT));
        }
        let mut data: u32 = 0;
        let mut index: u32 = 0;
        let mut i: usize = 0;
        while i < letter_results.len()
            invariant
                i <= letter_results@.len() <= 16,
                index == 2 * i,
                data == packed_results(letter_results@.take(i as int)),
                data < pow4(i as nat),
            decreases letter_results@.len() - i,
        {
            let c = Self::code(letter_results[i]);
            proof {
                lemma_pack_push(letter_results@.take(i as int), letter_results@[i as int]);
                assert(letter_results@.take(i as int).push(letter_results@[i as int])
                    =~= letter_results@.take(i + 1));
                lemma_pow4_shift(data, c, index);
            }
            data = data | (c << index);
            index = index + 2;
            i = i + 1;
        }
        proof {
            assert(letter_results@.take(i as int) =~= letter_results@);
        }
        Ok(CompressedGuessResult { data })
    }
}

proof fn lemma_shift_is_pow4(index: u32)
    requires
        index % 2 == 0,
        index < 32,
    ensures
        (1u32 << index) as nat == pow4((index / 2) as nat),
    decreases index,
{
    if index == 0 {
        assert(1u32 << 0u32 == 1u32) by (bit_vector);
    } else {
        let prev = (index - 2) as u32;
        lemma_shift_is_pow4(prev);
        assert(prev < 30 ==> (1u32 << ((prev + 2) as u32)) == 4 * (1u32 << prev)) by (bit_vector);
        assert((prev + 2) as u32 == index);
    }
}

/// Or-ing a two-bit code above the bits already used is the same as adding it.
proof fn lemma_pow4_shift(data: u32, c: u32, index: u32)
    requires
        index % 2 == 0,
        index < 32,
        1 <= c <= 3,
        data < pow4((index / 2) as nat),
    ensures
        data | (c << index) == data + c * pow4((index / 2) as nat),
        data + c * pow4((index / 2) as nat) < pow4((index / 2 + 1) as nat),
{
    lemma_shift_is_pow4(index);
    let p = 1u32 << index;
    assert(data < p && 1 <= c <= 3 && index < 31 ==> data | (c << index) == data + c * p
        && data + c * p < 4 * p) by (bit_vector)
        requires
            p == 1u32 << index,
    ;
}

proof fn lemma_pack_push(s: Seq<LetterResult>, r: LetterResult)
    ensures
        packed_results(s.push(r)) == packed_results(s) + result_code(r) * pow4(s.len()),
    decreases s.len(),
{
    let t = s.push(r);
    if s.len() == 0 {
        assert(t.drop_first() =~= Seq::<LetterResult>::empty());
        assert(packed_results(t) == result_code(t[0]) + 4 * packed_results(t.drop_first()));
        assert(packed_results(t.drop_first()) == 0);
        assert(pow4(0) == 1);
        assert(result_code(r) * pow4(s.len()) == result_code(r));
    } else {
        let u = s.drop_first();
        lemma_pack_push(u, r);
        assert(t.drop_first() =~= u.push(r));
        assert(t[0] == s[0]);
        assert(packed_results(t) == result_code(s[0]) + 4 * packed_results(u.push(r)));
        assert(packed_results(s) == result_code(s[0]) + 4 * packed_results(u));
        assert(pow4(s.len()) == 4 * pow4(u.len()));
        assert(result_code(r) * pow4(s.len()) == 4 * (result_code(r) * pow4(u.len())))
            by (nonlinear_arith)
            requires
                pow4(s.len()) == 4 * pow4(u.len()),
        ;
        assert(packed_results(t) == packed_results(s) + result_code(r) * pow4(s.len()));
    }
}


/// Equal packed values come only from equal result sequences.
pub proof fn lemma_packed_results_injective(a: Seq<LetterResult>, b: Seq<LetterResult>)
    ensures
        packed_results(a) == packed_results(b) <==> a == b,
    decreases a.len(),
{
    if a.len() == 0 || b.len() == 0 {
        if a.len() != 0 {
            assert(packed_results(a) >= 1);
        }
        if b.len() != 0 {
            assert(packed_results(b) >= 1);
        }
        if a.len() == 0 && b.len() == 0 {
            assert(a =~= b);
        }
    } else {
        lemma_packed_results_injective(a.drop_first(), b.drop_first());
        if packed_results(a) == packed_results(b) {
            let pa = packed_results(a.drop_first());
            let pb = packed_results(b.drop_first());
            let ca = result_code(a[0]);
            let cb = result_code(b[0]);
            assert(ca == cb && pa == pb) by (nonlinear_arith)
                requires
                    ca + 4 * pa == cb + 4 * pb,
                    1 <= ca <= 3,
                    1 <= cb <= 3,
            ;
            assert(a[0] == b[0]);
            assert(a =~= seq![a[0]] + a.drop_first());
            assert(b =~= seq![b[0]] + b.drop_first());
        }
    }
}

/// Two compressed results are equal exactly when they hold the same results.
pub proof fn lemma_compressed_results_equal(
    c1: CompressedGuessResult,
    c2: CompressedGuessResult,
    a: Seq<LetterResult>,
    b: Seq<LetterResult>,
)
    requires
        c1.value() == packed_results(a),
        c2.value() == packed_results(b),
    ensures
        c1 == c2 <==> a == b,
{
    lemma_packed_results_injective(a, b);
    CompressedGuessResult::lemma_value_determines(c1, c2);
}

/// Number of positions `i < n` with `s[i] == c`.
pub open spec fn num_matches(s: Seq<char>, c: char, n: int) -> nat
    decreases n,
{
    if n <= 0 {
        0
    } else {
        num_matches(s, c, n - 1) + if s[n - 1] == c {
            1nat
        } else {
            0nat
        }
    }
}

/// Number of positions `i < n` where the guess has `c` and so does the objective.
pub open spec fn num_correct(o: Seq<char>, g: Seq<char>, c: char, n: int) -> nat
    decreases n,
{
    if n <= 0 {
        0
    } else {
        num_correct(o, g, c, n - 1) + if g[n - 1] == c && o[n - 1] == c {
            1nat
        } else {
            0nat
        }
    }
}

/// Number of positions `i < n` where the guess has `c` but the objective does not.
pub open spec fn num_misplaced(o: Seq<char>, g: Seq<char>, c: char, n: int) -> nat
    decreases n,
{
    if n <= 0 {
        0
    } else {
        num_misplaced(o, g, c, n - 1) + if g[n - 1] == c && o[n - 1] != c {
            1nat
        } else {
            0nat
        }
    }
}

/// The result for the letter at position `i` of guess `g` against objective `o`: `Correct` where
/// the letters agree, otherwise `PresentNotHere` for as many of the misplaced occurrences of the
/// letter, from the start of the guess, as the objective still holds after the correct ones.
pub open spec fn spec_letter_result(o: Seq<char>, g: Seq<char>, i: int) -> LetterResult {
    if g[i] == o[i] {
        LetterResult::Correct
    } else if num_misplaced(o, g, g[i], i) + num_correct(o, g, g[i], g.len() as int)
        < num_matches(o, g[i], o.len() as int) {
        LetterResult::PresentNotHere
    } else {
        LetterResult::NotPresent
    }
}

/// The results of guessing `g` when the objective is `o`.
pub open spec fn spec_guess_results(o: Seq<char>, g: Seq<char>) -> Seq<LetterResult> {
    Seq::new(g.len(), |i: int| spec_letter_result(o, g, i))
}

/// Every letter of a guess is `Correct` exactly when the guess is the objective (for words of
/// the same length).
pub proof fn lemma_all_correct_iff_same(o: Seq<char>, g: Seq<char>)
    requires
        o.len() == g.len(),
    ensures
        (forall|i: int|
            0 <= i < g.len() ==> #[trigger] spec_guess_results(o, g)[i] == LetterResult::Correct)
            <==> o == g,
{
    if forall|i: int|
        0 <= i < g.len() ==> #[trigger] spec_guess_results(o, g)[i] == LetterResult::Correct {
        assert forall|i: int| 0 <= i < g.len() implies o[i] == g[i] by {
            assert(spec_guess_results(o, g)[i] == LetterResult::Correct);
        }
        assert(o =~= g);
    }
}

/// The places where guess and objective both hold `c` are no more than those where the objective
/// holds it.
pub proof fn lemma_correct_le_matches(o: Seq<char>, g: Seq<char>, c: char, n: int)
    ensures
        num_correct(o, g, c, n) <= num_matches(o, c, n),
    decreases n,
{
    if n > 0 {
        lemma_correct_le_matches(o, g, c, n - 1);
    }
}

proof fn lemma_count_bounds(o: Seq<char>, g: Seq<char>, c: char, n: int)
    requires
        n >= 0,
    ensures
        num_matches(o, c, n) <= n,
        num_correct(o, g, c, n) <= n,
        num_misplaced(o, g, c, n) <= n,
    decreases n,
{
    if n > 0 {
        lemma_count_bounds(o, g, c, n - 1);
    }
}

fn count_matches(s: &Vec<char>, c: char, n: usize) -> (r: usize)
    requires
        n <= s@.len(),
    ensures
        r == num_matches(s@, c, n as int),
{
    let mut r: usize = 0;
    let mut i: usize = 0;
    while i < n
        invariant
            i <= n <= s@.len(),
            r == num_matches(s@, c, i as int),
        decreases n - i,
    {
        proof {
            lemma_count_bounds(s@, s@, c, i as int);
        }
        if s[i] == c {
            r = r + 1;
        }
        i = i + 1;
    }
    r
}

/// The number of positions `m < n` where the guess has `c` and the flag (whether the letter is
/// aligned) is `want`.
fn count_flagged(
    o: &Vec<char>,
    g: &Vec<char>,
    flags: &Vec<bool>,
    c: char,
    n: usize,
    want: bool,
) -> (r: usize)
    requires
        n <= g@.len(),
        flags@.len() == g@.len(),
        forall|m: int| 0 <= m < g@.len() ==> #[trigger] flags@[m] == aligned(o@, g@, m),
    ensures
        want ==> r == num_aligned(o@, g@, c, n as int),
        !want ==> r == num_unaligned(o@, g@, c, n as int),
{
    let mut r: usize = 0;
    let mut i: usize = 0;
    while i < n
        invariant
            i <= n <= g@.len(),
            flags@.len() == g@.len(),
            forall|m: int| 0 <= m < g@.len() ==> #[trigger] flags@[m] == aligned(o@, g@, m),
            want ==> r == num_aligned(o@, g@, c, i as int),
            !want ==> r == num_unaligned(o@, g@, c, i as int),
            r <= i,
        decreases n - i,
    {
        if g[i] == c && flags[i] == want {
            r = r + 1;
        }
        i = i + 1;
    }
    r
}

/// The length of a word in bytes, as UTF-8 encodes it: what `str::len` gives.
pub open spec fn byte_len(w: Seq<char>) -> usize {
    vstd::utf8::encode_utf8(w).len() as usize
}

/// The number of bytes UTF-8 takes for `c`.
pub open spec fn char_width(c: char) -> nat {
    let v = c as u32;
    if v < 0x80 {
        1
    } else if v < 0x800 {
        2
    } else if v < 0x10000 {
        3
    } else {
        4
    }
}

/// The byte offset at which the letter at position `i` of `w` starts.
pub open spec fn char_offset(w: Seq<char>, i: int) -> nat
    decreases i,
{
    if i <= 0 {
        0
    } else {
        char_offset(w, i - 1) + char_width(w[i - 1])
    }
}

/// Later letters start at later offsets.
pub proof fn lemma_char_offset_increasing(w: Seq<char>, i: int, j: int)
    requires
        0 <= i < j,
    ensures
        char_offset(w, i) < char_offset(w, j),
    decreases j,
{
    if i < j - 1 {
        lemma_char_offset_increasing(w, i, j - 1);
    }
}

/// The letters of `w` start at offsets no more than four bytes apart.
proof fn lemma_char_offset_bound(w: Seq<char>, i: int)
    requires
        0 <= i,
    ensures
        char_offset(w, i) <= 4 * i,
    decreases i,
{
    if i > 0 {
        lemma_char_offset_bound(w, i - 1);
    }
}

/// A word of one-byte letters has each letter at its own position.
proof fn lemma_char_offset_ascii(w: Seq<char>, i: int)
    requires
        0 <= i <= w.len(),
        vstd::utf8::is_ascii_chars(w),
    ensures
        char_offset(w, i) == i,
    decreases i,
{
    if i > 0 {
        lemma_char_offset_ascii(w, i - 1);
        assert('\0' <= w[i - 1] <= '\u{7f}');
    }
}

/// The guess's letter at position `i` meets the same letter of the objective at the same byte
/// offset.
pub open spec fn aligned(o: Seq<char>, g: Seq<char>, i: int) -> bool {
    exists|j: int| 0 <= j < o.len() && char_offset(o, j) == char_offset(g, i) && o[j] == g[i]
}

/// Number of positions `i < n` where the guess has `c` and so does the objective, at the same
/// byte offset.
pub open spec fn num_aligned(o: Seq<char>, g: Seq<char>, c: char, n: int) -> nat
    decreases n,
{
    if n <= 0 {
        0
    } else {
        num_aligned(o, g, c, n - 1) + if g[n - 1] == c && aligned(o, g, n - 1) {
            1nat
        } else {
            0nat
        }
    }
}

/// Number of positions `i < n` where the guess has `c` but the objective does not, at that byte
/// offset.
pub open spec fn num_unaligned(o: Seq<char>, g: Seq<char>, c: char, n: int) -> nat
    decreases n,
{
    if n <= 0 {
        0
    } else {
        num_unaligned(o, g, c, n - 1) + if g[n - 1] == c && !aligned(o, g, n - 1) {
            1nat
        } else {
            0nat
        }
    }
}

/// The result for the letter at position `i` of the guess, with letters matched by byte offset:
/// `Correct` where the objective has the same letter at the same offset, otherwise
/// `PresentNotHere` for as many of the other occurrences of the letter, from the start of the
/// guess, as the objective still holds after the correct ones.
#[verifier::opaque]
pub open spec fn offset_letter_result(o: Seq<char>, g: Seq<char>, i: int) -> LetterResult {
    if aligned(o, g, i) {
        LetterResult::Correct
    } else if num_unaligned(o, g, g[i], i) + num_aligned(o, g, g[i], g.len() as int) < num_matches(
        o,
        g[i],
        o.len() as int,
    ) {
        LetterResult::PresentNotHere
    } else {
        LetterResult::NotPresent
    }
}

/// The results of the first `i` letters of guess `g` against `o`, over `len` bytes: the byte at
/// which one of these letters starts holds that letter's result, the other bytes `NotPresent`.
pub open spec fn results_written(o: Seq<char>, g: Seq<char>, i: int, len: int) -> Seq<LetterResult> {
    Seq::new(
        len as nat,
        |b: int|
            if exists|m: int| 0 <= m < i && char_offset(g, m) == b {
                offset_letter_result(o, g, choose|m: int| 0 <= m < i && char_offset(g, m) == b)
            } else {
                LetterResult::NotPresent
            },
    )
}

/// The results of guessing `g` against `o`, one per byte of the guess (`len` bytes): the byte at
/// which a letter of the guess starts holds that letter's result, the other bytes `NotPresent`.
pub open spec fn byte_results(o: Seq<char>, g: Seq<char>, len: int) -> Seq<LetterResult> {
    results_written(o, g, g.len() as int, len)
}

/// Writing the next letter's result at the byte where it starts changes that byte only.
proof fn lemma_written_at(o: Seq<char>, g: Seq<char>, i: int, len: int, x: int)
    requires
        0 <= i < g.len(),
        0 <= x < len,
    ensures
        results_written(o, g, i + 1, len)[x] == if x == char_offset(g, i) {
            offset_letter_result(o, g, i)
        } else {
            results_written(o, g, i, len)[x]
        },
{
    if x == char_offset(g, i) {
        assert forall|m: int| 0 <= m < i implies char_offset(g, m) != x by {
            lemma_char_offset_increasing(g, m, i);
        }
        assert(char_offset(g, i) == x);
        let m = choose|m: int| 0 <= m < i + 1 && char_offset(g, m) == x;
        if m < i {
            lemma_char_offset_increasing(g, m, i);
        }
    } else if exists|m: int| 0 <= m < i + 1 && char_offset(g, m) == x {
        let m = choose|m: int| 0 <= m < i + 1 && char_offset(g, m) == x;
        assert(m < i);
        assert(exists|m2: int| 0 <= m2 < i && char_offset(g, m2) == x);
        let m2 = choose|m2: int| 0 <= m2 < i && char_offset(g, m2) == x;
        if m < m2 {
            lemma_char_offset_increasing(g, m, m2);
        } else if m2 < m {
            lemma_char_offset_increasing(g, m2, m);
        }
    }
}

/// Writing the next letter's result at the byte where it starts.
proof fn lemma_results_written_next(o: Seq<char>, g: Seq<char>, i: int, len: int)
    requires
        0 <= i < g.len(),
        0 <= len,
    ensures
        results_written(o, g, i + 1, len) == if char_offset(g, i) < len {
            results_written(o, g, i, len).update(
                char_offset(g, i) as int,
                offset_letter_result(o, g, i),
            )
        } else {
            results_written(o, g, i, len)
        },
{
    let before = results_written(o, g, i, len);
    let after = results_written(o, g, i + 1, len);
    let x0 = char_offset(g, i) as int;
    let expected = if x0 < len {
        before.update(x0, offset_letter_result(o, g, i))
    } else {
        before
    };
    assert forall|x: int| 0 <= x < len implies #[trigger] after[x] == expected[x] by {
        lemma_written_at(o, g, i, len, x);
    }
    assert(after =~= expected);
}

proof fn lemma_counts_ascii(o: Seq<char>, g: Seq<char>, c: char, n: int)
    requires
        0 <= n <= g.len(),
        o.len() == g.len(),
        vstd::utf8::is_ascii_chars(o),
        vstd::utf8::is_ascii_chars(g),
    ensures
        num_aligned(o, g, c, n) == num_correct(o, g, c, n),
        num_unaligned(o, g, c, n) == num_misplaced(o, g, c, n),
    decreases n,
{
    if n > 0 {
        lemma_counts_ascii(o, g, c, n - 1);
        lemma_aligned_ascii(o, g, n - 1);
    }
}

proof fn lemma_aligned_ascii(o: Seq<char>, g: Seq<char>, i: int)
    requires
        0 <= i < g.len(),
        o.len() == g.len(),
        vstd::utf8::is_ascii_chars(o),
        vstd::utf8::is_ascii_chars(g),
    ensures
        aligned(o, g, i) <==> o[i] == g[i],
{
    lemma_char_offset_ascii(g, i);
    lemma_char_offset_ascii(o, i);
    if aligned(o, g, i) {
        let j = choose|j: int|
            0 <= j < o.len() && char_offset(o, j) == char_offset(g, i) && o[j] == g[i];
        lemma_char_offset_ascii(o, j);
    }
}

/// For ASCII words of the same length, letters are bytes, and the results by byte offset are the
/// results letter by letter.
pub proof fn lemma_byte_results_ascii(o: Seq<char>, g: Seq<char>)
    requires
        o.len() == g.len(),
        vstd::utf8::is_ascii_chars(o),
        vstd::utf8::is_ascii_chars(g),
    ensures
        byte_results(o, g, g.len() as int) == spec_guess_results(o, g),
{
    assert forall|b: int| 0 <= b < g.len() implies #[trigger] byte_results(
        o,
        g,
        g.len() as int,
    )[b] == spec_guess_results(o, g)[b] by {
        reveal(offset_letter_result);
        lemma_char_offset_ascii(g, b);
        assert(exists|i: int| 0 <= i < g.len() && char_offset(g, i) == b);
        let i = choose|i: int| 0 <= i < g.len() && char_offset(g, i) == b;
        lemma_char_offset_ascii(g, i);
        lemma_aligned_ascii(o, g, b);
        lemma_counts_ascii(o, g, g[b], b);
        lemma_counts_ascii(o, g, g[b], g.len() as int);
    }
    assert(byte_results(o, g, g.len() as int) =~= spec_guess_results(o, g));
}

/// An ASCII word has as many bytes as letters.
pub proof fn lemma_byte_len_ascii(w: Seq<char>)
    requires
        vstd::utf8::is_ascii_chars(w),
        w.len() <= usize::MAX,
    ensures
        byte_len(w) == w.len(),
{
    vstd::utf8::is_ascii_chars_encode_utf8(w);
}

/// The number of bytes UTF-8 takes for `c`.
fn width_of(c: char) -> (w: u128)
    ensures
        w == char_width(c),
{
    let v = c as u32;
    if v < 0x80 {
        1
    } else if v < 0x800 {
        2
    } else if v < 0x10000 {
        3
    } else {
        4
    }
}

/// The byte offsets at which the letters of `w` start.
fn offsets_of(w: &Vec<char>) -> (offsets: Vec<u128>)
    ensures
        offsets@.len() == w@.len(),
        forall|i: int| 0 <= i < w@.len() ==> #[trigger] offsets@[i] == char_offset(w@, i),
{
    let mut offsets: Vec<u128> = Vec::new();
    let mut offset: u128 = 0;
    let mut i: usize = 0;
    while i < w.len()
        invariant
            i <= w@.len(),
            offsets@.len() == i,
            offset == char_offset(w@, i as int),
            forall|m: int| 0 <= m < i ==> #[trigger] offsets@[m] == char_offset(w@, m),
        decreases w@.len() - i,
    {
        proof {
            lemma_char_offset_bound(w@, i as int);
        }
        offsets.push(offset);
        offset = offset + width_of(w[i]);
        i = i + 1;
    }
    offsets
}

/// Whether the guess's letter at position `i` meets the same letter of the objective at the same
/// byte offset.
fn is_aligned(o: &Vec<char>, off_o: &Vec<u128>, g: &Vec<char>, off_g: &Vec<u128>, i: usize) -> (b:
    bool)
    requires
        i < g@.len(),
        off_o@.len() == o@.len(),
        off_g@.len() == g@.len(),
        forall|j: int| 0 <= j < o@.len() ==> #[trigger] off_o@[j] == char_offset(o@, j),
        forall|j: int| 0 <= j < g@.len() ==> #[trigger] off_g@[j] == char_offset(g@, j),
    ensures
        b == aligned(o@, g@, i as int),
{
    let mut j: usize = 0;
    while j < o.len()
        invariant
            j <= o@.len(),
            i < g@.len(),
            off_o@.len() == o@.len(),
            off_g@.len() == g@.len(),
            forall|m: int| 0 <= m < o@.len() ==> #[trigger] off_o@[m] == char_offset(o@, m),
            forall|m: int| 0 <= m < g@.len() ==> #[trigger] off_g@[m] == char_offset(g@, m),
            forall|m: int|
                0 <= m < j ==> !(char_offset(o@, m) == char_offset(g@, i as int) && o@[m] == g@[i as int]),
        decreases o@.len() - j,
    {
        if off_o[j] == off_g[i] && o[j] == g[i] {
            return true;
        }
        j = j + 1;
    }
    false
}

/// Determines the result of the given `guess` when applied to the given `objective`.
///
/// Returns a [`WordleError::WordLength`] error holding the objective's length in bytes if the two
/// words differ in length in bytes. Otherwise there is one result per byte of the guess: letters
/// are matched by the byte offsets at which they start, each letter's result stands at the byte
/// where it starts, and the other bytes are `NotPresent`. For ASCII words, bytes are letters.
pub fn get_result_for_guess<'a>(objective: &str, guess: &'a str) -> (res: Result<
    GuessResult<'a>,
    WordleError,
>)
    ensures
        byte_len(objective@) != byte_len(guess@) ==> (res matches Err(WordleError::WordLength(n))
            && n == byte_len(objective@)),
        byte_len(objective@) == byte_len(guess@) ==> (res matches Ok(r) && r.guess == guess
            && r.results@ == byte_results(objective@, guess@, byte_len(guess@) as int)),
{
    let objective_bytes = objective.len();
    let len = guess.len();
    if objective_bytes != len {
        return Err(WordleError::WordLength(objective_bytes));
    }
    let o = chars_of(objective);
    let g = chars_of(guess);
    let off_o = offsets_of(&o);
    let off_g = offsets_of(&g);
    let mut flags: Vec<bool> = Vec::new();
    let mut k: usize = 0;
    while k < g.len()
        invariant
            k <= g@.len(),
            flags@.len() == k,
            off_o@.len() == o@.len(),
            off_g@.len() == g@.len(),
            forall|j: int| 0 <= j < o@.len() ==> #[trigger] off_o@[j] == char_offset(o@, j),
            forall|j: int| 0 <= j < g@.len() ==> #[trigger] off_g@[j] == char_offset(g@, j),
            forall|m: int| 0 <= m < k ==> #[trigger] flags@[m] == aligned(o@, g@, m),
        decreases g@.len() - k,
    {
        flags.push(is_aligned(&o, &off_o, &g, &off_g, k));
        k = k + 1;
    }
    let mut results: Vec<LetterResult> = Vec::new();
    let mut b: usize = 0;
    while b < len
        invariant
            b <= len,
            results@.len() == b,
            forall|m: int| 0 <= m < b ==> #[trigger] results@[m] == LetterResult::NotPresent,
        decreases len - b,
    {
        results.push(LetterResult::NotPresent);
        b = b + 1;
    }
    let n = g.len();
    proof {
        assert(results@ =~= results_written(o@, g@, 0, len as int));
    }
    let mut i: usize = 0;
    while i < n
        invariant
            n == g@.len(),
            i <= n,
            o@ == objective@,
            g@ == guess@,
            results@ == results_written(o@, g@, i as int, len as int),
            flags@.len() == n,
            forall|m: int| 0 <= m < n ==> #[trigger] flags@[m] == aligned(o@, g@, m),
            off_g@.len() == n,
            forall|j: int| 0 <= j < n ==> #[trigger] off_g@[j] == char_offset(g@, j),
        decreases n - i,
    {
        let c = g[i];
        let r = if flags[i] {
            LetterResult::Correct
        } else {
            let total = count_matches(&o, c, o.len());
            let correct = count_flagged(&o, &g, &flags, c, n, true);
            let before = count_flagged(&o, &g, &flags, c, i, false);
            if (before as u128) + (correct as u128) < total as u128 {
                LetterResult::PresentNotHere
            } else {
                LetterResult::NotPresent
            }
        };
        proof {
            reveal(offset_letter_result);
            lemma_results_written_next(o@, g@, i as int, len as int);
        }
        if off_g[i] < len as u128 {
            let at = off_g[i] as usize;
            results.set(at, r);
        }
        i = i + 1;
    }
    Ok(GuessResult { guess, results })
}

} // verus!
