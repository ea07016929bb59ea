use vstd::prelude::*;

use crate::data::WordBank;
use crate::text::{debug_quoted, debug_text, swap_items};
use vstd::string::StringExecFns;

verus! {

/// `s` with the items at `i` and `j` traded.
pub open spec fn swapped<T>(s: Seq<T>, i: int, j: int) -> Seq<T> {
    s.update(i, s[j]).update(j, s[i])
}

/// `perm` sends each of `0..n` to a distinct one of `0..n`.
pub open spec fn is_permutation(perm: Seq<int>, n: int) -> bool {
    &&& perm.len() == n
    &&& forall|j: int| 0 <= j < n ==> 0 <= #[trigger] perm[j] < n
    &&& forall|j1: int, j2: int|
        0 <= j1 < n && 0 <= j2 < n && j1 != j2 ==> #[trigger] perm[j1] != #[trigger] perm[j2]
}

/// `k` is the image under `perm` of one of `0..n`.
pub open spec fn reached(perm: Seq<int>, n: int, k: int) -> bool {
    exists|j: int| 0 <= j < n && #[trigger] perm[j] == k
}

/// A permutation reaches every index: each of `0..n` is the image of one of `0..n`.
pub proof fn lemma_permutation_onto(perm: Seq<int>, n: int)
    requires
        is_permutation(perm, n),
    ensures
        forall|k: int| 0 <= k < n ==> #[trigger] reached(perm, n, k),
{
    let domain = vstd::set_lib::set_int_range(0, n);
    let f = |j: int| perm[j];
    let image = domain.map(f);
    vstd::set_lib::lemma_int_range(0, n);
    assert(vstd::relations::injective_on(f, domain));
    vstd::set_lib::lemma_map_size(domain, image, f);
    assert(image.subset_of(domain)) by {
        assert forall|k: int| #[trigger] image.contains(k) implies domain.contains(k) by {
            let j = choose|j: int| domain.contains(j) && f(j) == k;
        }
    }
    vstd::set_lib::lemma_subset_equality(image, domain);
    assert forall|k: int| 0 <= k < n implies #[trigger] reached(perm, n, k) by {
        assert(domain.contains(k));
        assert(image.contains(k));
        let j = choose|j: int| domain.contains(j) && f(j) == k;
        assert(perm[j] == k);
    }
}

/// The section that index `j` lies in when the sections end at `a`, `p` and `g`: 1 for the
/// possible guessed words, 2 for the possible unguessed ones, 3 for the impossible unguessed ones
/// and 4 for the impossible guessed ones.
pub open spec fn section_of(a: int, p: int, g: int, j: int) -> int {
    if j < a {
        1
    } else if j < p {
        2
    } else if j < g {
        3
    } else {
        4
    }
}

/// The section that a word of section `s` belongs to once a filter answered `keep` for it: a
/// possible word that is not kept becomes impossible, and stays guessed or unguessed.
pub open spec fn filtered_section(s: int, keep: bool) -> int {
    if s == 1 {
        if keep {
            1
        } else {
            4
        }
    } else if s == 2 {
        if keep {
            2
        } else {
            3
        }
    } else {
        s
    }
}

/// The first index in `lo..hi` at which `ws` holds `w`.
pub open spec fn position_in(ws: Seq<Seq<char>>, lo: int, hi: int, w: Seq<char>) -> Option<int>
    decreases hi - lo,
{
    if lo >= hi {
        None
    } else if ws[lo] == w {
        Some(lo)
    } else {
        position_in(ws, lo + 1, hi, w)
    }
}

/// A position found lies in the searched range and holds the word, and nothing before it does.
pub proof fn lemma_position_in(ws: Seq<Seq<char>>, lo: int, hi: int, w: Seq<char>)
    ensures
        match position_in(ws, lo, hi, w) {
            Some(q) => lo <= q < hi && ws[q] == w && forall|m: int| lo <= m < q ==> ws[m] != w,
            None => forall|m: int| lo <= m < hi ==> ws[m] != w,
        },
    decreases hi - lo,
{
    if lo < hi && ws[lo] != w {
        lemma_position_in(ws, lo + 1, hi, w);
    }
}

/// Every one of `words` has length `l`.
pub open spec fn all_of_length(words: Seq<Seq<char>>, l: nat) -> bool {
    forall|j: int| 0 <= j < words.len() ==> (#[trigger] words[j]).len() == l
}

/// `after` is `before` with the first unguessed copy of `guess`, if any, moved to the guessed
/// words of its section: a possible word to the end of the possible guessed words, an impossible
/// one to the start of the impossible guessed words.
pub open spec fn guess_removed(before: GroupedWords, after: GroupedWords, guess: Seq<char>) -> bool {
    let words = before.words_view();
    let a = before.guessed_possible_end();
    let p = before.possible_end();
    let g = before.unguessed_end();
    match position_in(words, a, g, guess) {
        None => after.words_view() == words && after.guessed_possible_end() == a
            && after.possible_end() == p && after.unguessed_end() == g,
        Some(q) => if q < p {
            &&& after.words_view() == swapped(words, q, a)
            &&& after.guessed_possible_end() == a + 1
            &&& after.possible_end() == p
            &&& after.unguessed_end() == g
        } else {
            &&& after.words_view() == swapped(words, q, g - 1)
            &&& after.guessed_possible_end() == a
            &&& after.possible_end() == p
            &&& after.unguessed_end() == g - 1
        },
    }
}

/// Trading the items at two places within `lo..hi` keeps the items of `lo..hi`, as a multiset.
proof fn lemma_swap_keeps_multiset<T>(s: Seq<T>, i: int, j: int, lo: int, hi: int)
    requires
        0 <= lo <= i < hi <= s.len(),
        lo <= j < hi,
    ensures
        swapped(s, i, j).subrange(lo, hi).to_multiset() =~= s.subrange(lo, hi).to_multiset(),
{
    broadcast use {
        vstd::seq_lib::group_to_multiset_ensures,
        vstd::multiset::group_multiset_axioms,
        vstd::multiset::group_multiset_properties,
    };

    let t = s.subrange(lo, hi);
    let u = t.update(i - lo, s[j]);
    let v = u.update(j - lo, s[i]);
    assert(swapped(s, i, j).subrange(lo, hi) =~= v);
    assert(t[i - lo] == s[i]);
    assert(u[j - lo] == s[j]);
    assert(t.to_multiset().contains(s[i]));
    assert(t.to_multiset().contains(s[j]));
    assert(v.to_multiset() =~= t.to_multiset().insert(s[j]).remove(s[i]).insert(s[i]).remove(
        s[j],
    ));
}

/// The possible words of `g`.
pub open spec fn possible_of(g: GroupedWords) -> Seq<Seq<char>> {
    g.words_view().subrange(0, g.possible_end())
}

/// The unguessed words of `g`.
pub open spec fn unguessed_of(g: GroupedWords) -> Seq<Seq<char>> {
    g.words_view().subrange(g.guessed_possible_end(), g.unguessed_end())
}

/// Taking a guess out of the unguessed words keeps all the words and the possible words, as
/// multisets (a guessed word stays possible), and takes one copy of the guess out of the
/// unguessed words when it is among them; otherwise nothing changes.
pub proof fn lemma_guess_removed_multisets(before: GroupedWords, after: GroupedWords, guess: Seq<char>)
    requires
        before.wf(),
        guess_removed(before, after, guess),
    ensures
        after.words_view().to_multiset() =~= before.words_view().to_multiset(),
        possible_of(after).to_multiset() =~= possible_of(before).to_multiset(),
        unguessed_of(before).contains(guess) ==> unguessed_of(after).to_multiset()
            =~= unguessed_of(before).to_multiset().remove(guess),
        !unguessed_of(before).contains(guess) ==> after.words_view() == before.words_view()
            && possible_of(after) == possible_of(before) && unguessed_of(after) == unguessed_of(
            before,
        ),
{
    broadcast use {
        vstd::seq_lib::group_to_multiset_ensures,
        vstd::multiset::group_multiset_axioms,
    };

    let words = before.words_view();
    let a = before.guessed_possible_end();
    let p = before.possible_end();
    let g = before.unguessed_end();
    let n = words.len() as int;
    lemma_position_in(words, a, g, guess);
    match position_in(words, a, g, guess) {
        None => {
            if unguessed_of(before).contains(guess) {
                let m = choose|m: int|
                    0 <= m < unguessed_of(before).len() && unguessed_of(before)[m] == guess;
                assert(words[a + m] == guess);
            }
        },
        Some(q) => {
            assert(unguessed_of(before)[q - a] == guess);
            assert(unguessed_of(before).contains(guess));
            assert(words.subrange(0, n) =~= words);
            if q < p {
                let w = swapped(words, q, a);
                lemma_swap_keeps_multiset(words, q, a, 0, n);
                assert(w.subrange(0, n) =~= w);
                lemma_swap_keeps_multiset(words, q, a, 0, p);
                lemma_swap_keeps_multiset(words, q, a, a, g);
                let su = w.subrange(a, g);
                assert(su[0] == guess);
                vstd::seq_lib::to_multiset_remove(su, 0);
                assert(su.remove(0) =~= w.subrange(a + 1, g));
            } else {
                let w = swapped(words, q, g - 1);
                lemma_swap_keeps_multiset(words, q, g - 1, 0, n);
                assert(w.subrange(0, n) =~= w);
                assert(w.subrange(0, p) =~= words.subrange(0, p));
                lemma_swap_keeps_multiset(words, q, g - 1, a, g);
                let su = w.subrange(a, g);
                assert(su[g - 1 - a] == guess);
                vstd::seq_lib::to_multiset_remove(su, g - 1 - a);
                assert(su.remove(g - 1 - a) =~= w.subrange(a, g - 1));
            }
        },
    }
}

/// Removing a guess keeps the words, in number and in length; any other word that was possible
/// and not guessed stays so; and the words stay filterable when the removal left them so.
pub proof fn lemma_guess_removed(before: GroupedWords, after: GroupedWords, guess: Seq<char>)
    requires
        before.wf(),
        guess_removed(before, after, guess),
    ensures
        after.words_view().len() == before.words_view().len(),
        forall|l: nat|
            #[trigger] all_of_length(before.words_view(), l) ==> all_of_length(
                after.words_view(),
                l,
            ),
        forall|o: Seq<char>|
            o != guess && before.holds_possible_unguessed(o) ==> #[trigger]
                after.holds_possible_unguessed(o),
{
    let words = before.words_view();
    let a = before.guessed_possible_end();
    let p = before.possible_end();
    let g = before.unguessed_end();
    lemma_position_in(words, a, g, guess);
    assert forall|l: nat| #[trigger] all_of_length(words, l) implies all_of_length(
        after.words_view(),
        l,
    ) by {
        assert forall|j: int| 0 <= j < after.words_view().len() implies (
        #[trigger] after.words_view()[j]).len() == l by {
            match position_in(words, a, g, guess) {
                None => {},
                Some(q) => {
                    if q < p {
                        assert(after.words_view()[j] == words[j] || after.words_view()[j]
                            == words[q] || after.words_view()[j] == words[a]);
                    } else {
                        assert(after.words_view()[j] == words[j] || after.words_view()[j]
                            == words[q] || after.words_view()[j] == words[g - 1]);
                    }
                },
            }
        }
    }
    assert forall|o: Seq<char>|
        o != guess && before.holds_possible_unguessed(o) implies #[trigger]
        after.holds_possible_unguessed(o) by {
        let j = choose|j: int| a <= j < p && #[trigger] words[j] == o;
        match position_in(words, a, g, guess) {
            None => {
                assert(after.words_view()[j] == o);
            },
            Some(q) => {
                if q < p {
                    if j == a {
                        assert(after.words_view()[q] == o);
                    } else {
                        assert(after.words_view()[j] == o);
                    }
                } else {
                    assert(after.words_view()[j] == o);
                }
            },
        }
    }
}

/// The words, each as `{:?}` formats it, separated by `, ` and within square brackets.
pub open spec fn debug_list(words: Seq<Seq<char>>) -> Seq<char> {
    "["@ + joined_debug(words) + "]"@
}

/// The words, each as `{:?}` formats it, separated by `, `.
pub open spec fn joined_debug(words: Seq<Seq<char>>) -> Seq<char>
    decreases words.len(),
{
    if words.len() == 0 {
        Seq::empty()
    } else if words.len() == 1 {
        debug_quoted(words[0])
    } else {
        joined_debug(words.drop_last()) + ", "@ + debug_quoted(words.last())
    }
}

/// Appends the words `words[lo..hi]`, as [`debug_list`] writes them, to `out`.
fn append_debug_list(out: &mut String, words: &Vec<String>, lo: usize, hi: usize)
    requires
        lo <= hi <= words@.len(),
    ensures
        final(out)@ == old(out)@ + debug_list(
            words@.map_values(|s: String| s@).subrange(lo as int, hi as int),
        ),
{
    let ghost all = words@.map_values(|s: String| s@);
    let ghost start = out@;
    out.append("[");
    let mut i: usize = lo;
    while i < hi
        invariant
            lo <= i <= hi <= words@.len(),
            all == words@.map_values(|s: String| s@),
            out@ == start + "["@ + joined_debug(all.subrange(lo as int, i as int)),
        decreases hi - i,
    {
        let ghost prefix = out@;
        if i > lo {
            out.append(", ");
        }
        let quoted = debug_text(words[i].as_str());
        out.append(quoted.as_str());
        proof {
            let done = all.subrange(lo as int, i + 1);
            assert(done.drop_last() =~= all.subrange(lo as int, i as int));
            assert(done.last() == words@[i as int]@);
            if i == lo {
                assert(all.subrange(lo as int, i as int) =~= Seq::<Seq<char>>::empty());
                assert(joined_debug(all.subrange(lo as int, i as int)) =~= Seq::<char>::empty());
                assert(out@ =~= start + "["@ + joined_debug(done));
            } else {
                assert(out@ =~= start + "["@ + joined_debug(done));
            }
        }
        i = i + 1;
    }
    out.append("]");
    proof {
        assert(out@ =~= start + debug_list(all.subrange(lo as int, hi as int)));
    }
}

/// Efficiently tracks all possible words and all unguessed words as zero-cost slices within a
/// single array of all words. This assumes that only unguessed words are possible.
///
/// The words are kept in four sections, in this order: words that have been guessed and are
/// still possible; words that have not been guessed and are still possible; words that have not
/// been guessed and are not possible; words that have been guessed and are not possible.
#[derive(Clone)]
pub struct GroupedWords {
    pub all_words: Vec<String>,
    first_unguessed_possible_word: usize,
    num_possible_words: usize,
    first_guessed_impossible_word: usize,
}

impl GroupedWords {
    /// The words, in their current order.
    pub closed spec fn words_view(&self) -> Seq<Seq<char>> {
        self.all_words@.map_values(|s: String| s@)
    }

    /// Where the possible guessed words end and the possible unguessed ones begin.
    pub closed spec fn guessed_possible_end(&self) -> int {
        self.first_unguessed_possible_word as int
    }

    /// Where the possible words end.
    pub closed spec fn possible_end(&self) -> int {
        self.num_possible_words as int
    }

    /// Where the unguessed words end and the impossible guessed ones begin.
    pub closed spec fn unguessed_end(&self) -> int {
        self.first_guessed_impossible_word as int
    }

    /// The section that index `j` lies in (see [`section_of`]).
    pub open spec fn section(&self, j: int) -> int {
        section_of(self.guessed_possible_end(), self.possible_end(), self.unguessed_end(), j)
    }

    /// `o` is among the possible words that were not guessed.
    pub open spec fn holds_possible_unguessed(&self, o: Seq<char>) -> bool {
        exists|j: int|
            self.guessed_possible_end() <= j < self.possible_end() && #[trigger] self.words_view()[j]
                == o
    }

    /// The sections are in order and within the words.
    pub open spec fn wf(&self) -> bool {
        0 <= self.guessed_possible_end() <= self.possible_end() <= self.unguessed_end()
            <= self.words_view().len()
    }

    /// Constructs a new GroupedWords instance. Initially all words are considered possible and
    /// unguessed.
    pub fn new(words: &WordBank) -> (grouped: Self)
        ensures
            grouped.wf(),
            grouped.words_view() == words.words_view(),
            grouped.guessed_possible_end() == 0,
            grouped.possible_end() == words.words_view().len(),
            grouped.unguessed_end() == words.words_view().len(),
    {
        let all_words = crate::data::copy_words(words.words());
        let n = all_words.len();
        GroupedWords {
            all_words,
            first_unguessed_possible_word: 0,
            num_possible_words: n,
            first_guessed_impossible_word: n,
        }
    }

    /// The number of possible words.
    pub fn num_possible_words(&self) -> (n: usize)
        ensures
            n == self.possible_end(),
    {
        self.num_possible_words
    }

    /// The number of unguessed words.
    pub fn num_unguessed_words(&self) -> (n: usize)
        requires
            self.wf(),
        ensures
            n == self.unguessed_end() - self.guessed_possible_end(),
    {
        self.first_guessed_impossible_word - self.first_unguessed_possible_word
    }

    /// The slice of all unguessed words. Guaranteed to start with possible words.
    pub fn unguessed_words(&self) -> (words: &[String])
        requires
            self.wf(),
        ensures
            words@.map_values(|s: String| s@) == self.words_view().subrange(
                self.guessed_possible_end(),
                self.unguessed_end(),
            ),
    {
        proof {
            assert(self.all_words@.subrange(
                self.guessed_possible_end(),
                self.unguessed_end(),
            ).map_values(|s: String| s@) =~= self.words_view().subrange(
                self.guessed_possible_end(),
                self.unguessed_end(),
            ));
        }
        vstd::slice::slice_subrange(
            self.all_words.as_slice(),
            self.first_unguessed_possible_word,
            self.first_guessed_impossible_word,
        )
    }

    /// The slice of all possible words.
    pub fn possible_words(&self) -> (words: &[String])
        requires
            self.wf(),
        ensures
            words@.map_values(|s: String| s@) == self.words_view().subrange(0, self.possible_end()),
    {
        proof {
            assert(self.all_words@.subrange(0, self.possible_end()).map_values(|s: String| s@)
                =~= self.words_view().subrange(0, self.possible_end()));
        }
        vstd::slice::slice_subrange(self.all_words.as_slice(), 0, self.num_possible_words)
    }

    /// Trades the words at `i` and `j`.
    fn swap_words(&mut self, i: usize, j: usize)
        requires
            i < old(self).all_words@.len(),
            j < old(self).all_words@.len(),
        ensures
            final(self).all_words@.len() == old(self).all_words@.len(),
            final(self).words_view() == swapped(old(self).words_view(), i as int, j as int),
            final(self).first_unguessed_possible_word == old(self).first_unguessed_possible_word,
            final(self).num_possible_words == old(self).num_possible_words,
            final(self).first_guessed_impossible_word == old(self).first_guessed_impossible_word,
    {
        swap_items(&mut self.all_words, i, j);
        proof {
            assert(self.words_view() =~= swapped(old(self).words_view(), i as int, j as int));
        }
    }

    /// Removes this word from the set of unguessed words, if it's present among them: the first
    /// unguessed copy of it is moved to the guessed words of its section (a possible word stays
    /// possible).
    pub fn remove_guess_if_present(&mut self, guess: &str)
        requires
            old(self).wf(),
        ensures
            final(self).wf(),
            guess_removed(*old(self), *final(self), guess@),
    {
        let ghost before = self.words_view();
        let a = self.first_unguessed_possible_word;
        let g = self.first_guessed_impossible_word;
        let found = self.find_unguessed(guess);
        proof {
            lemma_position_in(before, a as int, g as int, guess@);
        }
        match found {
            None => {},
            Some(position) => {
                if position < self.num_possible_words {
                    self.swap_words(position, a);
                    self.first_unguessed_possible_word = a + 1;
                } else {
                    self.swap_words(position, g - 1);
                    self.first_guessed_impossible_word = g - 1;
                }
            },
        }
    }

    /// Finds the first unguessed copy of `guess`.
    fn find_unguessed(&self, guess: &str) -> (found: Option<usize>)
        requires
            self.wf(),
        ensures
            match found {
                Some(q) => position_in(
                    self.words_view(),
                    self.guessed_possible_end(),
                    self.unguessed_end(),
                    guess@,
                ) == Some(q as int),
                None => position_in(
                    self.words_view(),
                    self.guessed_possible_end(),
                    self.unguessed_end(),
                    guess@,
                ) is None,
            },
    {
        let ghost before = self.words_view();
        let target: String = guess.to_owned();
        let a = self.first_unguessed_possible_word;
        let g = self.first_guessed_impossible_word;
        let mut k: usize = a;
        while k < g
            invariant
                a <= k <= g <= self.all_words@.len(),
                a == self.first_unguessed_possible_word,
                g == self.first_guessed_impossible_word,
                self.words_view() == before,
                target@ == guess@,
                position_in(before, a as int, g as int, guess@) == position_in(
                    before,
                    k as int,
                    g as int,
                    guess@,
                ),
            decreases g - k,
        {
            proof {
                assert(before[k as int] == self.all_words@[k as int]@);
            }
            if self.all_words[k] == target {
                return Some(k);
            }
            k = k + 1;
        }
        None
    }

    /// Describes the sections, each as a list of quoted words: the possible guessed words, the
    /// possible unguessed words, the impossible guessed words and the impossible unguessed words.
    pub fn describe(&self) -> (text: String)
        requires
            self.wf(),
        ensures
            text@ == "GroupedWords { possible, guessed: "@ + debug_list(
                self.words_view().subrange(0, self.guessed_possible_end()),
            ) + "; possible, unguessed: "@ + debug_list(
                self.words_view().subrange(self.guessed_possible_end(), self.possible_end()),
            ) + "; impossible, guessed: "@ + debug_list(
                self.words_view().subrange(self.unguessed_end(), self.words_view().len() as int),
            ) + "; impossible, unguessed: "@ + debug_list(
                self.words_view().subrange(self.possible_end(), self.unguessed_end()),
            ) + " }"@,
    {
        let mut text = String::new();
        text.append("GroupedWords { possible, guessed: ");
        append_debug_list(&mut text, &self.all_words, 0, self.first_unguessed_possible_word);
        text.append("; possible, unguessed: ");
        append_debug_list(
            &mut text,
            &self.all_words,
            self.first_unguessed_possible_word,
            self.num_possible_words,
        );
        text.append("; impossible, guessed: ");
        append_debug_list(
            &mut text,
            &self.all_words,
            self.first_guessed_impossible_word,
            self.all_words.len(),
        );
        text.append("; impossible, unguessed: ");
        append_debug_list(
            &mut text,
            &self.all_words,
            self.num_possible_words,
            self.first_guessed_impossible_word,
        );
        text.append(" }");
        proof {
            assert(text@ =~= "GroupedWords { possible, guessed: "@ + debug_list(
                self.words_view().subrange(0, self.guessed_possible_end()),
            ) + "; possible, unguessed: "@ + debug_list(
                self.words_view().subrange(self.guessed_possible_end(), self.possible_end()),
            ) + "; impossible, guessed: "@ + debug_list(
                self.words_view().subrange(self.unguessed_end(), self.words_view().len() as int),
            ) + "; impossible, unguessed: "@ + debug_list(
                self.words_view().subrange(self.possible_end(), self.unguessed_end()),
            ) + " }"@);
        }
        text
    }

    /// Filters out possible words for which the filter returns false: each such word becomes
    /// impossible, and stays guessed or unguessed. No word is added, dropped or copied.
    #[verifier::spinoff_prover]
    #[verifier::rlimit(40)]
    pub fn filter_possible_words<F>(&mut self, filter: F) where F: Fn(&str) -> bool
        requires
            old(self).wf(),
            forall|s: &str| #[trigger] call_requires(filter, (s,)),
        ensures
            final(self).wf(),
            exists|perm: Seq<int>, kept: Seq<bool>|
                #[trigger] regrouped(*old(self), *final(self), perm, kept) && kept.len()
                    == old(self).possible_end() && forall|k: int|
                    0 <= k < old(self).possible_end() ==> #[trigger] answered(
                        filter,
                        old(self).words_view()[k],
                        kept[k],
                    ),
            exists|kept: Seq<bool>|
                kept.len() == old(self).possible_end() && (forall|k: int|
                    0 <= k < old(self).possible_end() ==> #[trigger] answered(
                        filter,
                        old(self).words_view()[k],
                        kept[k],
                    )) && layout(*final(self)) == #[trigger] filtered_words(*old(self), kept),
    {
        let ghost before = *self;
        let ghost words = self.words_view();
        let ghost n = words.len() as int;
        let ghost mut perm: Seq<int> = Seq::new(n as nat, |j: int| j);
        let ghost mut kept: Seq<bool> = Seq::new(self.num_possible_words as nat, |k: int| true);
        let a0 = self.first_unguessed_possible_word;
        let p0 = self.num_possible_words;
        proof {
            assert(regrouped(before, *self, perm, kept));
        }
        if p0 == 0 {
            proof {
                assert(layout(*self) == filtered_words(before, kept));
            }
            return;
        }
        // Iterate backwards so that, in the common case, we swap the minimum number of words.
        let mut i: usize = p0;
        while i > a0
            invariant
                a0 <= i <= self.num_possible_words <= p0,
                a0 <= p0,
                0 < p0,
                self.first_unguessed_possible_word == a0,
                before.guessed_possible_end() == a0,
                before.possible_end() == p0,
                before.words_view() == words,
                words.len() == n,
                kept.len() == p0,
                regrouped(before, *self, perm, kept),
                forall|j: int| 0 <= j < i ==> #[trigger] perm[j] == j,
                forall|k: int| 0 <= k < i ==> #[trigger] kept[k],
                forall|s: &str| #[trigger] call_requires(filter, (s,)),
                forall|k: int| i <= k < p0 ==> #[trigger] answered(filter, words[k], kept[k]),
                self.first_guessed_impossible_word == before.unguessed_end(),
                (self.words_view(), self.num_possible_words as int) == first_pass(
                    words,
                    p0 as int,
                    i as int,
                    kept,
                ),
            decreases i,
        {
            i = i - 1;
            proof {
                assert(perm[i as int] == i);
                assert(self.words_view()[i as int] == words[i as int]);
                assert(self.all_words@[i as int]@ == self.words_view()[i as int]);
            }
            let s: &str = self.all_words[i].as_str();
            let keep = filter(s);
            let ghost mid = *self;
            let ghost mid_perm = perm;
            proof {
                let old_kept = kept;
                kept = kept.update(i as int, keep);
                lemma_first_pass_frame(words, p0 as int, i + 1, old_kept, kept);
            }
            if !keep {
                // Move this word from the possible unguessed words to the impossible unguessed
                // words.
                let p = self.num_possible_words - 1;
                self.num_possible_words = p;
                self.swap_words(i, p);
                proof {
                    perm = swapped(perm, i as int, p as int);
                    lemma_swap_permutation(mid_perm, n, i as int, p as int);
                }
            }
            proof {
                assert(regrouped(before, *self, perm, kept));
                assert forall|k: int| i <= k < p0 implies #[trigger] answered(
                    filter,
                    words[k],
                    kept[k],
                ) by {
                    if k == i {
                        assert(s@ == words[k] && call_ensures(filter, (s,), kept[k]));
                    }
                }
            }
        }
        let ghost first_words = self.words_view();
        let ghost first_end = self.num_possible_words as int;
        // See if there are any guessed possible words to check. This is rare.
        if i == 0 {
            proof {
                assert(layout(*self) == filtered_words(before, kept));
            }
            return;
        }
        while i > 0
            invariant
                0 <= i <= self.first_unguessed_possible_word <= a0 <= p0,
                0 < p0,
                before.guessed_possible_end() == a0,
                before.possible_end() == p0,
                before.words_view() == words,
                words.len() == n,
                kept.len() == p0,
                regrouped(before, *self, perm, kept),
                forall|j: int| 0 <= j < i ==> #[trigger] perm[j] == j,
                forall|k: int| 0 <= k < i ==> #[trigger] kept[k],
                forall|s: &str| #[trigger] call_requires(filter, (s,)),
                forall|k: int| i <= k < p0 ==> #[trigger] answered(filter, words[k], kept[k]),
                first_pass(words, p0 as int, a0 as int, kept) == (first_words, first_end),
                layout(*self) == second_pass(
                    first_words,
                    a0 as int,
                    first_end,
                    before.unguessed_end(),
                    i as int,
                    kept,
                ),
            decreases i,
        {
            i = i - 1;
            proof {
                assert(perm[i as int] == i);
                assert(self.words_view()[i as int] == words[i as int]);
                assert(self.all_words@[i as int]@ == self.words_view()[i as int]);
            }
            let s: &str = self.all_words[i].as_str();
            let keep = filter(s);
            let ghost mid_perm = perm;
            proof {
                let old_kept = kept;
                kept = kept.update(i as int, keep);
                lemma_first_pass_frame(words, p0 as int, a0 as int, old_kept, kept);
                lemma_second_pass_frame(
                    first_words,
                    a0 as int,
                    first_end,
                    before.unguessed_end(),
                    i + 1,
                    old_kept,
                    kept,
                );
            }
            if !keep {
                // Bump the word to the end of the possible guessed words, then to the end of the
                // possible unguessed words, then to the end of the impossible unguessed words,
                // where it starts the impossible guessed words.
                let g = self.first_guessed_impossible_word - 1;
                let p = self.num_possible_words - 1;
                let a = self.first_unguessed_possible_word - 1;
                self.first_guessed_impossible_word = g;
                self.num_possible_words = p;
                self.first_unguessed_possible_word = a;
                self.swap_words(i, a);
                let ghost perm1 = swapped(mid_perm, i as int, a as int);
                self.swap_words(a, p);
                let ghost perm2 = swapped(perm1, a as int, p as int);
                self.swap_words(p, g);
                proof {
                    perm = swapped(perm2, p as int, g as int);
                    lemma_swap_permutation(mid_perm, n, i as int, a as int);
                    lemma_swap_permutation(perm1, n, a as int, p as int);
                    lemma_swap_permutation(perm2, n, p as int, g as int);
                }
            }
            proof {
                assert(regrouped(before, *self, perm, kept));
                assert forall|k: int| i <= k < p0 implies #[trigger] answered(
                    filter,
                    words[k],
                    kept[k],
                ) by {
                    if k == i {
                        assert(s@ == words[k] && call_ensures(filter, (s,), kept[k]));
                    }
                }
            }
        }
        proof {
            assert(layout(*self) == filtered_words(before, kept));
        }
    }
}

/// The words and the end of the possible words after the first pass of a filter has taken out,
/// from position `p0 - 1` down to `i`, the possible words that `kept` does not keep: each is
/// traded with the last possible word, which then ends the possible words.
pub open spec fn first_pass(ws: Seq<Seq<char>>, p0: int, i: int, kept: Seq<bool>) -> (
    Seq<Seq<char>>,
    int,
)
    decreases p0 - i,
{
    if i >= p0 {
        (ws, p0)
    } else {
        let prev = first_pass(ws, p0, i + 1, kept);
        if kept[i] {
            prev
        } else {
            (swapped(prev.0, i, prev.1 - 1), prev.1 - 1)
        }
    }
}

/// The words and section ends after the second pass of a filter has taken out, from position
/// `a0 - 1` down to `i`, the guessed possible words that `kept` does not keep: each is traded to
/// the end of the guessed possible words, then of the possible words, then of the unguessed
/// words, and each of those sections ends one sooner.
pub open spec fn second_pass(
    ws: Seq<Seq<char>>,
    a0: int,
    p0: int,
    g0: int,
    i: int,
    kept: Seq<bool>,
) -> (Seq<Seq<char>>, int, int, int)
    decreases a0 - i,
{
    if i >= a0 {
        (ws, a0, p0, g0)
    } else {
        let prev = second_pass(ws, a0, p0, g0, i + 1, kept);
        if kept[i] {
            prev
        } else {
            let a = prev.1 - 1;
            let p = prev.2 - 1;
            let g = prev.3 - 1;
            (swapped(swapped(swapped(prev.0, i, a), a, p), p, g), a, p, g)
        }
    }
}

/// The words and section ends (guessed possible, possible, unguessed) after filtering `before`
/// with the answers `kept`.
pub open spec fn filtered_words(before: GroupedWords, kept: Seq<bool>) -> (
    Seq<Seq<char>>,
    int,
    int,
    int,
) {
    let a0 = before.guessed_possible_end();
    let first = first_pass(before.words_view(), before.possible_end(), a0, kept);
    second_pass(first.0, a0, first.1, before.unguessed_end(), 0, kept)
}

/// The words and section ends of `g`.
pub open spec fn layout(g: GroupedWords) -> (Seq<Seq<char>>, int, int, int) {
    (g.words_view(), g.guessed_possible_end(), g.possible_end(), g.unguessed_end())
}

proof fn lemma_first_pass_frame(ws: Seq<Seq<char>>, p0: int, i: int, k1: Seq<bool>, k2: Seq<bool>)
    requires
        forall|k: int| i <= k < p0 ==> k1[k] == k2[k],
    ensures
        first_pass(ws, p0, i, k1) == first_pass(ws, p0, i, k2),
    decreases p0 - i,
{
    if i < p0 {
        lemma_first_pass_frame(ws, p0, i + 1, k1, k2);
    }
}

proof fn lemma_second_pass_frame(
    ws: Seq<Seq<char>>,
    a0: int,
    p0: int,
    g0: int,
    i: int,
    k1: Seq<bool>,
    k2: Seq<bool>,
)
    requires
        forall|k: int| i <= k < a0 ==> k1[k] == k2[k],
    ensures
        second_pass(ws, a0, p0, g0, i, k1) == second_pass(ws, a0, p0, g0, i, k2),
    decreases a0 - i,
{
    if i < a0 {
        lemma_second_pass_frame(ws, a0, p0, g0, i + 1, k1, k2);
    }
}

/// Trading two items of a permutation leaves a permutation.
proof fn lemma_swap_permutation(perm: Seq<int>, n: int, x: int, y: int)
    requires
        is_permutation(perm, n),
        0 <= x < n,
        0 <= y < n,
    ensures
        is_permutation(swapped(perm, x, y), n),
{
    let q = swapped(perm, x, y);
    assert forall|j1: int, j2: int|
        0 <= j1 < n && 0 <= j2 < n && j1 != j2 implies #[trigger] q[j1] != #[trigger] q[j2] by {
        let o1 = if j1 == y {
            x
        } else if j1 == x {
            y
        } else {
            j1
        };
        let o2 = if j2 == y {
            x
        } else if j2 == x {
            y
        } else {
            j2
        };
        assert(q[j1] == perm[o1]);
        assert(q[j2] == perm[o2]);
    }
}

/// Every word of `before` is still held after regrouping, in the section that its old section and
/// the filter's answer for it lead to.
pub proof fn lemma_regrouped_keeps_words(
    before: GroupedWords,
    after: GroupedWords,
    perm: Seq<int>,
    kept: Seq<bool>,
)
    requires
        regrouped(before, after, perm, kept),
    ensures
        forall|k: int|
            0 <= k < before.words_view().len() ==> #[trigger] still_held(before, after, kept, k),
{
    let n = before.words_view().len() as int;
    lemma_permutation_onto(perm, n);
    assert forall|k: int| 0 <= k < n implies #[trigger] still_held(before, after, kept, k) by {
        assert(reached(perm, n, k));
        let j = choose|j: int| 0 <= j < n && #[trigger] perm[j] == k;
        assert(after.words_view()[j] == before.words_view()[k]);
    }
}

/// The word at `k` of `before` is held in `after`, in the section that its old section and the
/// filter's answer for it lead to.
pub open spec fn still_held(before: GroupedWords, after: GroupedWords, kept: Seq<bool>, k: int) -> bool {
    exists|j: int|
        0 <= j < after.words_view().len() && #[trigger] after.words_view()[j]
            == before.words_view()[k] && after.section(j) == filtered_section(
            before.section(k),
            kept[k],
        )
}

/// The filter answered `b` for a text that reads `w`.
pub open spec fn answered<F: Fn(&str) -> bool>(filter: F, w: Seq<char>, b: bool) -> bool {
    exists|s: &str| s@ == w && #[trigger] call_ensures(filter, (s,), b)
}

/// `after` holds the words of `before`, each moved by `perm` into the section that its old
/// section and the filter's answer `kept` lead to (see [`filtered_section`]).
pub open spec fn regrouped(
    before: GroupedWords,
    after: GroupedWords,
    perm: Seq<int>,
    kept: Seq<bool>,
) -> bool {
    let n = before.words_view().len() as int;
    &&& after.wf()
    &&& after.words_view().len() == n
    &&& is_permutation(perm, n)
    &&& forall|j: int|
        0 <= j < n ==> after.words_view()[j] == before.words_view()[#[trigger] perm[j]]
            && after.section(j) == filtered_section(before.section(perm[j]), kept[perm[j]])
}

} // verus!
