use vstd::prelude::*;

use crate::counting::{
    count_eq, count_where, lemma_count_eq_where, lemma_count_where_disjoint_union,
    lemma_count_where_ext, lemma_count_where_extremes, lemma_count_where_mono,
    lemma_count_where_same_implies,
};
use crate::ordered::{lemma_sorted_seq_props, sorted_seq};
use crate::restrictions::{
    code_count, counted, fill_unknowns, fresh_letter, lemma_state_counts, letter_allows,
    times_marked_not_present, times_marked_present, LocatedLetterState, PresentLetterView,
    WordRestrictionsView,
};
use crate::results::{
    lemma_all_correct_iff_same, lemma_correct_le_matches, num_correct, num_matches, num_misplaced,
    spec_guess_results, LetterResult,
};

verus! {

broadcast use vstd::utf8::char_u32_cast;

/// Everything recorded about the letter with code `k` is true of the word `w`.
pub open spec fn letter_truthful(p: PresentLetterView, k: u32, w: Seq<char>) -> bool {
    &&& p.len() == w.len()
    &&& p.min >= 1
    &&& p.min <= code_count(w, k, w.len() as int)
    &&& letter_allows(p, k, w)
}

/// `code_count` counts the positions whose letter has code `k`.
pub proof fn lemma_code_count_where(w: Seq<char>, k: u32, n: int, p: spec_fn(int) -> bool)
    requires
        0 <= n <= w.len(),
        forall|i: int| 0 <= i < n ==> #[trigger] p(i) == (w[i] as u32 == k),
    ensures
        code_count(w, k, n) == count_where(n, p),
    decreases n,
{
    if n > 0 {
        lemma_code_count_where(w, k, n - 1, p);
    }
}

/// Counting a letter by its code is counting the letter.
pub proof fn lemma_code_count_matches(w: Seq<char>, c: char, n: int)
    requires
        0 <= n <= w.len(),
    ensures
        code_count(w, c as u32, n) == num_matches(w, c, n),
    decreases n,
{
    if n > 0 {
        lemma_code_count_matches(w, c, n - 1);
        vstd::utf8::char_u32_cast(w[n - 1], w[n - 1] as u32);
        vstd::utf8::char_u32_cast(c, c as u32);
        assert((w[n - 1] as u32 == c as u32) == (w[n - 1] == c));
    }
}

/// The facts about counts that every operation on a truthful letter relies on.
proof fn lemma_letter_counts(p: PresentLetterView, k: u32, w: Seq<char>)
    requires
        letter_truthful(p, k, w),
    ensures
        p.num_here() <= code_count(w, k, w.len() as int),
        code_count(w, k, w.len() as int) + p.num_not_here() <= p.len(),
        p.num_here() == code_count(w, k, w.len() as int) ==> forall|i: int|
            0 <= i < w.len() && #[trigger] (w[i] as u32) == k ==> p.states[i]
                == LocatedLetterState::Here,
        code_count(w, k, w.len() as int) + p.num_not_here() == p.len() ==> forall|i: int|
            0 <= i < w.len() && p.states[i] != LocatedLetterState::NotHere ==> #[trigger] (
            w[i] as u32) == k,
{
    let n = w.len() as int;
    let s = p.states;
    let ph = |i: int| s[i] == LocatedLetterState::Here;
    let pn = |i: int| s[i] == LocatedLetterState::NotHere;
    let pu = |i: int| s[i] == LocatedLetterState::Unknown;
    let pk = |i: int| w[i] as u32 == k;
    let not_n = |i: int| s[i] != LocatedLetterState::NotHere;
    let all = |i: int| true;
    lemma_count_eq_where(s, LocatedLetterState::Here, ph);
    lemma_count_eq_where(s, LocatedLetterState::NotHere, pn);
    lemma_code_count_where(w, k, n, pk);
    lemma_count_where_mono(n, ph, pk);
    lemma_count_where_mono(n, pk, not_n);
    lemma_count_where_disjoint_union(n, pn, not_n, all);
    lemma_count_where_extremes(n, all);
    if p.num_here() == code_count(w, k, n) {
        lemma_count_where_same_implies(n, ph, pk);
        assert forall|i: int| 0 <= i < w.len() && #[trigger] (w[i] as u32) == k implies p.states[i]
            == LocatedLetterState::Here by {
            assert(pk(i));
        }
    }
    if code_count(w, k, n) + p.num_not_here() == p.len() {
        lemma_count_where_same_implies(n, pk, not_n);
        assert forall|i: int|
            0 <= i < w.len() && p.states[i] != LocatedLetterState::NotHere implies #[trigger] (
            w[i] as u32) == k by {
            assert(not_n(i));
        }
    }
}

/// Filling the unknowns with `NotHere` keeps a letter truthful once every occurrence is `Here`.
proof fn lemma_fill_not_here_truthful(q: PresentLetterView, k: u32, w: Seq<char>)
    requires
        q.len() == w.len(),
        q.min >= 1,
        q.min <= code_count(w, k, w.len() as int),
        forall|i: int|
            0 <= i < w.len() && #[trigger] (w[i] as u32) == k ==> q.states[i]
                == LocatedLetterState::Here,
        forall|i: int|
            0 <= i < w.len() && (#[trigger] (w[i] as u32)) != k ==> q.states[i]
                != LocatedLetterState::Here,
        q.required == Some(code_count(w, k, w.len() as int) as u8),
        code_count(w, k, w.len() as int) <= 255,
    ensures
        letter_truthful(q.filled(LocatedLetterState::NotHere), k, w),
{
    let f = q.filled(LocatedLetterState::NotHere);
    assert forall|i: int| 0 <= i < w.len() && #[trigger] (w[i] as u32) == k implies f.states[i]
        != LocatedLetterState::NotHere by {
        assert(q.states[i] == LocatedLetterState::Here);
    }
}

/// Filling the unknowns with `Here` keeps a letter truthful once every non-`NotHere` location
/// holds the letter.
proof fn lemma_fill_here_truthful(q: PresentLetterView, k: u32, w: Seq<char>)
    requires
        q.len() == w.len(),
        q.min >= 1,
        q.min <= code_count(w, k, w.len() as int),
        forall|i: int|
            0 <= i < w.len() && #[trigger] (w[i] as u32) == k ==> q.states[i]
                != LocatedLetterState::NotHere,
        forall|i: int|
            0 <= i < w.len() && q.states[i] != LocatedLetterState::NotHere ==> #[trigger] (
            w[i] as u32) == k,
        q.required == Some(code_count(w, k, w.len() as int) as u8),
        code_count(w, k, w.len() as int) <= 255,
    ensures
        letter_truthful(q.filled(LocatedLetterState::Here), k, w),
{
    let f = q.filled(LocatedLetterState::Here);
    assert forall|i: int| 0 <= i < w.len() && (#[trigger] (w[i] as u32)) != k implies f.states[i]
        != LocatedLetterState::Here by {
        assert(q.states[i] == LocatedLetterState::NotHere);
    }
}

proof fn lemma_code_count_le(w: Seq<char>, k: u32, n: int)
    requires
        0 <= n,
    ensures
        code_count(w, k, n) <= n,
    decreases n,
{
    if n > 0 {
        lemma_code_count_le(w, k, n - 1);
    }
}

/// Learning a true `Here` keeps a truthful letter truthful.
pub proof fn lemma_must_be_at_truthful(p: PresentLetterView, k: u32, w: Seq<char>, i: int)
    requires
        letter_truthful(p, k, w),
        w.len() <= 255,
        0 <= i < w.len(),
        w[i] as u32 == k,
    ensures
        p.must_be_at(i) matches Ok(q) && letter_truthful(q, k, w),
{
    let n = w.len() as int;
    let cnt = code_count(w, k, n);
    lemma_letter_counts(p, k, w);
    lemma_code_count_le(w, k, n);
    lemma_state_counts(p.states);
    if p.states[i] == LocatedLetterState::Unknown {
        let s1 = p.states.update(i, LocatedLetterState::Here);
        crate::restrictions::lemma_count_update(p.states, i, LocatedLetterState::Here, LocatedLetterState::Here);
        crate::restrictions::lemma_count_update(p.states, i, LocatedLetterState::Here, LocatedLetterState::NotHere);
        let nh = p.num_here() + 1;
        let placed = PresentLetterView {
            required: p.required,
            min: if nh > p.min { nh as u8 } else { p.min },
            states: s1,
        };
        assert(placed.num_here() == nh);
        assert(placed.num_not_here() == p.num_not_here());
        // `i` held an occurrence that was not yet `Here`.
        assert(p.num_here() < cnt) by {
            if p.num_here() == cnt {
                assert(p.states[i] == LocatedLetterState::Here);
            }
        }
        assert(letter_truthful(placed, k, w));
        lemma_letter_counts(placed, k, w);
        match p.required {
            Some(c) => {
                if nh == c {
                    lemma_fill_not_here_truthful(placed, k, w);
                } else if p.len() - p.num_not_here() == c {
                    lemma_fill_here_truthful(placed, k, w);
                }
            },
            None => {
                if nh + p.num_not_here() == p.len() {
                    let full = PresentLetterView {
                        required: Some(nh as u8),
                        min: placed.min,
                        states: placed.states,
                    };
                    lemma_state_counts(s1);
                    assert(nh == cnt) by {
                        assert(cnt + placed.num_not_here() <= placed.len());
                    }
                }
            },
        }
    }
}

/// Learning a true `NotHere` keeps a truthful letter truthful.
pub proof fn lemma_must_not_be_at_truthful(p: PresentLetterView, k: u32, w: Seq<char>, i: int)
    requires
        letter_truthful(p, k, w),
        w.len() <= 255,
        0 <= i < w.len(),
        w[i] as u32 != k,
    ensures
        p.must_not_be_at(i) matches Ok(q) && letter_truthful(q, k, w),
{
    let n = w.len() as int;
    let cnt = code_count(w, k, n);
    lemma_letter_counts(p, k, w);
    lemma_code_count_le(w, k, n);
    lemma_state_counts(p.states);
    if p.states[i] == LocatedLetterState::Unknown {
        let s1 = p.states.update(i, LocatedLetterState::NotHere);
        crate::restrictions::lemma_count_update(p.states, i, LocatedLetterState::NotHere, LocatedLetterState::Here);
        crate::restrictions::lemma_count_update(p.states, i, LocatedLetterState::NotHere, LocatedLetterState::NotHere);
        let plain = PresentLetterView { required: p.required, min: p.min, states: s1 };
        assert(plain.num_here() == p.num_here());
        assert(plain.num_not_here() == p.num_not_here() + 1);
        assert(letter_truthful(plain, k, w));
        lemma_letter_counts(plain, k, w);
        if p.len() - (p.num_not_here() + 1) == p.min {
            assert(cnt == p.min);
            let req = PresentLetterView { required: Some(p.min), min: p.min, states: s1 };
            assert(letter_truthful(req, k, w));
            lemma_letter_counts(req, k, w);
            if p.num_here() < p.min {
                lemma_fill_here_truthful(req, k, w);
            }
        }
    }
}

/// Learning the true count keeps a truthful letter truthful.
pub proof fn lemma_required_count_truthful(p: PresentLetterView, k: u32, w: Seq<char>, count: u8)
    requires
        letter_truthful(p, k, w),
        w.len() <= 255,
        count == code_count(w, k, w.len() as int),
    ensures
        p.with_required_count(count) matches Ok(q) && letter_truthful(q, k, w),
{
    let n = w.len() as int;
    lemma_letter_counts(p, k, w);
    lemma_state_counts(p.states);
    if p.required is None {
        let set = PresentLetterView { required: Some(count), min: count, states: p.states };
        assert(letter_truthful(set, k, w));
        lemma_letter_counts(set, k, w);
        if p.num_here() == count {
            lemma_fill_not_here_truthful(set, k, w);
        } else if p.len() - p.num_not_here() == count {
            lemma_fill_here_truthful(set, k, w);
        }
    }
}

/// Learning a true lower bound on the count keeps a truthful letter truthful.
pub proof fn lemma_min_count_truthful(p: PresentLetterView, k: u32, w: Seq<char>, count: u8)
    requires
        letter_truthful(p, k, w),
        w.len() <= 255,
        count <= code_count(w, k, w.len() as int),
    ensures
        p.with_min_count(count) matches Ok(q) && letter_truthful(q, k, w),
{
    let n = w.len() as int;
    let cnt = code_count(w, k, n);
    lemma_letter_counts(p, k, w);
    lemma_state_counts(p.states);
    if p.min < count {
        let raised = PresentLetterView { required: p.required, min: count, states: p.states };
        assert(letter_truthful(raised, k, w));
        if p.len() - p.num_not_here() == count && p.num_here() < count {
            assert(cnt == count);
            let req = PresentLetterView { required: Some(count), min: count, states: p.states };
            assert(letter_truthful(req, k, w));
            lemma_letter_counts(req, k, w);
            lemma_fill_here_truthful(req, k, w);
            assert(req.filled(LocatedLetterState::Here) == PresentLetterView {
                required: Some(count),
                min: count,
                states: fill_unknowns(p.states, LocatedLetterState::Here),
            });
        }
    }
}

/// How often guess `g` marks letter `c` present, counted over the first `m` positions: every
/// correct occurrence, plus misplaced occurrences up to the number the objective still holds.
proof fn lemma_marked_counts_prefix(o: Seq<char>, g: Seq<char>, c: char, m: int)
    requires
        o.len() == g.len(),
        0 <= m <= g.len(),
    ensures
        ({
            let n = g.len() as int;
            let r = spec_guess_results(o, g);
            let b = num_matches(o, c, n) - num_correct(o, g, c, n);
            let mis = num_misplaced(o, g, c, m);
            &&& times_marked_present(c, g, r, m) == num_correct(o, g, c, m) + (if mis < b {
                mis as int
            } else {
                b
            })
            &&& times_marked_present(c, g, r, m) + times_marked_not_present(c, g, r, m)
                == num_matches(g, c, m)
        }),
    decreases m,
{
    let n = g.len() as int;
    lemma_correct_le_matches(o, g, c, n);
    if m > 0 {
        lemma_marked_counts_prefix(o, g, c, m - 1);
    }
}

/// Guess `g` marks letter `c` present as often as it occurs in both words, and marks it
/// `NotPresent` only once all the objective's occurrences are accounted for.
pub proof fn lemma_marked_counts(o: Seq<char>, g: Seq<char>, c: char)
    requires
        o.len() == g.len(),
    ensures
        ({
            let n = g.len() as int;
            let r = spec_guess_results(o, g);
            &&& times_marked_present(c, g, r, n) <= num_matches(o, c, n)
            &&& times_marked_present(c, g, r, n) <= num_matches(g, c, n)
            &&& times_marked_not_present(c, g, r, n) > 0 ==> times_marked_present(c, g, r, n)
                == num_matches(o, c, n)
        }),
{
    let n = g.len() as int;
    lemma_marked_counts_prefix(o, g, c, n);
    lemma_correct_le_matches(o, g, c, n);
    lemma_misplaced_split(o, g, c, n);
}

proof fn lemma_misplaced_split(o: Seq<char>, g: Seq<char>, c: char, n: int)
    requires
        0 <= n <= o.len(),
        n <= g.len(),
    ensures
        num_matches(g, c, n) == num_correct(o, g, c, n) + num_misplaced(o, g, c, n),
    decreases n,
{
    if n > 0 {
        lemma_misplaced_split(o, g, c, n - 1);
    }
}

proof fn lemma_not_present_mark_counted(g: Seq<char>, r: Seq<LetterResult>, c: char, i: int, n: int)
    requires
        0 <= i < n,
        g[i] == c,
        r[i] == LetterResult::NotPresent,
    ensures
        times_marked_not_present(c, g, r, n) >= 1,
    decreases n,
{
    if n - 1 > i {
        lemma_not_present_mark_counted(g, r, c, i, n - 1);
    }
}

proof fn lemma_code_count_positive(w: Seq<char>, k: u32, i: int, n: int)
    requires
        0 <= i < n <= w.len(),
        w[i] as u32 == k,
    ensures
        code_count(w, k, n) >= 1,
    decreases n,
{
    if n - 1 > i {
        lemma_code_count_positive(w, k, i, n - 1);
    }
}

proof fn lemma_code_count_zero(w: Seq<char>, k: u32, n: int)
    requires
        0 <= n <= w.len(),
        code_count(w, k, n) == 0,
    ensures
        forall|i: int| 0 <= i < n ==> #[trigger] (w[i] as u32) != k,
    decreases n,
{
    if n > 0 {
        lemma_code_count_zero(w, k, n - 1);
    }
}

/// Everything the restrictions record is true of the word `w`.
pub open spec fn restrictions_truthful(s: WordRestrictionsView, w: Seq<char>) -> bool {
    &&& w.len() == s.word_length
    &&& forall|k: u32| #[trigger]
        s.present.contains_key(k) ==> letter_truthful(s.present[k], k, w)
    &&& forall|i: int| 0 <= i < w.len() ==> !s.not_present.contains(#[trigger] (w[i] as u32))
}

/// Truthful restrictions allow the word.
pub proof fn lemma_truthful_allows(s: WordRestrictionsView, w: Seq<char>)
    requires
        restrictions_truthful(s, w),
    ensures
        s.allows(w),
{
    assert forall|k: u32| #[trigger] s.present.contains_key(k) implies letter_allows(
        s.present[k],
        k,
        w,
    ) by {
        assert(letter_truthful(s.present[k], k, w));
    }
}

/// Fresh restrictions are truthful of every word of their length.
pub proof fn lemma_fresh_truthful(word_length: u8, w: Seq<char>)
    requires
        w.len() == word_length,
    ensures
        restrictions_truthful(
            WordRestrictionsView {
                word_length,
                present: Map::empty(),
                not_present: Set::empty(),
            },
            w,
        ),
{
}

/// Knowledge about a letter of the word that nothing is known about yet is truthful.
proof fn lemma_fresh_letter_truthful(w: Seq<char>, k: u32, i: int)
    requires
        w.len() <= 255,
        0 <= i < w.len(),
        w[i] as u32 == k,
    ensures
        letter_truthful(fresh_letter(w.len() as u8), k, w),
{
    lemma_code_count_positive(w, k, i, w.len() as int);
}

/// Marking a true `NotHere` for the other present letters keeps the restrictions truthful.
proof fn lemma_others_not_here_truthful(
    s: WordRestrictionsView,
    keys: Seq<u32>,
    j: int,
    skip: u32,
    loc: int,
    w: Seq<char>,
)
    requires
        restrictions_truthful(s, w),
        w.len() <= 255,
        0 <= loc < w.len(),
        w[loc] as u32 == skip,
        0 <= j,
    ensures
        s.others_not_here(keys, j, skip, loc) matches Ok(t) && restrictions_truthful(t, w),
    decreases keys.len() - j,
{
    if j < keys.len() {
        if keys[j] != skip && s.present.contains_key(keys[j]) {
            let k = keys[j];
            assert(letter_truthful(s.present[k], k, w));
            lemma_must_not_be_at_truthful(s.present[k], k, w, loc);
            let p = s.present[k].must_not_be_at(loc)->Ok_0;
            let t = s.with_letter(k, p);
            assert forall|k2: u32| #[trigger] t.present.contains_key(k2) implies letter_truthful(
                t.present[k2],
                k2,
                w,
            ) by {
                if k2 != k {
                    assert(s.present.contains_key(k2));
                }
            }
            lemma_others_not_here_truthful(t, keys, j + 1, skip, loc, w);
        } else {
            lemma_others_not_here_truthful(s, keys, j + 1, skip, loc, w);
        }
    }
}

/// Storing truthful knowledge about a letter keeps truthful restrictions truthful.
proof fn lemma_with_letter_truthful(
    s: WordRestrictionsView,
    k: u32,
    p: PresentLetterView,
    w: Seq<char>,
)
    requires
        restrictions_truthful(s, w),
        letter_truthful(p, k, w),
    ensures
        restrictions_truthful(s.with_letter(k, p), w),
{
    let t = s.with_letter(k, p);
    assert forall|k2: u32| #[trigger] t.present.contains_key(k2) implies letter_truthful(
        t.present[k2],
        k2,
        w,
    ) by {
        if k2 != k {
            assert(s.present.contains_key(k2));
        }
    }
}

/// The counts a guess's results teach about a letter are true, so they keep it truthful.
proof fn lemma_counted_truthful(
    p: PresentLetterView,
    o: Seq<char>,
    g: Seq<char>,
    c: char,
)
    requires
        letter_truthful(p, c as u32, o),
        o.len() == g.len() <= 255,
    ensures
        ({
            let n = g.len() as int;
            let r = spec_guess_results(o, g);
            counted(p, times_marked_present(c, g, r, n), times_marked_not_present(c, g, r, n))
                matches Ok(q) && letter_truthful(q, c as u32, o)
        }),
{
    let n = g.len() as int;
    let r = spec_guess_results(o, g);
    lemma_marked_counts(o, g, c);
    lemma_code_count_matches(o, c, n);
    let present = times_marked_present(c, g, r, n);
    lemma_code_count_le(o, c as u32, n);
    if times_marked_not_present(c, g, r, n) > 0 {
        lemma_required_count_truthful(p, c as u32, o, present as u8);
    } else {
        lemma_min_count_truthful(p, c as u32, o, present as u8);
    }
}

/// Applying the result of one position of a guess against the true objective keeps the
/// restrictions truthful and never fails.
proof fn lemma_result_applied_truthful(s: WordRestrictionsView, o: Seq<char>, g: Seq<char>, i: int)
    requires
        restrictions_truthful(s, o),
        o.len() == g.len() <= 255,
        0 <= i < g.len(),
    ensures
        s.result_applied(g, spec_guess_results(o, g), i) matches Ok(t) && restrictions_truthful(
            t,
            o,
        ),
{
    let n = g.len() as int;
    let r = spec_guess_results(o, g);
    let c = g[i];
    let k = c as u32;
    vstd::utf8::char_u32_cast(c, k);
    vstd::utf8::char_u32_cast(o[i], o[i] as u32);
    lemma_code_count_matches(o, c, n);
    lemma_marked_counts(o, g, c);
    match r[i] {
        LetterResult::Correct => {
            assert(o[i] == c);
            assert(!s.not_present.contains(o[i] as u32));
            let p0 = s.letter_or_fresh(k);
            if !s.present.contains_key(k) {
                lemma_fresh_letter_truthful(o, k, i);
            }
            assert(letter_truthful(p0, k, o));
            lemma_must_be_at_truthful(p0, k, o, i);
            let p1 = p0.must_be_at(i)->Ok_0;
            lemma_counted_truthful(p1, o, g, c);
            let p2 = counted(
                p1,
                times_marked_present(c, g, r, n),
                times_marked_not_present(c, g, r, n),
            )->Ok_0;
            lemma_with_letter_truthful(s, k, p2, o);
            let s2 = s.with_letter(k, p2);
            lemma_others_not_here_truthful(s2, sorted_seq(s2.present.dom()), 0, k, i, o);
        },
        LetterResult::PresentNotHere => {
            assert(o[i] != c);
            lemma_correct_le_matches(o, g, c, n);
            assert(num_matches(o, c, n) >= 1);
            let m = code_count(o, k, n);
            assert(m >= 1);
            assert(exists|j: int| 0 <= j < n && #[trigger] (o[j] as u32) == k) by {
                if forall|j: int| 0 <= j < n ==> #[trigger] (o[j] as u32) != k {
                    lemma_code_count_none(o, k, n);
                }
            }
            let j = choose|j: int| 0 <= j < n && #[trigger] (o[j] as u32) == k;
            assert(!s.not_present.contains(o[j] as u32));
            let p0 = s.letter_or_fresh(k);
            if !s.present.contains_key(k) {
                lemma_fresh_letter_truthful(o, k, j);
            }
            assert(letter_truthful(p0, k, o));
            assert(o[i] as u32 != k);
            lemma_must_not_be_at_truthful(p0, k, o, i);
            let p1 = p0.must_not_be_at(i)->Ok_0;
            lemma_counted_truthful(p1, o, g, c);
            let p2 = counted(
                p1,
                times_marked_present(c, g, r, n),
                times_marked_not_present(c, g, r, n),
            )->Ok_0;
            lemma_with_letter_truthful(s, k, p2, o);
        },
        LetterResult::NotPresent => {
            assert(o[i] != c);
            assert(o[i] as u32 != k);
            lemma_not_present_mark_counted(g, r, c, i, n);
            let present = times_marked_present(c, g, r, n);
            assert(present == code_count(o, k, n));
            lemma_code_count_le(o, k, n);
            if s.present.contains_key(k) {
                assert(letter_truthful(s.present[k], k, o));
                assert(s.present[k].states[i] != LocatedLetterState::Here);
                lemma_required_count_truthful(s.present[k], k, o, present as u8);
                let p = s.present[k].with_required_count(present as u8)->Ok_0;
                lemma_with_letter_truthful(s, k, p, o);
            } else if present == 0 {
                lemma_code_count_zero(o, k, n);
            }
        },
    }
}

proof fn lemma_code_count_none(w: Seq<char>, k: u32, n: int)
    requires
        0 <= n <= w.len(),
        forall|j: int| 0 <= j < n ==> #[trigger] (w[j] as u32) != k,
    ensures
        code_count(w, k, n) == 0,
    decreases n,
{
    if n > 0 {
        lemma_code_count_none(w, k, n - 1);
    }
}

proof fn lemma_results_applied_truthful(
    s: WordRestrictionsView,
    o: Seq<char>,
    g: Seq<char>,
    i: int,
)
    requires
        restrictions_truthful(s, o),
        o.len() == g.len() <= 255,
        0 <= i,
    ensures
        s.results_applied_from(g, spec_guess_results(o, g), i) matches Ok(t)
            && restrictions_truthful(t, o),
    decreases g.len() - i,
{
    if i < g.len() {
        lemma_result_applied_truthful(s, o, g, i);
        let t = s.result_applied(g, spec_guess_results(o, g), i)->Ok_0;
        lemma_results_applied_truthful(t, o, g, i + 1);
    }
}

/// Learning the results of any guess against the true objective never fails, and what is then
/// known is still true of the objective: the objective stays possible.
pub proof fn lemma_update_keeps_objective(s: WordRestrictionsView, o: Seq<char>, g: Seq<char>)
    requires
        restrictions_truthful(s, o),
        g.len() == o.len(),
    ensures
        s.updated(g, spec_guess_results(o, g)) matches Ok(t) && restrictions_truthful(t, o)
            && t.allows(o),
{
    lemma_results_applied_truthful(s, o, g, 0);
    let t = s.updated(g, spec_guess_results(o, g))->Ok_0;
    lemma_truthful_allows(t, o);
}

/// Merging in another truthful letter's knowledge keeps a truthful letter truthful.
proof fn lemma_merge_states_truthful(
    p: PresentLetterView,
    other: Seq<LocatedLetterState>,
    i: int,
    k: u32,
    w: Seq<char>,
)
    requires
        letter_truthful(p, k, w),
        w.len() <= 255,
        other.len() == w.len(),
        forall|j: int|
            0 <= j < w.len() && other[j] == LocatedLetterState::Here ==> #[trigger] (w[j] as u32)
                == k,
        forall|j: int|
            0 <= j < w.len() && other[j] == LocatedLetterState::NotHere ==> #[trigger] (
            w[j] as u32) != k,
        0 <= i,
    ensures
        p.merge_states_from(other, i) matches Ok(q) && letter_truthful(q, k, w),
    decreases other.len() - i,
{
    if i < other.len() {
        if p.states[i] == other[i] {
            lemma_merge_states_truthful(p, other, i + 1, k, w);
        } else {
            match other[i] {
                LocatedLetterState::Here => {
                    assert(w[i] as u32 == k);
                    lemma_must_be_at_truthful(p, k, w, i);
                    lemma_merge_states_truthful(p.must_be_at(i)->Ok_0, other, i + 1, k, w);
                },
                LocatedLetterState::NotHere => {
                    assert(w[i] as u32 != k);
                    lemma_must_not_be_at_truthful(p, k, w, i);
                    lemma_merge_states_truthful(p.must_not_be_at(i)->Ok_0, other, i + 1, k, w);
                },
                LocatedLetterState::Unknown => {
                    lemma_merge_states_truthful(p, other, i + 1, k, w);
                },
            }
        }
    }
}

/// Merging two truthful pieces of knowledge about a letter gives truthful knowledge.
pub proof fn lemma_letter_merge_truthful(
    p: PresentLetterView,
    other: PresentLetterView,
    k: u32,
    w: Seq<char>,
)
    requires
        letter_truthful(p, k, w),
        letter_truthful(other, k, w),
        w.len() <= 255,
    ensures
        p.merged(other) matches Ok(q) && letter_truthful(q, k, w),
{
    let cnt = code_count(w, k, w.len() as int);
    let counted_p = match other.required {
        Some(c) => {
            lemma_required_count_truthful(p, k, w, c);
            p.with_required_count(c)
        },
        None => if other.min > p.min {
            lemma_min_count_truthful(p, k, w, other.min);
            p.with_min_count(other.min)
        } else {
            Ok(p)
        },
    };
    let v = counted_p->Ok_0;
    assert forall|j: int|
        0 <= j < w.len() && other.states[j] == LocatedLetterState::Here implies #[trigger] (
        w[j] as u32) == k by {
        if w[j] as u32 != k {
            assert(other.states[j] != LocatedLetterState::Here);
        }
    }
    assert forall|j: int|
        0 <= j < w.len() && other.states[j] == LocatedLetterState::NotHere implies #[trigger] (
        w[j] as u32) != k by {
        if w[j] as u32 == k {
            assert(other.states[j] != LocatedLetterState::NotHere);
        }
    }
    lemma_merge_states_truthful(v, other.states, 0, k, w);
}

proof fn lemma_truthful_letter_occurs(p: PresentLetterView, k: u32, w: Seq<char>)
    requires
        letter_truthful(p, k, w),
    ensures
        exists|j: int| 0 <= j < w.len() && #[trigger] (w[j] as u32) == k,
{
    if forall|j: int| 0 <= j < w.len() ==> #[trigger] (w[j] as u32) != k {
        lemma_code_count_none(w, k, w.len() as int);
    }
}

proof fn lemma_absent_merged_truthful(
    s: WordRestrictionsView,
    other: WordRestrictionsView,
    keys: Seq<u32>,
    j: int,
    w: Seq<char>,
)
    requires
        restrictions_truthful(s, w),
        restrictions_truthful(other, w),
        keys.to_set() == other.not_present,
        0 <= j,
    ensures
        s.absent_merged(keys, j) matches Ok(t) && restrictions_truthful(t, w) && t.present
            == s.present,
    decreases keys.len() - j,
{
    if j < keys.len() {
        let x = keys[j];
        assert(keys.to_set().contains(x));
        assert(other.not_present.contains(x));
        if s.present.contains_key(x) {
            assert(letter_truthful(s.present[x], x, w));
            lemma_truthful_letter_occurs(s.present[x], x, w);
            let i = choose|i: int| 0 <= i < w.len() && #[trigger] (w[i] as u32) == x;
            assert(!other.not_present.contains(w[i] as u32));
        }
        let t = WordRestrictionsView {
            word_length: s.word_length,
            present: s.present,
            not_present: s.not_present.insert(x),
        };
        assert forall|i: int| 0 <= i < w.len() implies !t.not_present.contains(
            #[trigger] (w[i] as u32),
        ) by {
            assert(!other.not_present.contains(w[i] as u32));
            assert(!s.not_present.contains(w[i] as u32));
        }
        lemma_absent_merged_truthful(t, other, keys, j + 1, w);
    }
}

proof fn lemma_present_merged_truthful(
    s: WordRestrictionsView,
    other: WordRestrictionsView,
    keys: Seq<u32>,
    j: int,
    w: Seq<char>,
)
    requires
        restrictions_truthful(s, w),
        restrictions_truthful(other, w),
        keys.to_set() == other.present.dom(),
        0 <= j,
    ensures
        s.present_merged(other.present, keys, j) matches Ok(t) && restrictions_truthful(t, w),
    decreases keys.len() - j,
{
    if j < keys.len() {
        let k = keys[j];
        assert(keys.to_set().contains(k));
        assert(other.present.contains_key(k));
        assert(letter_truthful(other.present[k], k, w));
        lemma_truthful_letter_occurs(other.present[k], k, w);
        let i = choose|i: int| 0 <= i < w.len() && #[trigger] (w[i] as u32) == k;
        assert(!s.not_present.contains(w[i] as u32));
        if s.present.contains_key(k) {
            assert(letter_truthful(s.present[k], k, w));
            lemma_letter_merge_truthful(s.present[k], other.present[k], k, w);
            let p = s.present[k].merged(other.present[k])->Ok_0;
            lemma_with_letter_truthful(s, k, p, w);
            lemma_present_merged_truthful(s.with_letter(k, p), other, keys, j + 1, w);
        } else {
            lemma_with_letter_truthful(s, k, other.present[k], w);
            lemma_present_merged_truthful(s.with_letter(k, other.present[k]), other, keys, j + 1, w);
        }
    }
}

/// Merging two sets of restrictions that are both true of a word never fails, and the result is
/// still true of that word.
pub proof fn lemma_merge_keeps_objective(
    s: WordRestrictionsView,
    other: WordRestrictionsView,
    w: Seq<char>,
)
    requires
        restrictions_truthful(s, w),
        restrictions_truthful(other, w),
        other.not_present.finite(),
        other.present.dom().finite(),
    ensures
        s.merged(other) matches Ok(t) && restrictions_truthful(t, w) && t.allows(w),
{
    lemma_sorted_seq_props(other.not_present);
    lemma_sorted_seq_props(other.present.dom());
    lemma_absent_merged_truthful(s, other, sorted_seq(other.not_present), 0, w);
    let s1 = s.absent_merged(sorted_seq(other.not_present), 0)->Ok_0;
    lemma_present_merged_truthful(s1, other, sorted_seq(other.present.dom()), 0, w);
    let t = s.merged(other)->Ok_0;
    lemma_truthful_allows(t, w);
}


/// `q` keeps everything `p` knows about a letter: every decided location, the exact count once it
/// is known, and at least the minimum count.
pub open spec fn letter_kept(p: PresentLetterView, q: PresentLetterView) -> bool {
    &&& q.states.len() == p.states.len()
    &&& forall|j: int|
        0 <= j < p.states.len() && p.states[j] != LocatedLetterState::Unknown ==> #[trigger] q.states[j]
            == p.states[j]
    &&& p.required is Some ==> q.required is Some
    &&& q.min >= p.min
}

/// `t` keeps everything `s` knows: absent letters stay absent, and present letters stay present
/// with their knowledge kept.
pub open spec fn knowledge_kept(s: WordRestrictionsView, t: WordRestrictionsView) -> bool {
    &&& forall|k: u32| #[trigger] s.not_present.contains(k) ==> t.not_present.contains(k)
    &&& forall|k: u32| #[trigger]
        s.present.contains_key(k) ==> t.present.contains_key(k) && letter_kept(
            s.present[k],
            t.present[k],
        )
}

proof fn lemma_letter_kept_trans(p: PresentLetterView, q: PresentLetterView, u: PresentLetterView)
    requires
        letter_kept(p, q),
        letter_kept(q, u),
    ensures
        letter_kept(p, u),
{
    assert forall|j: int|
        0 <= j < p.states.len() && p.states[j] != LocatedLetterState::Unknown implies #[trigger] u.states[j]
        == p.states[j] by {
        assert(q.states[j] == p.states[j]);
    }
}

proof fn lemma_knowledge_kept_trans(s: WordRestrictionsView, t: WordRestrictionsView, u: WordRestrictionsView)
    requires
        knowledge_kept(s, t),
        knowledge_kept(t, u),
    ensures
        knowledge_kept(s, u),
{
    assert forall|k: u32| #[trigger] s.present.contains_key(k) implies u.present.contains_key(k)
        && letter_kept(s.present[k], u.present[k]) by {
        assert(t.present.contains_key(k));
        lemma_letter_kept_trans(s.present[k], t.present[k], u.present[k]);
    }
}

/// Filling the unknown locations decides nothing anew where something was decided.
proof fn lemma_fill_kept(p: PresentLetterView, v: LocatedLetterState)
    ensures
        letter_kept(p, p.filled(v)),
{
}

/// Learning that the letter is at a location keeps what was known.
proof fn lemma_must_be_at_kept(p: PresentLetterView, i: int)
    requires
        0 <= i < p.states.len() <= 255,
    ensures
        p.must_be_at(i) matches Ok(q) ==> letter_kept(p, q) && q.states[i]
            == LocatedLetterState::Here,
{
    if p.states[i] == LocatedLetterState::Unknown {
        let s0 = p.states;
        let n = s0.len() as int;
        let ph = |j: int| s0[j] == LocatedLetterState::Here;
        let pt = |j: int| true;
        lemma_count_eq_where(s0, LocatedLetterState::Here, ph);
        assert(pt(i) && !ph(i));
        lemma_count_where_mono(n, ph, pt);
        lemma_count_where_extremes(n, pt);
        assert(p.num_here() < n);
        let nh = p.num_here() + 1;
        let placed = PresentLetterView {
            required: p.required,
            min: if nh > p.min {
                nh as u8
            } else {
                p.min
            },
            states: p.states.update(i, LocatedLetterState::Here),
        };
        assert(letter_kept(p, placed));
        assert(placed.states[i] == LocatedLetterState::Here);
        lemma_fill_kept(placed, LocatedLetterState::NotHere);
        lemma_fill_kept(placed, LocatedLetterState::Here);
        if p.required is Some {
            if nh == p.required->Some_0 {
                lemma_letter_kept_trans(p, placed, placed.filled(LocatedLetterState::NotHere));
            } else if p.len() - p.num_not_here() == p.required->Some_0 {
                lemma_letter_kept_trans(p, placed, placed.filled(LocatedLetterState::Here));
            }
        }
    }
}

/// Learning that the letter is not at a location keeps what was known, and records it.
proof fn lemma_must_not_be_at_kept(p: PresentLetterView, i: int)
    requires
        0 <= i < p.states.len(),
    ensures
        p.must_not_be_at(i) matches Ok(q) ==> letter_kept(p, q) && q.states[i]
            == LocatedLetterState::NotHere,
{
    if p.states[i] == LocatedLetterState::Unknown {
        let states = p.states.update(i, LocatedLetterState::NotHere);
        let q = p.place_not_here(i);
        assert(q.states[i] == LocatedLetterState::NotHere);
        assert(letter_kept(p, q));
    }
}

/// Learning the exact count keeps what was known, and records the count.
proof fn lemma_with_required_count_kept(p: PresentLetterView, count: u8)
    ensures
        p.with_required_count(count) matches Ok(q) ==> letter_kept(p, q) && q.required is Some,
{
    if p.required is None && p.min <= count && p.len() - p.num_not_here() >= count {
        let set = PresentLetterView { required: Some(count), min: count, states: p.states };
        assert(letter_kept(p, set));
        lemma_fill_kept(set, LocatedLetterState::NotHere);
        lemma_fill_kept(set, LocatedLetterState::Here);
        lemma_letter_kept_trans(p, set, set.filled(LocatedLetterState::NotHere));
        lemma_letter_kept_trans(p, set, set.filled(LocatedLetterState::Here));
    }
}

/// Learning a minimum count keeps what was known.
proof fn lemma_with_min_count_kept(p: PresentLetterView, count: u8)
    ensures
        p.with_min_count(count) matches Ok(q) ==> letter_kept(p, q),
{
}

/// Learning the counts from a guess keeps what was known, and with a `NotPresent` mark records
/// the exact count.
proof fn lemma_counted_kept(p: PresentLetterView, present: nat, not_present: nat)
    ensures
        counted(p, present, not_present) matches Ok(q) ==> letter_kept(p, q) && (not_present > 0
            ==> q.required is Some),
{
    lemma_with_required_count_kept(p, present as u8);
    lemma_with_min_count_kept(p, present as u8);
}


/// Storing knowledge about a letter that keeps what was known about it keeps all knowledge.
proof fn lemma_with_letter_kept(s: WordRestrictionsView, k: u32, q: PresentLetterView)
    requires
        s.present.contains_key(k) ==> letter_kept(s.present[k], q),
    ensures
        knowledge_kept(s, s.with_letter(k, q)),
{
    let t = s.with_letter(k, q);
    assert forall|k2: u32| #[trigger] s.present.contains_key(k2) implies t.present.contains_key(k2)
        && letter_kept(s.present[k2], t.present[k2]) by {
        if k2 != k {
            assert(t.present[k2] == s.present[k2]);
        }
    }
}

/// Marking a location `NotHere` for the other present letters keeps all knowledge.
proof fn lemma_others_not_here_kept(
    s: WordRestrictionsView,
    keys: Seq<u32>,
    j: int,
    skip: u32,
    loc: int,
)
    requires
        0 <= j,
        forall|k: u32| #[trigger]
            s.present.contains_key(k) ==> 0 <= loc < s.present[k].states.len(),
    ensures
        s.others_not_here(keys, j, skip, loc) matches Ok(t) ==> knowledge_kept(s, t)
            && t.word_length == s.word_length && t.present.dom() == s.present.dom(),
    decreases keys.len() - j,
{
    if j < keys.len() {
        if keys[j] != skip && s.present.contains_key(keys[j]) {
            let k = keys[j];
            lemma_must_not_be_at_kept(s.present[k], loc);
            if let Ok(p) = s.present[k].must_not_be_at(loc) {
                let t = s.with_letter(k, p);
                lemma_with_letter_kept(s, k, p);
                assert(t.present.dom() =~= s.present.dom());
                assert forall|k2: u32| #[trigger]
                    t.present.contains_key(k2) implies 0 <= loc < t.present[k2].states.len() by {
                    assert(s.present.contains_key(k2));
                }
                lemma_others_not_here_kept(t, keys, j + 1, skip, loc);
                if let Ok(u) = s.others_not_here(keys, j, skip, loc) {
                    lemma_knowledge_kept_trans(s, t, u);
                }
            }
        } else {
            lemma_others_not_here_kept(s, keys, j + 1, skip, loc);
        }
    }
}


/// Every present letter has one state per location of the word.
pub open spec fn shaped(s: WordRestrictionsView) -> bool {
    forall|k: u32| #[trigger]
        s.present.contains_key(k) ==> s.present[k].states.len() == s.word_length
}

/// What learning the result at one position of a guess keeps and records: a `PresentNotHere`
/// mark is recorded at its location; a letter marked both present and `NotPresent` gets its
/// exact count; a letter marked only `NotPresent` is recorded absent or with its exact count.
proof fn lemma_result_applied_kept(s: WordRestrictionsView, g: Seq<char>, r: Seq<LetterResult>, i: int)
    requires
        shaped(s),
        g.len() == s.word_length,
        0 <= i < g.len(),
    ensures
        s.result_applied(g, r, i) matches Ok(t) ==> {
            let k = g[i] as u32;
            let n = g.len() as int;
            &&& knowledge_kept(s, t)
            &&& shaped(t)
            &&& t.word_length == s.word_length
            &&& r[i] == LetterResult::PresentNotHere ==> t.present.contains_key(k)
                && t.present[k].states[i] == LocatedLetterState::NotHere
            &&& r[i] != LetterResult::NotPresent && times_marked_not_present(g[i], g, r, n) > 0
                ==> t.present.contains_key(k) && t.present[k].required is Some
            &&& r[i] == LetterResult::NotPresent && times_marked_present(g[i], g, r, n) == 0
                ==> t.not_present.contains(k) || (t.present.contains_key(k)
                && t.present[k].required is Some)
        },
{
    let n = g.len() as int;
    let c = g[i];
    let k = c as u32;
    let np = times_marked_not_present(c, g, r, n);
    let pr = times_marked_present(c, g, r, n);
    if let Ok(t) = s.result_applied(g, r, i) {
        match r[i] {
            LetterResult::Correct => {
                let p0 = s.letter_or_fresh(k);
                lemma_must_be_at_kept(p0, i);
                let p1 = p0.must_be_at(i)->Ok_0;
                lemma_counted_kept(p1, pr, np);
                let p2 = counted(p1, pr, np)->Ok_0;
                if s.present.contains_key(k) {
                    lemma_letter_kept_trans(s.present[k], p1, p2);
                }
                let s2 = s.with_letter(k, p2);
                lemma_with_letter_kept(s, k, p2);
                assert(shaped(s2));
                lemma_others_not_here_kept(s2, sorted_seq(s2.present.dom()), 0, k, i);
                lemma_knowledge_kept_trans(s, s2, t);
                assert(s2.present.contains_key(k));
                assert forall|k2: u32| #[trigger] t.present.contains_key(k2) implies t.present[k2].states.len()
                    == t.word_length by {
                    assert(s2.present.contains_key(k2));
                }
            },
            LetterResult::PresentNotHere => {
                let p0 = s.letter_or_fresh(k);
                lemma_must_not_be_at_kept(p0, i);
                let p1 = p0.must_not_be_at(i)->Ok_0;
                lemma_counted_kept(p1, pr, np);
                let p2 = counted(p1, pr, np)->Ok_0;
                if s.present.contains_key(k) {
                    lemma_letter_kept_trans(s.present[k], p1, p2);
                }
                lemma_with_letter_kept(s, k, p2);
                assert(p2.states[i] == p1.states[i]);
            },
            LetterResult::NotPresent => {
                if s.present.contains_key(k) {
                    let p = s.present[k].with_required_count(pr as u8)->Ok_0;
                    lemma_with_required_count_kept(s.present[k], pr as u8);
                    lemma_with_letter_kept(s, k, p);
                }
            },
        }
    }
}


/// What learning the results at positions `i..` of a guess keeps and records, position by
/// position (see `lemma_result_applied_kept`).
proof fn lemma_results_applied_kept(s: WordRestrictionsView, g: Seq<char>, r: Seq<LetterResult>, i: int)
    requires
        shaped(s),
        g.len() == s.word_length,
        0 <= i,
    ensures
        s.results_applied_from(g, r, i) matches Ok(t) ==> {
            let n = g.len() as int;
            &&& knowledge_kept(s, t)
            &&& shaped(t)
            &&& t.word_length == s.word_length
            &&& forall|m: int|
                i <= m < n && #[trigger] r[m] == LetterResult::PresentNotHere
                    ==> t.present.contains_key(g[m] as u32) && t.present[g[m] as u32].states[m]
                    == LocatedLetterState::NotHere
            &&& forall|m: int|
                i <= m < n && #[trigger] r[m] != LetterResult::NotPresent
                    && times_marked_not_present(g[m], g, r, n) > 0 ==> t.present.contains_key(
                    g[m] as u32,
                ) && t.present[g[m] as u32].required is Some
            &&& forall|m: int|
                i <= m < n && #[trigger] r[m] == LetterResult::NotPresent && times_marked_present(
                    g[m],
                    g,
                    r,
                    n,
                ) == 0 ==> t.not_present.contains(g[m] as u32) || (t.present.contains_key(
                    g[m] as u32,
                ) && t.present[g[m] as u32].required is Some)
        },
    decreases g.len() - i,
{
    let n = g.len() as int;
    if i < n {
        lemma_result_applied_kept(s, g, r, i);
        if let Ok(s1) = s.result_applied(g, r, i) {
            lemma_results_applied_kept(s1, g, r, i + 1);
            if let Ok(t) = s1.results_applied_from(g, r, i + 1) {
                lemma_knowledge_kept_trans(s, s1, t);
                let k = g[i] as u32;
                if s1.present.contains_key(k) {
                    assert(t.present.contains_key(k));
                    assert(letter_kept(s1.present[k], t.present[k]));
                }
                if s1.not_present.contains(k) {
                    assert(t.not_present.contains(k));
                }
            }
        }
    }
}

/// `times_marked_present` counts only positions that hold the letter and are marked present.
proof fn lemma_marked_present_witness(c: char, g: Seq<char>, r: Seq<LetterResult>, n: int)
    requires
        0 <= n <= g.len(),
        times_marked_present(c, g, r, n) > 0,
    ensures
        exists|j: int| 0 <= j < n && g[j] == c && #[trigger] r[j] != LetterResult::NotPresent,
    decreases n,
{
    if !(g[n - 1] == c && r[n - 1] != LetterResult::NotPresent) {
        lemma_marked_present_witness(c, g, r, n - 1);
    }
}

/// A wrong guess rules itself out: after learning its results against the objective, the
/// restrictions no longer allow the guess.
pub proof fn lemma_wrong_guess_ruled_out(s: WordRestrictionsView, o: Seq<char>, g: Seq<char>)
    requires
        restrictions_truthful(s, o),
        g.len() == o.len(),
        g != o,
    ensures
        s.updated(g, spec_guess_results(o, g)) matches Ok(t) && !t.allows(g),
{
    let n = g.len() as int;
    let r = spec_guess_results(o, g);
    lemma_update_keeps_objective(s, o, g);
    let t = s.updated(g, r)->Ok_0;
    lemma_all_correct_iff_same(o, g);
    let i = choose|i: int| 0 <= i < n && #[trigger] r[i] != LetterResult::Correct;
    assert(shaped(s)) by {
        assert forall|k: u32| #[trigger] s.present.contains_key(k) implies s.present[k].states.len()
            == s.word_length by {
            assert(letter_truthful(s.present[k], k, o));
        }
    }
    lemma_results_applied_kept(s, g, r, 0);
    let c = g[i];
    let k = c as u32;
    if r[i] == LetterResult::PresentNotHere {
        assert(t.present.contains_key(k));
        assert(!letter_allows(t.present[k], k, g));
    } else {
        assert(r[i] == LetterResult::NotPresent);
        lemma_not_present_mark_counted(g, r, c, i, n);
        lemma_marked_counts(o, g, c);
        lemma_marked_counts_prefix(o, g, c, n);
        lemma_code_count_matches(o, c, n);
        lemma_code_count_matches(g, c, n);
        if times_marked_present(c, g, r, n) > 0 {
            lemma_marked_present_witness(c, g, r, n);
            let j = choose|j: int| 0 <= j < n && g[j] == c && #[trigger] r[j] != LetterResult::NotPresent;
            assert(r[j] != LetterResult::NotPresent);
        } else {
            assert(r[i] == LetterResult::NotPresent);
        }
        if t.not_present.contains(k) {
            assert(t.not_present.contains(g[i] as u32));
        } else {
            assert(t.present.contains_key(k) && t.present[k].required is Some);
            assert(letter_truthful(t.present[k], k, o));
            assert(!letter_allows(t.present[k], k, g));
        }
    }
}


/// `q` records what `p` knows about a letter: every decided location, that the exact count is
/// known once it is, and, while the exact count is not known, at least the minimum count.
pub open spec fn letter_covers(q: PresentLetterView, p: PresentLetterView) -> bool {
    &&& q.states.len() == p.states.len()
    &&& forall|j: int|
        0 <= j < p.states.len() && p.states[j] != LocatedLetterState::Unknown ==> #[trigger] q.states[j]
            == p.states[j]
    &&& p.required is Some ==> q.required is Some
    &&& q.required is None ==> q.min >= p.min
}

proof fn lemma_covers_kept(q: PresentLetterView, p: PresentLetterView, u: PresentLetterView)
    requires
        letter_covers(q, p),
        letter_kept(q, u),
    ensures
        letter_covers(u, p),
{
    assert forall|j: int|
        0 <= j < p.states.len() && p.states[j] != LocatedLetterState::Unknown implies #[trigger] u.states[j]
        == p.states[j] by {
        assert(q.states[j] == p.states[j]);
    }
}

/// Merging in another letter's located states keeps what was known and records the other's
/// decided locations.
proof fn lemma_merge_states_kept(p: PresentLetterView, other: Seq<LocatedLetterState>, i: int)
    requires
        p.states.len() == other.len() <= 255,
        0 <= i,
    ensures
        p.merge_states_from(other, i) matches Ok(q) ==> letter_kept(p, q) && forall|j: int|
            i <= j < other.len() && other[j] != LocatedLetterState::Unknown ==> #[trigger] q.states[j]
                == other[j],
    decreases other.len() - i,
{
    if i < other.len() {
        if p.states[i] == other[i] {
            lemma_merge_states_kept(p, other, i + 1);
        } else {
            match other[i] {
                LocatedLetterState::Here => {
                    lemma_must_be_at_kept(p, i);
                    if let Ok(v) = p.must_be_at(i) {
                        lemma_merge_states_kept(v, other, i + 1);
                        if let Ok(q) = v.merge_states_from(other, i + 1) {
                            lemma_letter_kept_trans(p, v, q);
                        }
                    }
                },
                LocatedLetterState::NotHere => {
                    lemma_must_not_be_at_kept(p, i);
                    if let Ok(v) = p.must_not_be_at(i) {
                        lemma_merge_states_kept(v, other, i + 1);
                        if let Ok(q) = v.merge_states_from(other, i + 1) {
                            lemma_letter_kept_trans(p, v, q);
                        }
                    }
                },
                LocatedLetterState::Unknown => {
                    lemma_merge_states_kept(p, other, i + 1);
                },
            }
        }
    }
}

/// Merging another letter's knowledge in keeps what was known and records the other's.
proof fn lemma_letter_merged_kept(p: PresentLetterView, other: PresentLetterView)
    requires
        p.states.len() == other.states.len() <= 255,
    ensures
        p.merged(other) matches Ok(q) ==> letter_kept(p, q) && letter_covers(q, other),
{
    let counted = match other.required {
        Some(c) => p.with_required_count(c),
        None => if other.min > p.min {
            p.with_min_count(other.min)
        } else {
            Ok(p)
        },
    };
    match other.required {
        Some(c) => lemma_with_required_count_kept(p, c),
        None => if other.min > p.min {
            lemma_with_min_count_kept(p, other.min);
        },
    }
    if let Ok(v) = counted {
        assert(letter_kept(p, v));
        lemma_merge_states_kept(v, other.states, 0);
        if let Ok(q) = v.merge_states_from(other.states, 0) {
            lemma_letter_kept_trans(p, v, q);
            assert(other.required is Some ==> v.required is Some);
            assert(v.required is None ==> v.min >= other.min);
        }
    }
}

/// Adding absent letters keeps all knowledge and records them.
proof fn lemma_absent_merged_kept(s: WordRestrictionsView, keys: Seq<u32>, j: int)
    requires
        0 <= j,
    ensures
        s.absent_merged(keys, j) matches Ok(t) ==> knowledge_kept(s, t) && t.present == s.present
            && t.word_length == s.word_length && forall|m: int|
            j <= m < keys.len() ==> t.not_present.contains(#[trigger] keys[m]),
    decreases keys.len() - j,
{
    if j < keys.len() && !s.present.contains_key(keys[j]) {
        let s1 = WordRestrictionsView {
            word_length: s.word_length,
            present: s.present,
            not_present: s.not_present.insert(keys[j]),
        };
        lemma_absent_merged_kept(s1, keys, j + 1);
        if let Ok(t) = s1.absent_merged(keys, j + 1) {
            assert(s1.not_present.contains(keys[j]));
            assert(t.not_present.contains(keys[j]));
            assert forall|k: u32| #[trigger] s.present.contains_key(k) implies t.present.contains_key(k)
                && letter_kept(s.present[k], t.present[k]) by {
                assert(letter_kept(s.present[k], s.present[k]));
            }
            assert forall|k: u32| #[trigger] s.not_present.contains(k) implies t.not_present.contains(
                k,
            ) by {
                assert(s1.not_present.contains(k));
            }
            assert forall|m: int| j <= m < keys.len() implies t.not_present.contains(
                #[trigger] keys[m],
            ) by {
                if m == j {
                } else {
                    assert(t.not_present.contains(keys[m]));
                }
            }
        }
    }
}

/// Merging in present letters keeps all knowledge and records theirs.
proof fn lemma_present_merged_kept(
    s: WordRestrictionsView,
    other: Map<u32, PresentLetterView>,
    keys: Seq<u32>,
    j: int,
)
    requires
        0 <= j,
        shaped(s),
        forall|m: int|
            j <= m < keys.len() ==> other.contains_key(#[trigger] keys[m])
                && other[keys[m]].states.len() == s.word_length,
    ensures
        s.present_merged(other, keys, j) matches Ok(t) ==> knowledge_kept(s, t) && shaped(t)
            && t.word_length == s.word_length && forall|m: int|
            j <= m < keys.len() ==> t.present.contains_key(#[trigger] keys[m]) && letter_covers(
                t.present[keys[m]],
                other[keys[m]],
            ),
    decreases keys.len() - j,
{
    if j < keys.len() && !s.not_present.contains(keys[j]) {
        let k = keys[j];
        let o = other[k];
        if s.present.contains_key(k) {
            lemma_letter_merged_kept(s.present[k], o);
            if let Ok(q) = s.present[k].merged(o) {
                let s1 = s.with_letter(k, q);
                lemma_with_letter_kept(s, k, q);
                lemma_present_merged_kept(s1, other, keys, j + 1);
                if let Ok(t) = s1.present_merged(other, keys, j + 1) {
                    lemma_knowledge_kept_trans(s, s1, t);
                    assert(s1.present.contains_key(k));
                    assert(letter_kept(s1.present[k], t.present[k]));
                    lemma_covers_kept(q, o, t.present[k]);
                    assert forall|m: int| j <= m < keys.len() implies t.present.contains_key(
                        #[trigger] keys[m],
                    ) && letter_covers(t.present[keys[m]], other[keys[m]]) by {
                        if m > j {
                            assert(t.present.contains_key(keys[m]));
                        }
                    }
                }
            }
        } else {
            let s1 = s.with_letter(k, o);
            lemma_with_letter_kept(s, k, o);
            lemma_present_merged_kept(s1, other, keys, j + 1);
            if let Ok(t) = s1.present_merged(other, keys, j + 1) {
                lemma_knowledge_kept_trans(s, s1, t);
                assert(s1.present.contains_key(k));
                assert(letter_kept(s1.present[k], t.present[k]));
                assert(letter_covers(o, o));
                lemma_covers_kept(o, o, t.present[k]);
                assert forall|m: int| j <= m < keys.len() implies t.present.contains_key(
                    #[trigger] keys[m],
                ) && letter_covers(t.present[keys[m]], other[keys[m]]) by {
                    if m > j {
                        assert(t.present.contains_key(keys[m]));
                    }
                }
            }
        }
    }
}


/// Restrictions true of some word that allow `w` are true of `w`.
proof fn lemma_allows_truthful(s: WordRestrictionsView, w_star: Seq<char>, w: Seq<char>)
    requires
        restrictions_truthful(s, w_star),
        s.allows(w),
    ensures
        restrictions_truthful(s, w),
{
    assert forall|k: u32| #[trigger] s.present.contains_key(k) implies letter_truthful(
        s.present[k],
        k,
        w,
    ) by {
        assert(letter_truthful(s.present[k], k, w_star));
        assert(letter_allows(s.present[k], k, w));
    }
}

/// What merged restrictions allow of a letter, the two that were merged allow of it.
proof fn lemma_letter_allows_kept(
    p: PresentLetterView,
    q: PresentLetterView,
    k: u32,
    w_star: Seq<char>,
    w: Seq<char>,
)
    requires
        letter_covers(q, p),
        letter_truthful(p, k, w_star),
        letter_truthful(q, k, w_star),
        letter_allows(q, k, w),
        w.len() == w_star.len(),
    ensures
        letter_allows(p, k, w),
{
    assert forall|i: int| 0 <= i < w.len() && #[trigger] (w[i] as u32) == k implies p.states[i]
        != LocatedLetterState::NotHere by {
        if p.states[i] == LocatedLetterState::NotHere {
            assert(q.states[i] == p.states[i]);
        }
    }
    assert forall|i: int| 0 <= i < w.len() && (#[trigger] (w[i] as u32)) != k implies p.states[i]
        != LocatedLetterState::Here by {
        if p.states[i] == LocatedLetterState::Here {
            assert(q.states[i] == p.states[i]);
        }
    }
}

/// Merging restrictions adds exactly the other's restrictions: when both are true of some word,
/// the merge succeeds, and the merged restrictions allow a word exactly when both allow it.
pub proof fn lemma_merge_is_conjunction(
    s: WordRestrictionsView,
    other: WordRestrictionsView,
    w_star: Seq<char>,
    w: Seq<char>,
)
    requires
        restrictions_truthful(s, w_star),
        restrictions_truthful(other, w_star),
        other.not_present.finite(),
        other.present.dom().finite(),
    ensures
        s.merged(other) matches Ok(t) && (t.allows(w) <==> s.allows(w) && other.allows(w)),
{
    lemma_merge_keeps_objective(s, other, w_star);
    let t = s.merged(other)->Ok_0;
    lemma_sorted_seq_props(other.not_present);
    lemma_sorted_seq_props(other.present.dom());
    let absent = sorted_seq(other.not_present);
    let keys = sorted_seq(other.present.dom());
    lemma_absent_merged_kept(s, absent, 0);
    let s1 = s.absent_merged(absent, 0)->Ok_0;
    assert(shaped(s1)) by {
        assert forall|k: u32| #[trigger] s1.present.contains_key(k) implies s1.present[k].states.len()
            == s1.word_length by {
            assert(letter_truthful(s.present[k], k, w_star));
        }
    }
    assert forall|m: int| 0 <= m < keys.len() implies other.present.contains_key(#[trigger] keys[m])
        && other.present[keys[m]].states.len() == s1.word_length by {
        assert(keys.to_set().contains(keys[m]));
        assert(letter_truthful(other.present[keys[m]], keys[m], w_star));
    }
    lemma_present_merged_kept(s1, other.present, keys, 0);
    lemma_knowledge_kept_trans(s, s1, t);
    if t.allows(w) {
        assert forall|k: u32| #[trigger] s.present.contains_key(k) implies letter_allows(
            s.present[k],
            k,
            w,
        ) by {
            assert(t.present.contains_key(k));
            assert(letter_allows(t.present[k], k, w));
            assert(letter_truthful(s.present[k], k, w_star));
            assert(letter_truthful(t.present[k], k, w_star));
            lemma_letter_allows_kept(s.present[k], t.present[k], k, w_star, w);
        }
        assert forall|k: u32| #[trigger] other.present.contains_key(k) implies letter_allows(
            other.present[k],
            k,
            w,
        ) by {
            assert(keys.to_set().contains(k));
            let m = choose|m: int| 0 <= m < keys.len() && keys[m] == k;
            assert(t.present.contains_key(keys[m]));
            assert(letter_allows(t.present[k], k, w));
            assert(letter_truthful(other.present[k], k, w_star));
            assert(letter_truthful(t.present[k], k, w_star));
            lemma_letter_allows_kept(other.present[k], t.present[k], k, w_star, w);
        }
        assert forall|i: int| 0 <= i < w.len() implies !other.not_present.contains(
            #[trigger] (w[i] as u32),
        ) by {
            if other.not_present.contains(w[i] as u32) {
                assert(absent.to_set().contains(w[i] as u32));
                let m = choose|m: int| 0 <= m < absent.len() && absent[m] == w[i] as u32;
                assert(s1.not_present.contains(absent[m]));
            }
        }
    }
    if s.allows(w) && other.allows(w) {
        lemma_allows_truthful(s, w_star, w);
        lemma_allows_truthful(other, w_star, w);
        lemma_merge_keeps_objective(s, other, w);
    }
}

} // verus!
