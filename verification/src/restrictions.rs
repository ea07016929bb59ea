use std::collections::BTreeMap;
use std::collections::BTreeSet;
use vstd::prelude::*;

use crate::counting::{
    count_eq, count_where, lemma_count_eq_where, lemma_count_where_disjoint_union,
    lemma_count_where_extremes, lemma_count_where_point_change,
};
use crate::data::LocatedLetter;
use crate::ordered::{sorted_map_keys, sorted_seq, sorted_set_keys};
use crate::results::{GuessResult, LetterResult, WordleError};
use crate::text::chars_of;

verus! {

broadcast use {vstd::std_specs::btree::group_btree_axioms, vstd::laws_cmp::group_laws_cmp};

/// Indicates if a letter is known to be in a given location or not.
#[derive(Debug, PartialEq, Eq, Clone, Copy, Structural)]
pub enum LocatedLetterState {
    Unknown,
    Here,
    NotHere,
}

/// What is known about a letter that is in the word: the mathematical content of a
/// [`PresentLetter`].
#[verifier::ext_equal]
pub struct PresentLetterView {
    /// If known, the letter must appear exactly this many times in the word.
    pub required: Option<u8>,
    /// The minimum number of times this letter must appear in the word.
    pub min: u8,
    /// The status of the letter at each location in the word.
    pub states: Seq<LocatedLetterState>,
}

/// `s` with every `Unknown` location replaced by `v`.
pub open spec fn fill_unknowns(s: Seq<LocatedLetterState>, v: LocatedLetterState) -> Seq<
    LocatedLetterState,
> {
    Seq::new(
        s.len(),
        |i: int|
            if s[i] == LocatedLetterState::Unknown {
                v
            } else {
                s[i]
            },
    )
}

impl PresentLetterView {
    pub open spec fn len(self) -> nat {
        self.states.len()
    }

    /// The number of locations at which the letter is known to be.
    pub open spec fn num_here(self) -> nat {
        count_eq(self.states, LocatedLetterState::Here)
    }

    /// The number of locations at which the letter is known not to be.
    pub open spec fn num_not_here(self) -> nat {
        count_eq(self.states, LocatedLetterState::NotHere)
    }

    /// The same knowledge with every unknown location set to `v`.
    pub open spec fn filled(self, v: LocatedLetterState) -> PresentLetterView {
        PresentLetterView {
            required: self.required,
            min: self.min,
            states: fill_unknowns(self.states, v),
        }
    }

    /// Marks an unknown location as `Here`, then draws the conclusions that the counts allow.
    pub open spec fn place_here(self, index: int) -> PresentLetterView {
        let nh = self.num_here() + 1;
        let placed = PresentLetterView {
            required: self.required,
            min: if nh > self.min {
                nh as u8
            } else {
                self.min
            },
            states: self.states.update(index, LocatedLetterState::Here),
        };
        match self.required {
            Some(c) => if nh == c {
                placed.filled(LocatedLetterState::NotHere)
            } else if self.len() - self.num_not_here() == c {
                placed.filled(LocatedLetterState::Here)
            } else {
                placed
            },
            None => if nh + self.num_not_here() == self.len() {
                PresentLetterView { required: Some(nh as u8), min: placed.min, states: placed.states }
            } else {
                placed
            },
        }
    }

    /// The effect of learning that the letter is at `index`: `Err` (with the unchanged state)
    /// if it is known not to be there.
    pub open spec fn must_be_at(self, index: int) -> Result<PresentLetterView, PresentLetterView> {
        match self.states[index] {
            LocatedLetterState::Here => Ok(self),
            LocatedLetterState::NotHere => Err(self),
            LocatedLetterState::Unknown => Ok(self.place_here(index)),
        }
    }

    /// Marks an unknown location as `NotHere`, then draws the conclusions that the counts allow.
    pub open spec fn place_not_here(self, index: int) -> PresentLetterView {
        let states = self.states.update(index, LocatedLetterState::NotHere);
        if self.len() - (self.num_not_here() + 1) == self.min {
            PresentLetterView {
                required: Some(self.min),
                min: self.min,
                states: if self.num_here() < self.min {
                    fill_unknowns(states, LocatedLetterState::Here)
                } else {
                    states
                },
            }
        } else {
            PresentLetterView { required: self.required, min: self.min, states }
        }
    }

    /// The effect of learning that the letter is not at `index`: `Err` (with the unchanged state)
    /// if it is known to be there.
    pub open spec fn must_not_be_at(self, index: int) -> Result<
        PresentLetterView,
        PresentLetterView,
    > {
        match self.states[index] {
            LocatedLetterState::NotHere => Ok(self),
            LocatedLetterState::Here => Err(self),
            LocatedLetterState::Unknown => Ok(self.place_not_here(index)),
        }
    }

    /// The effect of learning that the letter appears exactly `count` times. On `Err`, the state
    /// is the one the operation stopped in.
    pub open spec fn with_required_count(self, count: u8) -> Result<
        PresentLetterView,
        PresentLetterView,
    > {
        match self.required {
            Some(existing) => if existing != count {
                Err(self)
            } else {
                Ok(self)
            },
            None => if self.min > count {
                Err(self)
            } else if self.len() - self.num_not_here() < count {
                Err(PresentLetterView { required: None, min: count, states: self.states })
            } else {
                let set = PresentLetterView {
                    required: Some(count),
                    min: count,
                    states: self.states,
                };
                if self.num_here() == count {
                    Ok(set.filled(LocatedLetterState::NotHere))
                } else if self.len() - self.num_not_here() == count {
                    Ok(set.filled(LocatedLetterState::Here))
                } else {
                    Ok(set)
                }
            },
        }
    }

    /// The effect of learning that the letter appears at least `count` times: `Err` if more than
    /// its known exact count, or than the locations left can hold. On `Err`, the state is the one
    /// the operation stopped in.
    pub open spec fn with_min_count(self, count: u8) -> Result<
        PresentLetterView,
        PresentLetterView,
    > {
        if self.min >= count {
            Ok(self)
        } else if self.required matches Some(c) && count > c {
            Err(self)
        } else {
            let raised = PresentLetterView {
                required: self.required,
                min: count,
                states: self.states,
            };
            if self.len() - self.num_not_here() < count {
                Err(raised)
            } else if self.len() - self.num_not_here() == count && self.num_here() < count {
                Ok(
                    PresentLetterView {
                        required: Some(count),
                        min: count,
                        states: fill_unknowns(self.states, LocatedLetterState::Here),
                    },
                )
            } else {
                Ok(raised)
            }
        }
    }

    /// Applies the located states of `other` from location `i` on, in order, stopping at the
    /// first conflict.
    pub open spec fn merge_states_from(self, other: Seq<LocatedLetterState>, i: int) -> Result<
        PresentLetterView,
        PresentLetterView,
    >
        decreases other.len() - i,
    {
        if i < 0 || i >= other.len() {
            Ok(self)
        } else if self.states[i] == other[i] {
            self.merge_states_from(other, i + 1)
        } else {
            match other[i] {
                LocatedLetterState::Here => match self.must_be_at(i) {
                    Ok(v) => v.merge_states_from(other, i + 1),
                    Err(v) => Err(v),
                },
                LocatedLetterState::NotHere => match self.must_not_be_at(i) {
                    Ok(v) => v.merge_states_from(other, i + 1),
                    Err(v) => Err(v),
                },
                LocatedLetterState::Unknown => self.merge_states_from(other, i + 1),
            }
        }
    }

    /// The effect of merging the knowledge in `other` into this one: first its counts, then its
    /// located states.
    pub open spec fn merged(self, other: PresentLetterView) -> Result<
        PresentLetterView,
        PresentLetterView,
    > {
        let counted = match other.required {
            Some(c) => self.with_required_count(c),
            None => if other.min > self.min {
                self.with_min_count(other.min)
            } else {
                Ok(self)
            },
        };
        match counted {
            Ok(v) => v.merge_states_from(other.states, 0),
            Err(v) => Err(v),
        }
    }
}

/// Whether an operation's result and final state are the ones `expected` describes: `Ok` with
/// that state, or an [`WordleError::InvalidResults`] error in that state.
pub open spec fn letter_outcome(
    res: Result<(), WordleError>,
    state: PresentLetterView,
    expected: Result<PresentLetterView, PresentLetterView>,
) -> bool {
    match expected {
        Ok(v) => res is Ok && state == v,
        Err(v) => res matches Err(WordleError::InvalidResults) && state == v,
    }
}

/// Indicates information about a letter that is in the word.
#[derive(Debug, PartialEq, Eq, Clone)]
pub struct PresentLetter {
    /// If known, the letter must appear exactly this many times in the word.
    maybe_required_count: Option<u8>,
    /// The minimum number of times this letter must appear in the word.
    min_count: u8,
    /// The number of locations we know the letter must appear.
    num_here: u8,
    /// The number of locations we know the letter must not appear.
    num_not_here: u8,
    /// The status of the letter at each location in the word.
    located_state: Vec<LocatedLetterState>,
}

impl View for PresentLetter {
    type V = PresentLetterView;

    closed spec fn view(&self) -> PresentLetterView {
        PresentLetterView {
            required: self.maybe_required_count,
            min: self.min_count,
            states: self.located_state@,
        }
    }
}

/// Counts of the three states add up to the number of locations.
pub proof fn lemma_state_counts(s: Seq<LocatedLetterState>)
    ensures
        count_eq(s, LocatedLetterState::Here) + count_eq(s, LocatedLetterState::NotHere) + count_eq(
            s,
            LocatedLetterState::Unknown,
        ) == s.len(),
{
    let n = s.len() as int;
    let ph = |i: int| s[i] == LocatedLetterState::Here;
    let pn = |i: int| s[i] == LocatedLetterState::NotHere;
    let pu = |i: int| s[i] == LocatedLetterState::Unknown;
    let known = |i: int| s[i] == LocatedLetterState::Here || s[i] == LocatedLetterState::NotHere;
    let all = |i: int| true;
    lemma_count_eq_where(s, LocatedLetterState::Here, ph);
    lemma_count_eq_where(s, LocatedLetterState::NotHere, pn);
    lemma_count_eq_where(s, LocatedLetterState::Unknown, pu);
    lemma_count_where_disjoint_union(n, ph, pn, known);
    lemma_count_where_disjoint_union(n, known, pu, all);
    lemma_count_where_extremes(n, all);
}

/// Setting location `k` to `v` moves one location from the count of its old state to that of `v`.
pub proof fn lemma_count_update(
    s: Seq<LocatedLetterState>,
    k: int,
    v: LocatedLetterState,
    w: LocatedLetterState,
)
    requires
        0 <= k < s.len(),
    ensures
        count_eq(s.update(k, v), w) + (if s[k] == w {
            1int
        } else {
            0int
        }) == count_eq(s, w) + (if v == w {
            1int
        } else {
            0int
        }),
{
    let t = s.update(k, v);
    let ps = |i: int| s[i] == w;
    let pt = |i: int| t[i] == w;
    lemma_count_eq_where(s, w, ps);
    lemma_count_eq_where(t, w, pt);
    lemma_count_where_point_change(s.len() as int, ps, pt, k);
}

impl PresentLetter {
    /// The counters agree with the located states, and there are at most 255 locations.
    pub closed spec fn wf(&self) -> bool {
        &&& self.located_state@.len() <= 255
        &&& self.num_here as nat == self@.num_here()
        &&& self.num_not_here as nat == self@.num_not_here()
    }

    /// Constructs a `PresentLetter` for use with words of the given length.
    pub fn new(word_length: u8) -> (p: PresentLetter)
        ensures
            p.wf(),
            p@.required == None::<u8>,
            p@.min == 1,
            p@.states == Seq::new(word_length as nat, |i: int| LocatedLetterState::Unknown),
    {
        let mut located_state: Vec<LocatedLetterState> = Vec::new();
        let mut i: u8 = 0;
        while i < word_length
            invariant
                i <= word_length,
                located_state@ =~= Seq::new(i as nat, |j: int| LocatedLetterState::Unknown),
            decreases word_length - i,
        {
            located_state.push(LocatedLetterState::Unknown);
            i = i + 1;
        }
        let p = PresentLetter {
            maybe_required_count: None,
            min_count: 1,
            num_here: 0,
            num_not_here: 0,
            located_state,
        };
        proof {
            let s = p.located_state@;
            let ph = |j: int| s[j] == LocatedLetterState::Here;
            let pn = |j: int| s[j] == LocatedLetterState::NotHere;
            lemma_count_eq_where(s, LocatedLetterState::Here, ph);
            lemma_count_eq_where(s, LocatedLetterState::NotHere, pn);
            lemma_count_where_extremes(s.len() as int, ph);
            lemma_count_where_extremes(s.len() as int, pn);
        }
        p
    }

    /// Returns whether the letter must be in, or not in, the given location, or if that is not yet
    /// known.
    pub fn state(&self, index: usize) -> (s: LocatedLetterState)
        requires
            index < self@.len(),
        ensures
            s == self@.states[index as int],
    {
        self.located_state[index]
    }

    /// Returns the required number of times this letter must appear in the word, if this is known.
    pub fn maybe_required_count(&self) -> (c: Option<u8>)
        ensures
            c == self@.required,
    {
        self.maybe_required_count
    }

    /// Returns the minimum number of times this letter must appear in the word.
    pub fn min_count(&self) -> (c: u8)
        ensures
            c == self@.min,
    {
        self.min_count
    }

    /// Sets every `Unknown` location to `new_state`, counting each change.
    fn set_unknowns_to(&mut self, new_state: LocatedLetterState)
        requires
            old(self).wf(),
            new_state != LocatedLetterState::Unknown,
        ensures
            final(self).wf(),
            final(self)@ == old(self)@.filled(new_state),
    {
        let ghost s0 = self.located_state@;
        let n = self.located_state.len();
        let mut i: usize = 0;
        while i < n
            invariant
                n == s0.len() == self.located_state@.len(),
                n <= 255,
                i <= n,
                new_state != LocatedLetterState::Unknown,
                self.maybe_required_count == old(self).maybe_required_count,
                self.min_count == old(self).min_count,
                forall|j: int|
                    0 <= j < n ==> #[trigger] self.located_state@[j] == if j < i {
                        fill_unknowns(s0, new_state)[j]
                    } else {
                        s0[j]
                    },
                self.num_here as nat == count_eq(self.located_state@, LocatedLetterState::Here),
                self.num_not_here as nat == count_eq(
                    self.located_state@,
                    LocatedLetterState::NotHere,
                ),
            decreases n - i,
        {
            let ghost before = self.located_state@;
            if self.located_state[i] == LocatedLetterState::Unknown {
                self.located_state.set(i, new_state);
                proof {
                    lemma_state_counts(before);
                    lemma_count_update(before, i as int, new_state, LocatedLetterState::Here);
                    lemma_count_update(before, i as int, new_state, LocatedLetterState::NotHere);
                    lemma_count_update(before, i as int, new_state, LocatedLetterState::Unknown);
                }
                if new_state == LocatedLetterState::NotHere {
                    self.num_not_here = self.num_not_here + 1;
                } else {
                    self.num_here = self.num_here + 1;
                }
            }
            i = i + 1;
        }
        proof {
            assert(self.located_state@ =~= fill_unknowns(s0, new_state));
        }
    }

    /// Records the required count once every location is known.
    fn set_required_count_if_full(&mut self)
        requires
            old(self).wf(),
        ensures
            final(self).wf(),
            final(self)@ == (if old(self)@.num_here() + old(self)@.num_not_here() == old(self)@.len() {
                PresentLetterView {
                    required: Some(old(self).num_here),
                    min: old(self)@.min,
                    states: old(self)@.states,
                }
            } else {
                old(self)@
            }),
    {
        proof {
            lemma_state_counts(self.located_state@);
        }
        if self.num_here + self.num_not_here == self.located_state.len() as u8 {
            self.maybe_required_count = Some(self.num_here);
        }
    }

    /// Sets that this letter must be at the given index.
    ///
    /// If the required count for this letter is known, then this may fill any remaining `Unknown`
    /// locations with either `Here` or `NotHere` accordingly.
    ///
    /// This returns a [`WordleError::InvalidResults`] error if this letter is already known not to
    /// be at the given index.
    pub fn set_must_be_at(&mut self, index: usize) -> (res: Result<(), WordleError>)
        requires
            old(self).wf(),
            index < old(self)@.len(),
        ensures
            final(self).wf(),
            final(self)@.len() == old(self)@.len(),
            letter_outcome(res, final(self)@, old(self)@.must_be_at(index as int)),
    {
        let previous = self.located_state[index];
        match previous {
            LocatedLetterState::Here => return Ok(()),
            LocatedLetterState::NotHere => return Err(WordleError::InvalidResults),
            _ => {},
        }
        let ghost v0 = self@;
        proof {
            lemma_state_counts(v0.states);
            lemma_count_update(v0.states, index as int, LocatedLetterState::Here, LocatedLetterState::Here);
            lemma_count_update(v0.states, index as int, LocatedLetterState::Here, LocatedLetterState::NotHere);
            lemma_count_update(v0.states, index as int, LocatedLetterState::Here, LocatedLetterState::Unknown);
        }
        self.located_state.set(index, LocatedLetterState::Here);
        self.num_here = self.num_here + 1;
        if self.num_here > self.min_count {
            self.min_count = self.num_here;
        }
        if let Some(count) = self.maybe_required_count {
            if self.num_here == count {
                // If the count has been met, then this letter doesn't appear anywhere else.
                self.set_unknowns_to(LocatedLetterState::NotHere);
            } else if (self.located_state.len() as u8 - self.num_not_here) == count {
                // If the letter must be in all possible remaining spaces, set them to here.
                self.set_unknowns_to(LocatedLetterState::Here)
            }
        } else {
            // Set the max count if all states are known to prevent errors.
            self.set_required_count_if_full();
        }
        proof {
            assert(self@ =~= v0.place_here(index as int));
        }
        Ok(())
    }

    /// Sets that this letter must not be at the given index.
    ///
    /// If setting this leaves only as many `Here` and `Unknown` locations as the value of
    /// `min_count`, then this sets the `Unknown` locations to `Here`.
    ///
    /// This returns a [`WordleError::InvalidResults`] error if this letter is already known to be
    /// at the given index.
    pub fn set_must_not_be_at(&mut self, index: usize) -> (res: Result<(), WordleError>)
        requires
            old(self).wf(),
            index < old(self)@.len(),
        ensures
            final(self).wf(),
            final(self)@.len() == old(self)@.len(),
            letter_outcome(res, final(self)@, old(self)@.must_not_be_at(index as int)),
    {
        let previous = self.located_state[index];
        match previous {
            LocatedLetterState::NotHere => return Ok(()),
            LocatedLetterState::Here => return Err(WordleError::InvalidResults),
            _ => {},
        }
        let ghost v0 = self@;
        proof {
            lemma_state_counts(v0.states);
            lemma_count_update(v0.states, index as int, LocatedLetterState::NotHere, LocatedLetterState::Here);
            lemma_count_update(v0.states, index as int, LocatedLetterState::NotHere, LocatedLetterState::NotHere);
            lemma_count_update(v0.states, index as int, LocatedLetterState::NotHere, LocatedLetterState::Unknown);
        }
        self.located_state.set(index, LocatedLetterState::NotHere);
        self.num_not_here = self.num_not_here + 1;
        let max_possible_here = self.located_state.len() as u8 - self.num_not_here;
        if max_possible_here == self.min_count {
            // If the letter must be in all possible remaining spaces, set them to `Here`.
            self.maybe_required_count = Some(self.min_count);
            if self.num_here < self.min_count {
                self.set_unknowns_to(LocatedLetterState::Here);
            }
        }
        proof {
            assert(self@ =~= v0.place_not_here(index as int));
        }
        Ok(())
    }

    /// Sets the maximum number of times this letter can appear in the word.
    ///
    /// Returns a [`WordleError::InvalidResults`] error if the required count is already set to a
    /// different value, or if the `min_count` is known to be higher than the provided value.
    pub fn set_required_count(&mut self, count: u8) -> (res: Result<(), WordleError>)
        requires
            old(self).wf(),
        ensures
            final(self).wf(),
            final(self)@.len() == old(self)@.len(),
            letter_outcome(res, final(self)@, old(self)@.with_required_count(count)),
    {
        let ghost v0 = self@;
        proof {
            lemma_state_counts(v0.states);
        }
        if let Some(existing_count) = self.maybe_required_count {
            if existing_count != count {
                return Err(WordleError::InvalidResults);
            } else {
                return Ok(());
            }
        }
        if self.min_count > count {
            return Err(WordleError::InvalidResults);
        }
        self.min_count = count;
        let max_possible_num_here = self.located_state.len() as u8 - self.num_not_here;
        if max_possible_num_here < count {
            proof {
                assert(self@ =~= PresentLetterView { required: None, min: count, states: v0.states });
            }
            return Err(WordleError::InvalidResults);
        }
        self.maybe_required_count = Some(count);
        if self.num_here == count {
            self.set_unknowns_to(LocatedLetterState::NotHere);
        } else if max_possible_num_here == count {
            self.set_unknowns_to(LocatedLetterState::Here);
        }
        proof {
            assert(v0.with_required_count(count) matches Ok(v) && self@ =~= v);
        }
        Ok(())
    }

    /// If count is higher than the current min count, this bumps it up to the provided value and
    /// modifies the known data as needed.
    ///
    /// Returns a [`WordleError::InvalidResults`] error if it would be impossible for `count`
    /// locations to be marked `Here` given what is already known about the word: more than the
    /// letter's known exact count, or more than the locations not known to be without it.
    pub fn possibly_bump_min_count(&mut self, count: u8) -> (res: Result<(), WordleError>)
        requires
            old(self).wf(),
        ensures
            final(self).wf(),
            final(self)@.len() == old(self)@.len(),
            letter_outcome(res, final(self)@, old(self)@.with_min_count(count)),
    {
        let ghost v0 = self@;
        proof {
            lemma_state_counts(v0.states);
        }
        if self.min_count >= count {
            return Ok(());
        }
        if let Some(required) = self.maybe_required_count {
            if count > required {
                return Err(WordleError::InvalidResults);
            }
        }
        self.min_count = count;
        let max_possible_num_here = self.located_state.len() as u8 - self.num_not_here;
        if max_possible_num_here < count {
            proof {
                assert(v0.with_min_count(count) matches Err(v) && self@ =~= v);
            }
            return Err(WordleError::InvalidResults);
        } else if max_possible_num_here == count && self.num_here < count {
            // If all possible unknowns must be here, set them.
            self.set_unknowns_to(LocatedLetterState::Here);
            self.maybe_required_count = Some(count);
        }
        proof {
            assert(v0.with_min_count(count) matches Ok(v) && self@ =~= v);
        }
        Ok(())
    }

    /// Merges the information known in the other object into this one.
    ///
    /// Returns a [`WordleError::InvalidResults`] error if they contain incompatible information.
    pub fn merge(&mut self, other: &PresentLetter) -> (res: Result<(), WordleError>)
        requires
            old(self).wf(),
            other@.len() <= old(self)@.len(),
        ensures
            final(self).wf(),
            final(self)@.len() == old(self)@.len(),
            letter_outcome(res, final(self)@, old(self)@.merged(other@)),
    {
        let ghost v0 = self@;
        if let Some(count) = other.maybe_required_count {
            let r = self.set_required_count(count);
            if r.is_err() {
                return r;
            }
        } else if other.min_count > self.min_count {
            let r = self.possibly_bump_min_count(other.min_count);
            if r.is_err() {
                return r;
            }
        }
        let n = other.located_state.len();
        let mut index: usize = 0;
        while index < n
            invariant
                self.wf(),
                n == other@.len() <= self@.len(),
                self@.len() == v0.len(),
                v0 == old(self)@,
                index <= n,
                v0.merged(other@) == self@.merge_states_from(other@.states, index as int),
            decreases n - index,
        {
            let state = other.located_state[index];
            if self.located_state[index] == state {
                index = index + 1;
                continue;
            }
            match state {
                LocatedLetterState::Here => {
                    let r = self.set_must_be_at(index);
                    if r.is_err() {
                        return r;
                    }
                },
                LocatedLetterState::NotHere => {
                    let r = self.set_must_not_be_at(index);
                    if r.is_err() {
                        return r;
                    }
                },
                _ => {},
            }
            index = index + 1;
        }
        Ok(())
    }
}

/// Indicates the known restrictions that apply to a letter at a given location.
///
/// See [`WordRestrictions`].
#[derive(Debug, PartialEq, Eq, Clone, Copy, Structural)]
pub enum LetterRestriction {
    /// The letter goes here.
    Here,
    /// The letter is in the word and might be here.
    PresentMaybeHere,
    /// The letter is in the word but not here.
    PresentNotHere,
    /// The letter is not in the word.
    NotPresent,
}

/// What nothing yet is known about a letter found in a word of the given length.
pub open spec fn fresh_letter(word_length: u8) -> PresentLetterView {
    PresentLetterView {
        required: None,
        min: 1,
        states: Seq::new(word_length as nat, |i: int| LocatedLetterState::Unknown),
    }
}

/// The number of positions `i < n` where the guess has `letter` and its result is not
/// `NotPresent`.
pub open spec fn times_marked_present(
    letter: char,
    g: Seq<char>,
    r: Seq<LetterResult>,
    n: int,
) -> nat
    decreases n,
{
    if n <= 0 {
        0
    } else {
        times_marked_present(letter, g, r, n - 1) + if g[n - 1] == letter && r[n - 1]
            != LetterResult::NotPresent {
            1nat
        } else {
            0nat
        }
    }
}

/// The number of positions `i < n` where the guess has `letter` and its result is `NotPresent`.
pub open spec fn times_marked_not_present(
    letter: char,
    g: Seq<char>,
    r: Seq<LetterResult>,
    n: int,
) -> nat
    decreases n,
{
    if n <= 0 {
        0
    } else {
        times_marked_not_present(letter, g, r, n - 1) + if g[n - 1] == letter && r[n - 1]
            == LetterResult::NotPresent {
            1nat
        } else {
            0nat
        }
    }
}

/// What the counts from a guess teach about a letter: with any `NotPresent` mark the letter
/// appears exactly as often as it was marked present, else at least that often.
pub open spec fn counted(p: PresentLetterView, present: nat, not_present: nat) -> Result<
    PresentLetterView,
    PresentLetterView,
> {
    if not_present > 0 {
        p.with_required_count(present as u8)
    } else {
        p.with_min_count(present as u8)
    }
}

/// The number of positions `i < n` of `w` that hold the letter with code `k`.
pub open spec fn code_count(w: Seq<char>, k: u32, n: int) -> nat
    decreases n,
{
    if n <= 0 {
        0
    } else {
        code_count(w, k, n - 1) + if w[n - 1] as u32 == k {
            1nat
        } else {
            0nat
        }
    }
}

/// `w` agrees with what is known about the letter with code `k`.
pub open spec fn letter_allows(p: PresentLetterView, k: u32, w: Seq<char>) -> bool {
    &&& forall|i: int|
        0 <= i < w.len() && #[trigger] (w[i] as u32) == k ==> p.states[i]
            != LocatedLetterState::NotHere
    &&& forall|i: int|
        0 <= i < w.len() && (#[trigger] (w[i] as u32)) != k ==> p.states[i]
            != LocatedLetterState::Here
    &&& match p.required {
        Some(c) => code_count(w, k, w.len() as int) == c,
        None => code_count(w, k, w.len() as int) >= p.min,
    }
}

/// The letter restrictions known about a word: the mathematical content of a
/// [`WordRestrictions`]. Letters are keyed by their code (`c as u32`).
#[verifier::ext_equal]
pub struct WordRestrictionsView {
    pub word_length: u8,
    pub present: Map<u32, PresentLetterView>,
    pub not_present: Set<u32>,
}

impl WordRestrictionsView {
    pub open spec fn with_letter(self, k: u32, p: PresentLetterView) -> WordRestrictionsView {
        WordRestrictionsView {
            word_length: self.word_length,
            present: self.present.insert(k, p),
            not_present: self.not_present,
        }
    }

    pub open spec fn letter_or_fresh(self, k: u32) -> PresentLetterView {
        if self.present.contains_key(k) {
            self.present[k]
        } else {
            fresh_letter(self.word_length)
        }
    }

    /// Marks location `loc` as `NotHere` for the present letters `keys[j..]` other than `skip`,
    /// in order, stopping at the first conflict.
    pub open spec fn others_not_here(self, keys: Seq<u32>, j: int, skip: u32, loc: int) -> Result<
        WordRestrictionsView,
        WordRestrictionsView,
    >
        decreases keys.len() - j,
    {
        if j < 0 || j >= keys.len() {
            Ok(self)
        } else if keys[j] == skip || !self.present.contains_key(keys[j]) {
            self.others_not_here(keys, j + 1, skip, loc)
        } else {
            match self.present[keys[j]].must_not_be_at(loc) {
                Ok(p) => self.with_letter(keys[j], p).others_not_here(keys, j + 1, skip, loc),
                Err(p) => Err(self.with_letter(keys[j], p)),
            }
        }
    }

    /// The effect of a `Correct` mark for `letter` at `loc` in guess `g` with results `r`.
    pub open spec fn letter_here(
        self,
        letter: char,
        loc: int,
        g: Seq<char>,
        r: Seq<LetterResult>,
    ) -> Result<WordRestrictionsView, WordRestrictionsView> {
        let k = letter as u32;
        let n = g.len() as int;
        if self.not_present.contains(k) {
            Err(self)
        } else {
            match self.letter_or_fresh(k).must_be_at(loc) {
                Err(p) => Err(self.with_letter(k, p)),
                Ok(p1) => match counted(
                    p1,
                    times_marked_present(letter, g, r, n),
                    times_marked_not_present(letter, g, r, n),
                ) {
                    Err(p) => Err(self.with_letter(k, p)),
                    Ok(p2) => {
                        let s2 = self.with_letter(k, p2);
                        s2.others_not_here(sorted_seq(s2.present.dom()), 0, k, loc)
                    },
                },
            }
        }
    }

    /// The effect of a `PresentNotHere` mark for `letter` at `loc`.
    pub open spec fn letter_present_not_here(
        self,
        letter: char,
        loc: int,
        g: Seq<char>,
        r: Seq<LetterResult>,
    ) -> Result<WordRestrictionsView, WordRestrictionsView> {
        let k = letter as u32;
        let n = g.len() as int;
        if self.not_present.contains(k) {
            Err(self)
        } else {
            match self.letter_or_fresh(k).must_not_be_at(loc) {
                Err(p) => Err(self.with_letter(k, p)),
                Ok(p1) => match counted(
                    p1,
                    times_marked_present(letter, g, r, n),
                    times_marked_not_present(letter, g, r, n),
                ) {
                    Err(p) => Err(self.with_letter(k, p)),
                    Ok(p2) => Ok(self.with_letter(k, p2)),
                },
            }
        }
    }

    /// The effect of a `NotPresent` mark for `letter` at `loc`.
    pub open spec fn letter_not_present(
        self,
        letter: char,
        loc: int,
        g: Seq<char>,
        r: Seq<LetterResult>,
    ) -> Result<WordRestrictionsView, WordRestrictionsView> {
        let k = letter as u32;
        let present = times_marked_present(letter, g, r, g.len() as int);
        if self.present.contains_key(k) {
            if self.present[k].states[loc] == LocatedLetterState::Here {
                Err(self)
            } else {
                match self.present[k].with_required_count(present as u8) {
                    Ok(p) => Ok(self.with_letter(k, p)),
                    Err(p) => Err(self.with_letter(k, p)),
                }
            }
        } else if present == 0 {
            Ok(
                WordRestrictionsView {
                    word_length: self.word_length,
                    present: self.present,
                    not_present: self.not_present.insert(k),
                },
            )
        } else {
            Ok(self)
        }
    }

    /// The effect of the result at position `i` of a guess.
    pub open spec fn result_applied(self, g: Seq<char>, r: Seq<LetterResult>, i: int) -> Result<
        WordRestrictionsView,
        WordRestrictionsView,
    > {
        match r[i] {
            LetterResult::Correct => self.letter_here(g[i], i, g, r),
            LetterResult::PresentNotHere => self.letter_present_not_here(g[i], i, g, r),
            LetterResult::NotPresent => self.letter_not_present(g[i], i, g, r),
        }
    }

    /// The effect of the results at positions `i..` of a guess, in order, stopping at the first
    /// conflict.
    pub open spec fn results_applied_from(
        self,
        g: Seq<char>,
        r: Seq<LetterResult>,
        i: int,
    ) -> Result<WordRestrictionsView, WordRestrictionsView>
        decreases g.len() - i,
    {
        if i < 0 || i >= g.len() {
            Ok(self)
        } else {
            match self.result_applied(g, r, i) {
                Ok(s) => s.results_applied_from(g, r, i + 1),
                Err(s) => Err(s),
            }
        }
    }

    /// The effect of learning the results `r` of guess `g`.
    pub open spec fn updated(self, g: Seq<char>, r: Seq<LetterResult>) -> Result<
        WordRestrictionsView,
        WordRestrictionsView,
    > {
        self.results_applied_from(g, r, 0)
    }

    /// Adds the absent letters `keys[j..]`, stopping at one known to be present.
    pub open spec fn absent_merged(self, keys: Seq<u32>, j: int) -> Result<
        WordRestrictionsView,
        WordRestrictionsView,
    >
        decreases keys.len() - j,
    {
        if j < 0 || j >= keys.len() {
            Ok(self)
        } else if self.present.contains_key(keys[j]) {
            Err(self)
        } else {
            WordRestrictionsView {
                word_length: self.word_length,
                present: self.present,
                not_present: self.not_present.insert(keys[j]),
            }.absent_merged(keys, j + 1)
        }
    }

    /// Merges in the present letters `keys[j..]` of `other`, stopping at a conflict.
    pub open spec fn present_merged(
        self,
        other: Map<u32, PresentLetterView>,
        keys: Seq<u32>,
        j: int,
    ) -> Result<WordRestrictionsView, WordRestrictionsView>
        decreases keys.len() - j,
    {
        if j < 0 || j >= keys.len() {
            Ok(self)
        } else if self.not_present.contains(keys[j]) {
            Err(self)
        } else if self.present.contains_key(keys[j]) {
            match self.present[keys[j]].merged(other[keys[j]]) {
                Ok(p) => self.with_letter(keys[j], p).present_merged(other, keys, j + 1),
                Err(p) => Err(self.with_letter(keys[j], p)),
            }
        } else {
            self.with_letter(keys[j], other[keys[j]]).present_merged(other, keys, j + 1)
        }
    }

    /// The effect of merging `other` into these restrictions.
    pub open spec fn merged(self, other: WordRestrictionsView) -> Result<
        WordRestrictionsView,
        WordRestrictionsView,
    > {
        if self.word_length != other.word_length {
            Err(self)
        } else {
            match self.absent_merged(sorted_seq(other.not_present), 0) {
                Err(s) => Err(s),
                Ok(s) => s.present_merged(other.present, sorted_seq(other.present.dom()), 0),
            }
        }
    }

    /// `w` has the right length and agrees with everything known.
    pub open spec fn allows(self, w: Seq<char>) -> bool {
        &&& w.len() == self.word_length
        &&& forall|k: u32| #[trigger]
            self.present.contains_key(k) ==> letter_allows(self.present[k], k, w)
        &&& forall|i: int| 0 <= i < w.len() ==> !self.not_present.contains(#[trigger] (w[i] as u32))
    }

    /// The restriction known about the letter at the given location.
    pub open spec fn state_of(self, letter: char, location: int) -> Option<LetterRestriction> {
        let k = letter as u32;
        if self.present.contains_key(k) {
            match self.present[k].states[location] {
                LocatedLetterState::Here => Some(LetterRestriction::Here),
                LocatedLetterState::NotHere => Some(LetterRestriction::PresentNotHere),
                LocatedLetterState::Unknown => Some(LetterRestriction::PresentMaybeHere),
            }
        } else if self.not_present.contains(k) {
            Some(LetterRestriction::NotPresent)
        } else {
            None
        }
    }
}

/// Whether an operation's result and final state are the ones `expected` describes.
pub open spec fn word_outcome(
    res: Result<(), WordleError>,
    state: WordRestrictionsView,
    expected: Result<WordRestrictionsView, WordRestrictionsView>,
) -> bool {
    match expected {
        Ok(v) => res is Ok && state == v,
        Err(v) => res matches Err(WordleError::InvalidResults) && state == v,
    }
}

/// Defines letter restrictions that a word must adhere to, such as "the first letter of the word
/// must be 'a'".
///
/// Restrictions are derived from [`GuessResult`]s.
#[derive(PartialEq, Clone)]
pub struct WordRestrictions {
    word_length: u8,
    present_letters: BTreeMap<u32, PresentLetter>,
    not_present_letters: BTreeSet<u32>,
}

impl View for WordRestrictions {
    type V = WordRestrictionsView;

    closed spec fn view(&self) -> WordRestrictionsView {
        WordRestrictionsView {
            word_length: self.word_length,
            present: self.present_letters@.map_values(|p: PresentLetter| p@),
            not_present: self.not_present_letters@,
        }
    }
}

impl PresentLetter {
    /// A copy of this letter's knowledge.
    fn copy(&self) -> (r: PresentLetter)
        requires
            self.wf(),
        ensures
            r.wf(),
            r@ == self@,
    {
        let mut states: Vec<LocatedLetterState> = Vec::new();
        let mut i: usize = 0;
        while i < self.located_state.len()
            invariant
                i <= self.located_state@.len(),
                states@ =~= self.located_state@.take(i as int),
            decreases self.located_state@.len() - i,
        {
            states.push(self.located_state[i]);
            i = i + 1;
        }
        proof {
            assert(self.located_state@.take(i as int) =~= self.located_state@);
        }
        PresentLetter {
            maybe_required_count: self.maybe_required_count,
            min_count: self.min_count,
            num_here: self.num_here,
            num_not_here: self.num_not_here,
            located_state: states,
        }
    }

    /// Learns that the letter is at `location`, then what the guess's counts teach.
    fn learn_here(&mut self, location: usize, present: u8, not_present: u8) -> (res: Result<
        (),
        WordleError,
    >)
        requires
            old(self).wf(),
            location < old(self)@.len(),
        ensures
            final(self).wf(),
            final(self)@.len() == old(self)@.len(),
            letter_outcome(
                res,
                final(self)@,
                match old(self)@.must_be_at(location as int) {
                    Err(p) => Err(p),
                    Ok(p) => counted(p, present as nat, not_present as nat),
                },
            ),
    {
        let r = self.set_must_be_at(location);
        if r.is_err() {
            return r;
        }
        if not_present > 0 {
            self.set_required_count(present)
        } else {
            self.possibly_bump_min_count(present)
        }
    }

    /// Learns that the letter is not at `location`, then what the guess's counts teach.
    fn learn_not_here(&mut self, location: usize, present: u8, not_present: u8) -> (res: Result<
        (),
        WordleError,
    >)
        requires
            old(self).wf(),
            location < old(self)@.len(),
        ensures
            final(self).wf(),
            final(self)@.len() == old(self)@.len(),
            letter_outcome(
                res,
                final(self)@,
                match old(self)@.must_not_be_at(location as int) {
                    Err(p) => Err(p),
                    Ok(p) => counted(p, present as nat, not_present as nat),
                },
            ),
    {
        let r = self.set_must_not_be_at(location);
        if r.is_err() {
            return r;
        }
        if not_present > 0 {
            self.set_required_count(present)
        } else {
            self.possibly_bump_min_count(present)
        }
    }
}

impl WordRestrictions {
    /// Every present letter is well formed and covers the word length.
    pub closed spec fn wf(&self) -> bool {
        forall|k: u32| #[trigger]
            self.present_letters@.contains_key(k) ==> self.present_letters@[k].wf()
                && self.present_letters@[k]@.len() == self.word_length
    }

    /// The view after storing `p` under `k` is the old view with `p@` stored under `k`.
    proof fn lemma_view_insert(old_map: Map<u32, PresentLetter>, k: u32, p: PresentLetter)
        ensures
            old_map.insert(k, p).map_values(|q: PresentLetter| q@) =~= old_map.map_values(
                |q: PresentLetter| q@,
            ).insert(k, p@),
    {
    }

    /// Creates a `WordRestrictions` object for the given word length with all letters unknown.
    pub fn new(word_length: u8) -> (r: WordRestrictions)
        ensures
            r.wf(),
            r@ == (WordRestrictionsView {
                word_length,
                present: Map::empty(),
                not_present: Set::empty(),
            }),
    {
        let r = WordRestrictions {
            word_length,
            present_letters: BTreeMap::new(),
            not_present_letters: BTreeSet::new(),
        };
        proof {
            assert(r@.present =~= Map::<u32, PresentLetterView>::empty());
        }
        r
    }

    /// Counts the times `letter` is marked present and not present in the guess.
    fn count_num_times_in_guess(
        letter: char,
        guess: &Vec<char>,
        results: &Vec<LetterResult>,
    ) -> (counts: (u8, u8))
        requires
            guess@.len() <= 255,
            results@.len() >= guess@.len(),
        ensures
            counts.0 as nat == times_marked_present(letter, guess@, results@, guess@.len() as int),
            counts.1 as nat == times_marked_not_present(
                letter,
                guess@,
                results@,
                guess@.len() as int,
            ),
    {
        let mut num_times_present: u32 = 0;
        let mut num_times_not_present: u32 = 0;
        let mut index: usize = 0;
        while index < guess.len()
            invariant
                index <= guess@.len() <= 255,
                results@.len() >= guess@.len(),
                num_times_present as nat == times_marked_present(
                    letter,
                    guess@,
                    results@,
                    index as int,
                ),
                num_times_not_present as nat == times_marked_not_present(
                    letter,
                    guess@,
                    results@,
                    index as int,
                ),
                num_times_present + num_times_not_present <= index,
            decreases guess@.len() - index,
        {
            if guess[index] == letter {
                match results[index] {
                    LetterResult::NotPresent => {
                        num_times_not_present = num_times_not_present + 1;
                    },
                    _ => {
                        num_times_present = num_times_present + 1;
                    },
                }
            }
            index = index + 1;
        }
        (num_times_present as u8, num_times_not_present as u8)
    }

    /// Marks `location` as `NotHere` for every present letter other than `letter`.
    fn set_others_not_here(&mut self, letter_key: u32, location: usize) -> (res: Result<
        (),
        WordleError,
    >)
        requires
            old(self).wf(),
            location < old(self).word_length,
        ensures
            final(self).wf(),
            final(self).word_length == old(self).word_length,
            word_outcome(
                res,
                final(self)@,
                old(self)@.others_not_here(
                    sorted_seq(old(self)@.present.dom()),
                    0,
                    letter_key,
                    location as int,
                ),
            ),
    {
        let keys = sorted_map_keys(&self.present_letters);
        let ghost start = self@;
        let ghost dom = self.present_letters@.dom();
        proof {
            assert(start.present.dom() =~= dom);
        }
        let mut j: usize = 0;
        while j < keys.len()
            invariant
                self.wf(),
                self.word_length == old(self).word_length,
                location < self.word_length,
                keys@.to_set() == dom,
                start == old(self)@,
                keys@ == sorted_seq(start.present.dom()),
                self.present_letters@.dom() == dom,
                j <= keys@.len(),
                start.others_not_here(keys@, 0, letter_key, location as int)
                    == self@.others_not_here(keys@, j as int, letter_key, location as int),
            decreases keys@.len() - j,
        {
            let key = keys[j];
            proof {
                assert(keys@.contains(key));
                assert(dom.contains(key));
                assert(self@.present.contains_key(key));
            }
            if key == letter_key {
                j = j + 1;
                continue;
            }
            let ghost before = self.present_letters@;
            let ghost sv = self@;
            let mut presence = self.present_letters.remove(&key).unwrap();
            let r = presence.set_must_not_be_at(location);
            self.present_letters.insert(key, presence);
            proof {
                assert(self.present_letters@ == before.insert(key, presence));
                Self::lemma_view_insert(before, key, presence);
                assert(self.present_letters@.dom() =~= dom);
            }
            proof {
                assert(self@ =~= sv.with_letter(key, presence@));
            }
            if r.is_err() {
                proof {
                    assert(sv.others_not_here(keys@, j as int, letter_key, location as int) == Err::<
                        WordRestrictionsView,
                        WordRestrictionsView,
                    >(self@));
                }
                return r;
            }
            j = j + 1;
        }
        Ok(())
    }

    /// Takes the stored knowledge of `letter_key`, or fresh knowledge if there is none.
    fn take_letter(&mut self, letter_key: u32) -> (p: PresentLetter)
        requires
            old(self).wf(),
        ensures
            final(self).wf(),
            final(self).word_length == old(self).word_length,
            final(self).not_present_letters@ == old(self).not_present_letters@,
            final(self).present_letters@ == old(self).present_letters@.remove(letter_key),
            p.wf(),
            p@ == old(self)@.letter_or_fresh(letter_key),
            p@.len() == old(self).word_length,
    {
        match self.present_letters.remove(&letter_key) {
            Some(p) => p,
            None => {
                let p = PresentLetter::new(self.word_length);
                proof {
                    assert(p@ =~= fresh_letter(self.word_length));
                }
                p
            },
        }
    }

    /// Stores `p` as the knowledge of `letter_key`.
    fn put_letter(&mut self, letter_key: u32, p: PresentLetter)
        requires
            old(self).wf(),
            p.wf(),
            p@.len() == old(self).word_length,
        ensures
            final(self).wf(),
            final(self).word_length == old(self).word_length,
            final(self)@ == old(self)@.with_letter(letter_key, p@),
    {
        let ghost before = self.present_letters@;
        self.present_letters.insert(letter_key, p);
        proof {
            Self::lemma_view_insert(before, letter_key, p);
        }
    }

    fn set_letter_here(
        &mut self,
        letter: char,
        location: usize,
        guess: &Vec<char>,
        results: &Vec<LetterResult>,
    ) -> (res: Result<(), WordleError>)
        requires
            old(self).wf(),
            location < old(self).word_length,
            guess@.len() <= 255,
            results@.len() >= guess@.len(),
        ensures
            final(self).wf(),
            final(self).word_length == old(self).word_length,
            word_outcome(
                res,
                final(self)@,
                old(self)@.letter_here(letter, location as int, guess@, results@),
            ),
    {
        let key = letter as u32;
        if self.not_present_letters.contains(&key) {
            return Err(WordleError::InvalidResults);
        }
        let ghost s0 = self@;
        let mut presence = self.take_letter(key);
        let (num_times_present, num_times_not_present) = Self::count_num_times_in_guess(
            letter,
            guess,
            results,
        );
        let r = presence.learn_here(location, num_times_present, num_times_not_present);
        proof {
            assert(self@.with_letter(key, presence@) =~= s0.with_letter(key, presence@));
        }
        self.put_letter(key, presence);
        if r.is_err() {
            return r;
        }
        self.set_others_not_here(key, location)
    }

    fn set_letter_present_not_here(
        &mut self,
        letter: char,
        location: usize,
        guess: &Vec<char>,
        results: &Vec<LetterResult>,
    ) -> (res: Result<(), WordleError>)
        requires
            old(self).wf(),
            location < old(self).word_length,
            guess@.len() <= 255,
            results@.len() >= guess@.len(),
        ensures
            final(self).wf(),
            final(self).word_length == old(self).word_length,
            word_outcome(
                res,
                final(self)@,
                old(self)@.letter_present_not_here(letter, location as int, guess@, results@),
            ),
    {
        let key = letter as u32;
        if self.not_present_letters.contains(&key) {
            return Err(WordleError::InvalidResults);
        }
        let ghost s0 = self@;
        let mut presence = self.take_letter(key);
        let (num_times_present, num_times_not_present) = Self::count_num_times_in_guess(
            letter,
            guess,
            results,
        );
        let r = presence.learn_not_here(location, num_times_present, num_times_not_present);
        proof {
            assert(self@.with_letter(key, presence@) =~= s0.with_letter(key, presence@));
        }
        self.put_letter(key, presence);
        r
    }

    fn set_letter_not_present(
        &mut self,
        letter: char,
        location: usize,
        guess: &Vec<char>,
        results: &Vec<LetterResult>,
    ) -> (res: Result<(), WordleError>)
        requires
            old(self).wf(),
            location < old(self).word_length,
            guess@.len() <= 255,
            results@.len() >= guess@.len(),
        ensures
            final(self).wf(),
            final(self).word_length == old(self).word_length,
            word_outcome(
                res,
                final(self)@,
                old(self)@.letter_not_present(letter, location as int, guess@, results@),
            ),
    {
        let key = letter as u32;
        let (num_times_present, _) = Self::count_num_times_in_guess(letter, guess, results);
        if self.present_letters.contains_key(&key) {
            let ghost s0 = self@;
            let mut presence = self.take_letter(key);
            if presence.state(location) == LocatedLetterState::Here {
                proof {
                    assert(self@.with_letter(key, presence@) =~= s0);
                }
                self.put_letter(key, presence);
                return Err(WordleError::InvalidResults);
            }
            let r = presence.set_required_count(num_times_present);
            proof {
                assert(self@.with_letter(key, presence@) =~= s0.with_letter(key, presence@));
            }
            self.put_letter(key, presence);
            return r;
        } else if num_times_present == 0 {
            self.not_present_letters.insert(key);
        }
        Ok(())
    }

    /// Adds restrictions arising from the given result.
    ///
    /// Returns a [`WordleError::InvalidResults`] error if the result is incompatible with the
    /// existing restrictions.
    pub fn update(&mut self, guess_result: &GuessResult) -> (res: Result<(), WordleError>)
        requires
            old(self).wf(),
            guess_result.guess@.len() <= old(self)@.word_length,
            guess_result.results@.len() >= guess_result.guess@.len(),
        ensures
            final(self).wf(),
            final(self)@.word_length == old(self)@.word_length,
            word_outcome(
                res,
                final(self)@,
                old(self)@.updated(guess_result.guess@, guess_result.results@),
            ),
    {
        let guess = chars_of(guess_result.guess);
        let results = &guess_result.results;
        let ghost s0 = self@;
        let mut index: usize = 0;
        while index < guess.len()
            invariant
                self.wf(),
                self.word_length == old(self).word_length,
                guess@ == guess_result.guess@,
                results@ == guess_result.results@,
                guess@.len() <= self.word_length,
                results@.len() >= guess@.len(),
                index <= guess@.len(),
                s0 == old(self)@,
                s0.updated(guess@, results@) == self@.results_applied_from(
                    guess@,
                    results@,
                    index as int,
                ),
            decreases guess@.len() - index,
        {
            let letter = guess[index];
            let ghost sv = self@;
            let r = match results[index] {
                LetterResult::Correct => self.set_letter_here(letter, index, &guess, results),
                LetterResult::PresentNotHere => self.set_letter_present_not_here(
                    letter,
                    index,
                    &guess,
                    results,
                ),
                LetterResult::NotPresent => self.set_letter_not_present(
                    letter,
                    index,
                    &guess,
                    results,
                ),
            };
            if r.is_err() {
                proof {
                    assert(sv.results_applied_from(guess@, results@, index as int) == Err::<
                        WordRestrictionsView,
                        WordRestrictionsView,
                    >(self@));
                }
                return r;
            }
            index = index + 1;
        }
        Ok(())
    }
    /// Returns the restrictions imposed by the given result.
    pub fn from_result(result: &GuessResult) -> (restrictions: WordRestrictions)
        requires
            result.guess@.len() <= 255,
            result.results@.len() >= result.guess@.len(),
            (WordRestrictionsView {
                word_length: result.guess@.len() as u8,
                present: Map::empty(),
                not_present: Set::empty(),
            }).updated(result.guess@, result.results@) is Ok,
        ensures
            restrictions.wf(),
            Ok::<WordRestrictionsView, WordRestrictionsView>(restrictions@) == (WordRestrictionsView {
                word_length: result.guess@.len() as u8,
                present: Map::empty(),
                not_present: Set::empty(),
            }).updated(result.guess@, result.results@),
    {
        let guess = chars_of(result.guess);
        let mut restrictions = WordRestrictions::new(guess.len() as u8);
        let r = restrictions.update(result);
        proof {
            assert(r is Ok);
        }
        restrictions
    }

    /// Adds the given restrictions to this restriction.
    ///
    /// Returns a [`WordleError::InvalidResults`] error if the results are incompatible.
    pub fn merge(&mut self, other: &WordRestrictions) -> (res: Result<(), WordleError>)
        requires
            old(self).wf(),
            other.wf(),
        ensures
            final(self).wf(),
            final(self)@.word_length == old(self)@.word_length,
            word_outcome(res, final(self)@, old(self)@.merged(other@)),
    {
        if self.word_length != other.word_length {
            return Err(WordleError::InvalidResults);
        }
        let ghost s0 = self@;
        let absent = sorted_set_keys(&other.not_present_letters);
        let mut j: usize = 0;
        while j < absent.len()
            invariant
                self.wf(),
                self.word_length == other.word_length == old(self).word_length,
                s0 == old(self)@,
                absent@ == sorted_seq(other@.not_present),
                j <= absent@.len(),
                s0.absent_merged(absent@, 0) == self@.absent_merged(absent@, j as int),
            decreases absent@.len() - j,
        {
            let key = absent[j];
            if self.present_letters.contains_key(&key) {
                return Err(WordleError::InvalidResults);
            }
            let ghost sv = self@;
            self.not_present_letters.insert(key);
            proof {
                assert(self@ =~= (WordRestrictionsView {
                    word_length: sv.word_length,
                    present: sv.present,
                    not_present: sv.not_present.insert(key),
                }));
            }
            j = j + 1;
        }
        let ghost s1 = self@;
        let keys = sorted_map_keys(&other.present_letters);
        proof {
            assert(other@.present.dom() =~= other.present_letters@.dom());
        }
        let mut j: usize = 0;
        while j < keys.len()
            invariant
                self.wf(),
                other.wf(),
                self.word_length == other.word_length == old(self).word_length,
                s0 == old(self)@,
                s0.absent_merged(sorted_seq(other@.not_present), 0) == Ok::<
                    WordRestrictionsView,
                    WordRestrictionsView,
                >(s1),
                keys@ == sorted_seq(other@.present.dom()),
                keys@.to_set() == other.present_letters@.dom(),
                j <= keys@.len(),
                s1.present_merged(other@.present, keys@, 0) == self@.present_merged(
                    other@.present,
                    keys@,
                    j as int,
                ),
            decreases keys@.len() - j,
        {
            let key = keys[j];
            proof {
                assert(keys@.contains(key));
                assert(other.present_letters@.contains_key(key));
            }
            if self.not_present_letters.contains(&key) {
                return Err(WordleError::InvalidResults);
            }
            let theirs = other.present_letters.get(&key).unwrap();
            let ghost sv = self@;
            if self.present_letters.contains_key(&key) {
                let mut mine = self.take_letter(key);
                let r = mine.merge(theirs);
                proof {
                    assert(self@.with_letter(key, mine@) =~= sv.with_letter(key, mine@));
                }
                self.put_letter(key, mine);
                if r.is_err() {
                    return r;
                }
            } else {
                let copied = theirs.copy();
                self.put_letter(key, copied);
            }
            j = j + 1;
        }
        Ok(())
    }

    /// Whether `w` agrees with what is known about the letter with code `key`.
    fn letter_satisfied(presence: &PresentLetter, key: u32, w: &Vec<char>) -> (b: bool)
        requires
            presence.wf(),
            presence@.len() == w@.len(),
        ensures
            b == letter_allows(presence@, key, w@),
    {
        let mut count_found: u8 = 0;
        let mut index: usize = 0;
        while index < w.len()
            invariant
                presence.wf(),
                presence@.len() == w@.len() <= 255,
                index <= w@.len(),
                count_found as nat == code_count(w@, key, index as int),
                forall|i: int|
                    0 <= i < index && #[trigger] (w@[i] as u32) == key ==> presence@.states[i]
                        != LocatedLetterState::NotHere,
                forall|i: int|
                    0 <= i < index && (#[trigger] (w@[i] as u32)) != key ==> presence@.states[i]
                        != LocatedLetterState::Here,
            decreases w@.len() - index,
        {
            proof {
                lemma_code_count_bound(w@, key, index as int);
            }
            if w[index] as u32 == key {
                count_found = count_found + 1;
                if presence.state(index) == LocatedLetterState::NotHere {
                    return false;
                }
            } else if presence.state(index) == LocatedLetterState::Here {
                return false;
            }
            index = index + 1;
        }
        if let Some(required_count) = presence.maybe_required_count() {
            return count_found == required_count;
        }
        count_found >= presence.min_count()
    }

    /// The length of the words these restrictions are for.
    pub fn word_length(&self) -> (n: u8)
        ensures
            n == self@.word_length,
    {
        self.word_length
    }

    /// A copy of these restrictions.
    pub fn copy(&self) -> (r: WordRestrictions)
        requires
            self.wf(),
        ensures
            r.wf(),
            r@ == self@,
    {
        WordRestrictions {
            word_length: self.word_length,
            present_letters: self.present_letters.clone(),
            not_present_letters: self.not_present_letters.clone(),
        }
    }

    /// Returns `true` iff the given word satisfies these restrictions.
    pub fn is_satisfied_by(&self, word: &str) -> (b: bool)
        requires
            self.wf(),
        ensures
            b == self@.allows(word@),
    {
        let w = chars_of(word);
        if w.len() != self.word_length as usize {
            return false;
        }
        let keys = sorted_map_keys(&self.present_letters);
        let mut j: usize = 0;
        while j < keys.len()
            invariant
                self.wf(),
                w@ == word@,
                w@.len() == self.word_length,
                keys@.to_set() == self.present_letters@.dom(),
                j <= keys@.len(),
                forall|m: int|
                    0 <= m < j ==> letter_allows(self@.present[#[trigger] keys@[m]], keys@[m], w@),
            decreases keys@.len() - j,
        {
            let key = keys[j];
            proof {
                assert(keys@.contains(key));
            }
            let presence = self.present_letters.get(&key).unwrap();
            if !Self::letter_satisfied(presence, key, &w) {
                proof {
                    assert(self@.present.contains_key(key));
                    assert(self@.present[key] == presence@);
                    assert(!letter_allows(self@.present[key], key, w@));
                }
                return false;
            }
            j = j + 1;
        }
        proof {
            assert forall|k: u32| #[trigger] self@.present.contains_key(k) implies letter_allows(
                self@.present[k],
                k,
                w@,
            ) by {
                assert(keys@.to_set().contains(k));
                let m = choose|m: int| 0 <= m < keys@.len() && keys@[m] == k;
                assert(letter_allows(self@.present[keys@[m]], keys@[m], w@));
            }
        }
        let mut i: usize = 0;
        while i < w.len()
            invariant
                i <= w@.len(),
                w@ == word@,
                forall|m: int| 0 <= m < i ==> !self@.not_present.contains(#[trigger] (w@[m] as u32)),
            decreases w@.len() - i,
        {
            if self.not_present_letters.contains(&(w[i] as u32)) {
                return false;
            }
            i = i + 1;
        }
        true
    }

    /// Returns true iff the exact state of the given letter at the given location is already known.
    pub fn is_state_known(&self, ll: LocatedLetter) -> (b: bool)
        requires
            self.wf(),
            self@.present.contains_key(ll.letter as u32) ==> ll.location < self@.word_length,
        ensures
            b == match self@.state_of(ll.letter, ll.location as int) {
                Some(LetterRestriction::PresentMaybeHere) => false,
                Some(_) => true,
                None => false,
            },
    {
        let key = ll.letter as u32;
        if let Some(presence) = self.present_letters.get(&key) {
            return presence.state(ll.location as usize) != LocatedLetterState::Unknown;
        }
        self.not_present_letters.contains(&key)
    }

    /// Returns the current known state of this letter, either:
    ///
    ///  * `None` -> Nothing is known about the letter.
    ///  * `Some`:
    ///     * `NotPresent` -> The letter is not in the word.
    ///     * `PresentNotHere` -> The letter is present but not here.
    ///     * `PresentMaybeHere` -> The letter is present, but we don't know if it's here or not.
    ///     * `Here` -> The letter goes here.
    pub fn state(&self, ll: &LocatedLetter) -> (r: Option<LetterRestriction>)
        requires
            self.wf(),
            self@.present.contains_key(ll.letter as u32) ==> ll.location < self@.word_length,
        ensures
            r == self@.state_of(ll.letter, ll.location as int),
    {
        let key = ll.letter as u32;
        if let Some(presence) = self.present_letters.get(&key) {
            return match presence.state(ll.location as usize) {
                LocatedLetterState::Here => Some(LetterRestriction::Here),
                LocatedLetterState::NotHere => Some(LetterRestriction::PresentNotHere),
                LocatedLetterState::Unknown => Some(LetterRestriction::PresentMaybeHere),
            };
        }
        if self.not_present_letters.contains(&key) {
            return Some(LetterRestriction::NotPresent);
        }
        None
    }
}

proof fn lemma_code_count_bound(w: Seq<char>, k: u32, n: int)
    requires
        n >= 0,
    ensures
        code_count(w, k, n) <= n,
    decreases n,
{
    if n > 0 {
        lemma_code_count_bound(w, k, n - 1);
    }
}

} // verus!
