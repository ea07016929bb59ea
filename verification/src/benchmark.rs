use vstd::prelude::*;

use crate::ranking::{as_ints, rank_indices, ranked};
use crate::results::TurnData;

verus! {

/// The number of groups into which turns are sorted by how many words were possible.
pub const NUM_BUCKETS: usize = 13;

/// The number of turns, from the start and from the end of a game, whose possible words are
/// counted.
pub const NUM_COUNTED_TURNS: usize = 4;

/// The smallest number of possible words in group `i`.
pub open spec fn bucket_floor(i: int) -> int {
    if i <= 0 {
        1
    } else if i == 1 {
        2
    } else if i == 2 {
        4
    } else if i == 3 {
        8
    } else if i == 4 {
        16
    } else if i == 5 {
        32
    } else if i == 6 {
        64
    } else if i == 7 {
        96
    } else if i == 8 {
        128
    } else if i == 9 {
        256
    } else if i == 10 {
        512
    } else if i == 11 {
        1024
    } else {
        2048
    }
}

/// The smallest number of possible words in group `i`.
pub fn bucket_min(i: usize) -> (m: usize)
    requires
        i < NUM_BUCKETS,
    ensures
        m == bucket_floor(i as int),
{
    if i == 0 {
        1
    } else if i == 1 {
        2
    } else if i == 2 {
        4
    } else if i == 3 {
        8
    } else if i == 4 {
        16
    } else if i == 5 {
        32
    } else if i == 6 {
        64
    } else if i == 7 {
        96
    } else if i == 8 {
        128
    } else if i == 9 {
        256
    } else if i == 10 {
        512
    } else if i == 11 {
        1024
    } else {
        2048
    }
}

/// The group of a turn with `n` possible words: the last group whose smallest number is at most
/// `n`.
pub open spec fn bucket_of(n: int) -> int {
    if n >= 2048 {
        12
    } else if n >= 1024 {
        11
    } else if n >= 512 {
        10
    } else if n >= 256 {
        9
    } else if n >= 128 {
        8
    } else if n >= 96 {
        7
    } else if n >= 64 {
        6
    } else if n >= 32 {
        5
    } else if n >= 16 {
        4
    } else if n >= 8 {
        3
    } else if n >= 4 {
        2
    } else if n >= 2 {
        1
    } else {
        0
    }
}

/// The last of the first `i` groups whose smallest number is at most `n`, or 0.
pub open spec fn last_fitting(n: int, i: int) -> int
    decreases i,
{
    if i <= 0 {
        0
    } else if bucket_floor(i - 1) <= n {
        i - 1
    } else {
        last_fitting(n, i - 1)
    }
}

/// Finds the group of a turn with `n` possible words: the last group whose smallest number is at
/// most `n`.
pub fn bucket_index(n: usize) -> (index: usize)
    requires
        n >= 1,
    ensures
        index == bucket_of(n as int),
        index < NUM_BUCKETS,
        bucket_floor(index as int) <= n,
        index + 1 < NUM_BUCKETS ==> n < bucket_floor(index + 1),
{
    let mut last: usize = 0;
    let mut i: usize = 0;
    while i < NUM_BUCKETS
        invariant
            i <= NUM_BUCKETS,
            last == last_fitting(n as int, i as int),
        decreases NUM_BUCKETS - i,
    {
        if bucket_min(i) <= n {
            last = i;
        }
        i = i + 1;
    }
    proof {
        reveal_with_fuel(last_fitting, 14);
    }
    last
}

/// The position of the turn counted `k`-th: from the start, or from the end.
pub open spec fn counted_turn(len: int, k: int, from_end: bool) -> int {
    if from_end {
        len - 1 - k
    } else {
        k
    }
}

/// The counts after adding the first turns of a game (or the last, `from_end`): the `k`-th
/// counted turn adds one to the group of its possible words in row `k`.
pub open spec fn counts_after(
    before: Seq<Seq<u64>>,
    turns: Seq<TurnData>,
    from_end: bool,
    r: int,
    b: int,
) -> int {
    before[r][b] + if r < turns.len() && bucket_of(
        turns[counted_turn(turns.len() as int, r, from_end)].num_possible_words_before_guess as int,
    ) == b {
        1int
    } else {
        0int
    }
}

/// Counts the turns of a game by how many words were possible before each of the first (or,
/// `from_end`, the last) [`NUM_COUNTED_TURNS`] guesses: row `k` of `counts` counts the `k`-th
/// such turn.
pub fn count_possible_words(counts: &mut Vec<Vec<u64>>, turns: &[TurnData], from_end: bool)
    requires
        old(counts)@.len() == NUM_COUNTED_TURNS,
        forall|r: int|
            0 <= r < NUM_COUNTED_TURNS ==> (#[trigger] old(counts)@[r])@.len() == NUM_BUCKETS,
        forall|r: int, b: int|
            0 <= r < NUM_COUNTED_TURNS && 0 <= b < NUM_BUCKETS ==> #[trigger] old(counts)@[r]@[b] < u64::MAX,
        forall|k: int|
            0 <= k < turns@.len() && k <= NUM_COUNTED_TURNS ==> (#[trigger] turns@[counted_turn(
                turns@.len() as int,
                k,
                from_end,
            )]).num_possible_words_before_guess >= 1,
    ensures
        final(counts)@.len() == NUM_COUNTED_TURNS,
        forall|r: int|
            0 <= r < NUM_COUNTED_TURNS ==> (#[trigger] final(counts)@[r])@.len() == NUM_BUCKETS,
        forall|r: int, b: int|
            0 <= r < NUM_COUNTED_TURNS && 0 <= b < NUM_BUCKETS ==> #[trigger] final(counts)@[r]@[b] == counts_after(
                old(counts)@.map_values(|row: Vec<u64>| row@),
                turns@,
                from_end,
                r,
                b,
            ),
{
    let ghost before = counts@.map_values(|row: Vec<u64>| row@);
    let n = turns.len();
    let mut k: usize = 0;
    while k < n
        invariant_except_break
            k <= n,
        invariant
            n == turns@.len(),
            k <= NUM_COUNTED_TURNS,
            before == old(counts)@.map_values(|row: Vec<u64>| row@),
            counts@.len() == NUM_COUNTED_TURNS,
            forall|r: int|
                0 <= r < NUM_COUNTED_TURNS ==> (#[trigger] counts@[r])@.len() == NUM_BUCKETS,
            forall|k2: int|
                0 <= k2 < turns@.len() && k2 <= NUM_COUNTED_TURNS ==> (#[trigger] turns@[counted_turn(
                    turns@.len() as int,
                    k2,
                    from_end,
                )]).num_possible_words_before_guess >= 1,
            forall|r: int, b: int|
                0 <= r < NUM_COUNTED_TURNS && 0 <= b < NUM_BUCKETS ==> #[trigger] counts@[r]@[b]
                    == if r < k {
                    counts_after(before, turns@, from_end, r, b)
                } else {
                    before[r][b] as int
                },
            forall|r: int, b: int|
                0 <= r < NUM_COUNTED_TURNS && 0 <= b < NUM_BUCKETS ==> #[trigger] before[r][b]
                    < u64::MAX,
        ensures
            k == if n < NUM_COUNTED_TURNS {
                n
            } else {
                NUM_COUNTED_TURNS
            },
        decreases n - k,
    {
        let position = if from_end {
            n - 1 - k
        } else {
            k
        };
        proof {
            assert(counted_turn(turns@.len() as int, k as int, from_end) == position);
        }
        let bucket = bucket_index(turns[position].num_possible_words_before_guess);
        if k >= NUM_COUNTED_TURNS {
            break;
        }
        let ghost rows = counts@;
        let mut row = counts.remove(k);
        proof {
            assert(row == rows[k as int]);
            assert(row@.len() == NUM_BUCKETS);
            assert(row@[bucket as int] == before[k as int][bucket as int]);
        }
        let current = row[bucket];
        row.set(bucket, current + 1);
        counts.insert(k, row);
        proof {
            assert forall|r: int| 0 <= r < NUM_COUNTED_TURNS && r != k implies #[trigger] counts@[r]
                == rows[r] by {
                if r < k {
                    assert(counts@[r] == rows[r]);
                } else {
                    assert(counts@[r] == rows[r]);
                }
            }
        }
        proof {
            assert forall|r: int, b: int|
                0 <= r < NUM_COUNTED_TURNS && 0 <= b < NUM_BUCKETS implies #[trigger] counts@[r]@[b]
                == if r < k + 1 {
                counts_after(before, turns@, from_end, r, b)
            } else {
                before[r][b] as int
            } by {
                if r == k {
                    assert(counted_turn(turns@.len() as int, r, from_end) == position);
                }
            }
        }
        k = k + 1;
    }
    proof {
        assert forall|r: int, b: int|
            0 <= r < NUM_COUNTED_TURNS && 0 <= b < NUM_BUCKETS implies #[trigger] counts@[r]@[b]
            == counts_after(before, turns@, from_end, r, b) by {
            if r >= k {
                assert(r >= turns@.len());
            }
        }
    }
}

/// Where `guess` is listed in `counts`.
pub open spec fn listed_at(counts: Seq<(String, u64)>, guess: Seq<char>) -> Option<int> {
    if exists|i: int| 0 <= i < counts.len() && (#[trigger] counts[i]).0@ == guess {
        Some(choose|i: int| 0 <= i < counts.len() && (#[trigger] counts[i]).0@ == guess)
    } else {
        None
    }
}

/// No guess is listed twice.
pub open spec fn distinct_guesses(counts: Seq<(String, u64)>) -> bool {
    forall|i: int, j: int|
        0 <= i < j < counts.len() ==> (#[trigger] counts[i]).0@ != (#[trigger] counts[j]).0@
}

/// Counts one more use of `guess`: adds one to its count, or lists it with a count of one.
pub fn count_guess(counts: &mut Vec<(String, u64)>, guess: &String)
    requires
        distinct_guesses(old(counts)@),
        forall|i: int| 0 <= i < old(counts)@.len() ==> (#[trigger] old(counts)@[i]).1 < u64::MAX,
    ensures
        distinct_guesses(final(counts)@),
        match listed_at(old(counts)@, guess@) {
            Some(i) => final(counts)@.len() == old(counts)@.len() && final(counts)@[i].0@
                == guess@ && final(counts)@[i].1 == old(counts)@[i].1 + 1 && forall|j: int|
                0 <= j < old(counts)@.len() && j != i ==> #[trigger] final(counts)@[j] == old(counts)@[j],
            None => final(counts)@.len() == old(counts)@.len() + 1 && (forall|j: int|
                0 <= j < old(counts)@.len() ==> #[trigger] final(counts)@[j] == old(counts)@[j])
                && final(counts)@.last().0@ == guess@ && final(counts)@.last().1 == 1,
        },
{
    let mut i: usize = 0;
    while i < counts.len()
        invariant
            i <= counts@.len(),
            counts@ == old(counts)@,
            distinct_guesses(old(counts)@),
            forall|j: int| 0 <= j < old(counts)@.len() ==> (#[trigger] old(counts)@[j]).1 < u64::MAX,
            forall|j: int| 0 <= j < i ==> (#[trigger] counts@[j]).0@ != guess@,
        decreases counts@.len() - i,
    {
        if counts[i].0 == *guess {
            let ghost old_count = counts@[i as int].1;
            proof {
                assert(distinct_guesses(counts@));
                assert(counts@[i as int].0@ == guess@);
                let c = choose|j: int| 0 <= j < counts@.len() && (#[trigger] counts@[j]).0@ == guess@;
                if c != i {
                    if c < i {
                        assert(false);
                    } else {
                        assert(counts@[i as int].0@ != counts@[c].0@);
                    }
                }
            }
            let (name, count) = counts.remove(i);
            proof {
                assert(count == old_count);
                assert(old_count == old(counts)@[i as int].1);
            }
            counts.insert(i, (name, count + 1));
            proof {
                assert forall|a: int, b: int| 0 <= a < b < counts@.len() implies (
                #[trigger] counts@[a]).0@ != (#[trigger] counts@[b]).0@ by {
                    assert(old(counts)@[a].0@ == counts@[a].0@);
                    assert(old(counts)@[b].0@ == counts@[b].0@);
                }
            }
            return;
        }
        i = i + 1;
    }
    counts.push((guess.clone(), 1));
}

/// How many of `values` are `v`.
pub open spec fn occurrences(values: Seq<u32>, v: u32) -> nat
    decreases values.len(),
{
    if values.len() == 0 {
        0
    } else {
        occurrences(values.drop_last(), v) + if values.last() == v {
            1nat
        } else {
            0nat
        }
    }
}

/// Counts how many games took each number of guesses: the distinct numbers of `num_guesses`, in
/// increasing order, each with how often it occurs.
#[verifier::rlimit(60)]
pub fn rounds_histogram(num_guesses: &[u32]) -> (histogram: Vec<(u32, u64)>)
    ensures
        forall|x: int, y: int|
            0 <= x < y < histogram@.len() ==> (#[trigger] histogram@[x]).0 < (
            #[trigger] histogram@[y]).0,
        forall|x: int|
            0 <= x < histogram@.len() ==> (#[trigger] histogram@[x]).1 == occurrences(
                num_guesses@,
                histogram@[x].0,
            ) && histogram@[x].1 > 0,
        forall|v: u32|
            occurrences(num_guesses@, v) > 0 ==> exists|x: int|
                0 <= x < histogram@.len() && (#[trigger] histogram@[x]).0 == v,
{
    let mut histogram: Vec<(u32, u64)> = Vec::new();
    let mut i: usize = 0;
    while i < num_guesses.len()
        invariant
            i <= num_guesses@.len(),
            forall|x: int, y: int|
                0 <= x < y < histogram@.len() ==> (#[trigger] histogram@[x]).0 < (
                #[trigger] histogram@[y]).0,
            forall|x: int|
                0 <= x < histogram@.len() ==> (#[trigger] histogram@[x]).1 == occurrences(
                    num_guesses@.take(i as int),
                    histogram@[x].0,
                ) && histogram@[x].1 > 0,
            forall|v: u32|
                occurrences(num_guesses@.take(i as int), v) > 0 ==> exists|x: int|
                    0 <= x < histogram@.len() && (#[trigger] histogram@[x]).0 == v,
            forall|x: int| 0 <= x < histogram@.len() ==> (#[trigger] histogram@[x]).1 <= i,
        decreases num_guesses@.len() - i,
    {
        let v = num_guesses[i];
        let ghost done = num_guesses@.take(i as int);
        let ghost next = num_guesses@.take(i + 1);
        proof {
            assert(next.drop_last() =~= done);
            assert(next.last() == v);
        }
        let mut pos: usize = 0;
        while pos < histogram.len() && histogram[pos].0 < v
            invariant
                pos <= histogram@.len(),
                forall|x: int| 0 <= x < pos ==> (#[trigger] histogram@[x]).0 < v,
            decreases histogram@.len() - pos,
        {
            pos = pos + 1;
        }
        let ghost before = histogram@;
        if pos < histogram.len() && histogram[pos].0 == v {
            let (value, count) = histogram.remove(pos);
            histogram.insert(pos, (value, count + 1));
        } else {
            histogram.insert(pos, (v, 1));
        }
        proof {
            assert forall|x: int| 0 <= x < histogram@.len() implies (
            #[trigger] histogram@[x]).1 == occurrences(next, histogram@[x].0) && histogram@[x].1
                > 0 by {
                if histogram@[x].0 != v {
                    let y = if x < pos || (pos < before.len() && before[pos as int].0 == v) {
                        x
                    } else if x > pos {
                        x - 1
                    } else {
                        x
                    };
                    assert(histogram@[x] == before[y]);
                }
            }
            assert forall|w: u32| occurrences(next, w) > 0 implies exists|x: int|
                0 <= x < histogram@.len() && (#[trigger] histogram@[x]).0 == w by {
                if w == v {
                    assert(histogram@[pos as int].0 == v);
                } else {
                    assert(occurrences(done, w) > 0);
                    let x = choose|x: int| 0 <= x < before.len() && (#[trigger] before[x]).0 == w;
                    if x < pos || (pos < before.len() && before[pos as int].0 == v) {
                        assert(histogram@[x] == before[x]);
                    } else {
                        assert(histogram@[x + 1] == before[x]);
                    }
                }
            }
            assert forall|x: int, y: int| 0 <= x < y < histogram@.len() implies (
            #[trigger] histogram@[x]).0 < (#[trigger] histogram@[y]).0 by {
                if pos < before.len() && before[pos as int].0 == v {
                    assert(histogram@[x].0 == before[x].0 && histogram@[y].0 == before[y].0);
                } else {
                    if y < pos {
                        assert(histogram@[x] == before[x] && histogram@[y] == before[y]);
                    } else if x > pos {
                        assert(histogram@[x] == before[x - 1] && histogram@[y] == before[y - 1]);
                    } else if x == pos {
                        assert(histogram@[y] == before[y - 1]);
                    } else if y == pos {
                        assert(histogram@[x] == before[x]);
                    } else {
                        assert(histogram@[x] == before[x] && histogram@[y] == before[y - 1]);
                    }
                }
            }
        }
        i = i + 1;
    }
    proof {
        assert(num_guesses@.take(i as int) =~= num_guesses@);
    }
    histogram
}

/// The counts of the listed guesses, as scores.
pub open spec fn count_scores(counts: Seq<(String, u64)>) -> Seq<i64> {
    counts.map_values(|c: (String, u64)| c.1 as i64)
}

/// Lists up to `n` of the counted guesses, most used first, and in their listed order where
/// counts are equal.
pub fn top_guesses(counts: &Vec<(String, u64)>, n: usize) -> (top: Vec<(String, u64)>)
    requires
        forall|i: int| 0 <= i < counts@.len() ==> (#[trigger] counts@[i]).1 <= i64::MAX,
    ensures
        exists|order: Seq<int>|
            #[trigger] ranked(order, count_scores(counts@))
                && top@.len() == (if n < counts@.len() {
                n as int
            } else {
                counts@.len() as int
            }) && forall|x: int|
                0 <= x < top@.len() ==> (#[trigger] top@[x]).0@ == counts@[order[x]].0@
                    && top@[x].1 == counts@[order[x]].1,
{
    let mut scores: Vec<i64> = Vec::new();
    let mut k: usize = 0;
    while k < counts.len()
        invariant
            k <= counts@.len(),
            forall|i: int| 0 <= i < counts@.len() ==> (#[trigger] counts@[i]).1 <= i64::MAX,
            scores@ == count_scores(counts@).take(k as int),
        decreases counts@.len() - k,
    {
        scores.push(counts[k].1 as i64);
        proof {
            assert(scores@ =~= count_scores(counts@).take(k + 1));
        }
        k = k + 1;
    }
    proof {
        assert(scores@ =~= count_scores(counts@));
    }
    let order = rank_indices(scores.as_slice());
    let ghost order_ints = as_ints(order@);
    let count: usize = if n < counts.len() {
        n
    } else {
        counts.len()
    };
    let mut top: Vec<(String, u64)> = Vec::new();
    let mut x: usize = 0;
    while x < count
        invariant
            ranked(order_ints, scores@),
            order_ints == as_ints(order@),
            scores@.len() == counts@.len(),
            count <= counts@.len(),
            x <= count,
            top@.len() == x,
            forall|m: int|
                0 <= m < x ==> (#[trigger] top@[m]).0@ == counts@[order_ints[m]].0@ && top@[m].1
                    == counts@[order_ints[m]].1,
        decreases count - x,
    {
        let index = order[x];
        proof {
            assert(order_ints[x as int] == index);
            assert(0 <= order_ints[x as int] < scores@.len());
        }
        top.push((counts[index].0.clone(), counts[index].1));
        x = x + 1;
    }
    top
}

} // verus!
