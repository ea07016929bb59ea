use rayon::iter::{IndexedParallelIterator, IntoParallelRefIterator, ParallelIterator};
use rayon::slice::ParallelSliceMut;
use vstd::prelude::*;

use crate::grouped::is_permutation;
use crate::scorers::WordScorer;

verus! {

/// Index `x` ranks before index `y` by `scores`: it has a higher score, or the same score and a
/// lower index.
pub open spec fn ranks_before(scores: Seq<i64>, x: int, y: int) -> bool {
    scores[x] > scores[y] || (scores[x] == scores[y] && x < y)
}

/// `order` lists each index of `scores` once, from the best-ranked to the worst-ranked.
pub open spec fn ranked(order: Seq<int>, scores: Seq<i64>) -> bool {
    &&& is_permutation(order, scores.len() as int)
    &&& forall|x: int, y: int|
        0 <= x < y < order.len() ==> ranks_before(scores, #[trigger] order[x], #[trigger] order[y])
}

/// The indices in `order`, as integers.
pub open spec fn as_ints(order: Seq<usize>) -> Seq<int> {
    order.map_values(|v: usize| v as int)
}

/// Lists the indices of `scores` from the best-ranked to the worst-ranked, by inserting each
/// index before the first listed index that it ranks before.
pub fn rank_indices(scores: &[i64]) -> (order: Vec<usize>)
    ensures
        ranked(as_ints(order@), scores@),
{
    let mut order: Vec<usize> = Vec::new();
    let mut i: usize = 0;
    while i < scores.len()
        invariant
            i <= scores@.len(),
            order@.len() == i,
            forall|x: int| 0 <= x < i ==> #[trigger] order@[x] < i,
            forall|x: int, y: int| 0 <= x < y < i ==> #[trigger] order@[x] != #[trigger] order@[y],
            forall|x: int, y: int|
                0 <= x < y < i ==> ranks_before(
                    scores@,
                    #[trigger] order@[x] as int,
                    #[trigger] order@[y] as int,
                ),
        decreases scores@.len() - i,
    {
        let mut pos: usize = 0;
        while pos < order.len() && !(scores[i] > scores[order[pos]] || (scores[i]
            == scores[order[pos]] && i < order[pos]))
            invariant
                i < scores@.len(),
                order@.len() == i,
                pos <= i,
                forall|x: int| 0 <= x < i ==> #[trigger] order@[x] < i,
                forall|x: int| 0 <= x < pos ==> !ranks_before(scores@, i as int, #[trigger] order@[x] as int),
            decreases i - pos,
        {
            pos = pos + 1;
        }
        let ghost before = order@;
        order.insert(pos, i);
        proof {
            assert forall|x: int, y: int| 0 <= x < y < i + 1 implies ranks_before(
                scores@,
                #[trigger] order@[x] as int,
                #[trigger] order@[y] as int,
            ) by {
                if y < pos {
                    assert(order@[x] == before[x] && order@[y] == before[y]);
                } else if y == pos {
                    assert(order@[x] == before[x]);
                    assert(!ranks_before(scores@, i as int, before[x] as int));
                } else if x == pos {
                    assert(order@[y] == before[y - 1]);
                    assert(ranks_before(scores@, i as int, before[pos as int] as int));
                    if y - 1 > pos {
                        assert(ranks_before(scores@, before[pos as int] as int, before[y - 1] as int));
                    }
                } else if x < pos {
                    assert(order@[x] == before[x] && order@[y] == before[y - 1]);
                } else {
                    assert(order@[x] == before[x - 1] && order@[y] == before[y - 1]);
                }
            }
            assert forall|x: int, y: int|
                0 <= x < y < i + 1 implies #[trigger] order@[x] != #[trigger] order@[y] by {
                if x < pos && y < pos {
                    assert(order@[x] == before[x] && order@[y] == before[y]);
                } else if x < pos && y > pos {
                    assert(order@[x] == before[x] && order@[y] == before[y - 1]);
                } else if x > pos && y > pos {
                    assert(order@[x] == before[x - 1] && order@[y] == before[y - 1]);
                } else if x == pos {
                    assert(order@[y] == before[y - 1]);
                } else {
                    assert(order@[x] == before[x]);
                }
            }
            assert forall|x: int| 0 <= x < i + 1 implies #[trigger] order@[x] < i + 1 by {
                if x < pos {
                    assert(order@[x] == before[x]);
                } else if x > pos {
                    assert(order@[x] == before[x - 1]);
                }
            }
        }
        i = i + 1;
    }
    proof {
        let o = as_ints(order@);
        assert forall|x: int, y: int| 0 <= x < y < o.len() implies ranks_before(
            scores@,
            #[trigger] o[x],
            #[trigger] o[y],
        ) by {
            assert(ranks_before(scores@, order@[x] as int, order@[y] as int));
        }
        assert forall|j1: int, j2: int|
            0 <= j1 < o.len() && 0 <= j2 < o.len() && j1 != j2 implies #[trigger] o[j1]
            != #[trigger] o[j2] by {
            if j1 < j2 {
                assert(order@[j1] != order@[j2]);
            } else {
                assert(order@[j2] != order@[j1]);
            }
        }
        assert forall|j: int| 0 <= j < o.len() implies 0 <= #[trigger] o[j] < scores@.len() by {
            assert(order@[j] < i);
        }
    }
    order
}

/// `after` holds the items of `before`, moved by `perm`, ordered by their second item, and items
/// with equal second items keep their order.
pub open spec fn stably_sorted(
    before: Seq<(usize, i128)>,
    after: Seq<(usize, i128)>,
    perm: Seq<int>,
) -> bool {
    &&& after.len() == before.len()
    &&& is_permutation(perm, before.len() as int)
    &&& forall|j: int| 0 <= j < after.len() ==> after[j] == before[#[trigger] perm[j]]
    &&& forall|x: int, y: int|
        0 <= x < y < after.len() ==> (#[trigger] after[x]).1 <= (#[trigger] after[y]).1
    &&& forall|x: int, y: int|
        0 <= x < y < after.len() && (#[trigger] after[x]).1 == (#[trigger] after[y]).1 ==> perm[x]
            < perm[y]
}

/// Calls rayon's `par_sort_by_key` on the pairs, keyed by each pair's second item. Rayon
/// documents the sort as stable: the pairs come out ordered by key, and pairs with equal keys keep
/// their order.
#[verifier::external_body]
fn par_sort_by_second(pairs: &mut Vec<(usize, i128)>)
    ensures
        exists|perm: Seq<int>| #[trigger] stably_sorted(old(pairs)@, final(pairs)@, perm),
{
    pairs.par_sort_by_key(|pair| pair.1)
}

/// Lists the indices of `scores` from the best-ranked to the worst-ranked with a parallel stable
/// sort by descending score.
pub fn par_rank_indices(scores: &[i64]) -> (order: Vec<usize>)
    ensures
        ranked(as_ints(order@), scores@),
{
    let mut pairs: Vec<(usize, i128)> = Vec::new();
    let mut k: usize = 0;
    while k < scores.len()
        invariant
            k <= scores@.len(),
            pairs@.len() == k,
            forall|m: int|
                0 <= m < k ==> #[trigger] pairs@[m] == (m as usize, (-(scores@[m] as int)) as i128),
        decreases scores@.len() - k,
    {
        pairs.push((k, -(scores[k] as i128)));
        k = k + 1;
    }
    let ghost before = pairs@;
    par_sort_by_second(&mut pairs);
    let ghost perm = choose|perm: Seq<int>| stably_sorted(before, pairs@, perm);
    let mut order: Vec<usize> = Vec::new();
    let mut x: usize = 0;
    while x < pairs.len()
        invariant
            stably_sorted(before, pairs@, perm),
            before.len() == scores@.len(),
            forall|m: int|
                0 <= m < before.len() ==> #[trigger] before[m] == (m as usize, (-(scores@[m] as int)) as i128),
            x <= pairs@.len(),
            order@.len() == x,
            forall|m: int| 0 <= m < x ==> #[trigger] order@[m] as int == perm[m],
        decreases pairs@.len() - x,
    {
        proof {
            assert(pairs@[x as int] == before[perm[x as int]]);
        }
        order.push(pairs[x].0);
        x = x + 1;
    }
    proof {
        let o = as_ints(order@);
        assert(o =~= perm);
        assert forall|a: int, b: int| 0 <= a < b < o.len() implies ranks_before(
            scores@,
            #[trigger] o[a],
            #[trigger] o[b],
        ) by {
            assert(pairs@[a] == before[perm[a]]);
            assert(pairs@[b] == before[perm[b]]);
            assert(pairs@[a].1 <= pairs@[b].1);
        }
    }
    order
}

/// Of two (index, score) pairs, the one with the higher score, or with the lower index if the
/// scores are equal.
pub open spec fn preferred(current: (usize, i64), candidate: (usize, i64)) -> (usize, i64) {
    if candidate.1 > current.1 || (candidate.1 == current.1 && candidate.0 < current.0) {
        candidate
    } else {
        current
    }
}

/// The preferred of the pairs of the first `n` scores with their indices, starting from
/// `(usize::MAX, i64::MIN)`.
pub open spec fn reduced_best(scores: Seq<i64>, n: int) -> (usize, i64)
    decreases n,
{
    if n <= 0 {
        (usize::MAX, i64::MIN)
    } else {
        preferred(reduced_best(scores, n - 1), ((n - 1) as usize, scores[n - 1]))
    }
}

/// The first index of the first `n` scores whose score is higher than all before it, with its
/// score; `(usize::MAX, i64::MIN)` if there are no scores.
pub open spec fn scanned_best(scores: Seq<i64>, n: int) -> (usize, i64)
    decreases n,
{
    if n <= 0 {
        (usize::MAX, i64::MIN)
    } else {
        let b = scanned_best(scores, n - 1);
        if n == 1 || scores[n - 1] > b.1 {
            ((n - 1) as usize, scores[n - 1])
        } else {
            b
        }
    }
}

/// Keeping the preferred pair is associative, and `(usize::MAX, i64::MIN)` is neutral for it on
/// pairs with a lower index, so a reduction in any grouping gives the sequential result.
pub proof fn lemma_preferred_associative(a: (usize, i64), b: (usize, i64), c: (usize, i64))
    ensures
        preferred(preferred(a, b), c) == preferred(a, preferred(b, c)),
        a.0 < usize::MAX ==> preferred((usize::MAX, i64::MIN), a) == a,
        preferred(a, (usize::MAX, i64::MIN)) == a,
{
}

/// Of two (index, score) pairs, keeps the preferred one (see [`preferred`]).
fn prefer<'a>(current: (usize, &'a i64), candidate: (usize, &'a i64)) -> (kept: (usize, &'a i64))
    ensures
        (kept.0, *kept.1) == preferred((current.0, *current.1), (candidate.0, *candidate.1)),
{
    if *candidate.1 > *current.1 {
        return candidate;
    }
    if *candidate.1 == *current.1 && candidate.0 < current.0 {
        return candidate;
    }
    current
}

/// Calls rayon's `reduce` on the scores paired with their indices, keeping the preferred pair
/// with [`prefer`] from the identity `(usize::MAX, i64::MIN)`. Rayon groups the reduction as it
/// likes and inserts the identity where it likes; its documentation asks for an associative
/// operation and a true identity, which [`lemma_preferred_associative`] shows these are, so the
/// result is the sequential reduction.
#[verifier::external_body]
pub(crate) fn par_best(scores: &[i64]) -> (best: (usize, i64))
    requires
        scores@.len() < usize::MAX,
    ensures
        best == reduced_best(scores@, scores@.len() as int),
{
    let (index, score) = scores.par_iter().enumerate().reduce(
        || (usize::MAX, &i64::MIN),
        |current, candidate| prefer(current, candidate),
    );
    (index, *score)
}

/// The first index whose score is above all before it, with its score.
pub fn sequential_best(scores: &[i64]) -> (best: (usize, i64))
    ensures
        best == scanned_best(scores@, scores@.len() as int),
{
    let mut best_score: i64 = i64::MIN;
    let mut best_index: usize = usize::MAX;
    let mut i: usize = 0;
    while i < scores.len()
        invariant
            i <= scores@.len(),
            (best_index, best_score) == scanned_best(scores@, i as int),
        decreases scores@.len() - i,
    {
        if i == 0 || scores[i] > best_score {
            best_score = scores[i];
            best_index = i;
        }
        i = i + 1;
    }
    (best_index, best_score)
}

/// Either reduction finds an index of the scores, with its score, when there are scores.
pub proof fn lemma_best_found(scores: Seq<i64>, n: int)
    requires
        0 <= n <= scores.len() < usize::MAX,
    ensures
        n > 0 ==> reduced_best(scores, n).0 < n,
        reduced_best(scores, n).0 < n ==> reduced_best(scores, n).1 == scores[
            reduced_best(scores, n).0 as int
        ],
        n > 0 ==> scanned_best(scores, n).0 < n,
        n == 0 ==> scanned_best(scores, n).0 == usize::MAX,
        scanned_best(scores, n).0 < n ==> scanned_best(scores, n).1 == scores[
            scanned_best(scores, n).0 as int
        ],
    decreases n,
{
    if n > 0 {
        lemma_best_found(scores, n - 1);
    }
}

/// Both reductions pick a highest score, and the first index that has it: a word scored earlier
/// wins a tie.
pub proof fn lemma_best_is_first_maximum(scores: Seq<i64>, n: int)
    requires
        0 <= n <= scores.len() < usize::MAX,
    ensures
        reduced_best(scores, n).0 < n ==> forall|j: int|
            0 <= j < n ==> #[trigger] scores[j] <= reduced_best(scores, n).1 && (j < reduced_best(
                scores,
                n,
            ).0 ==> scores[j] < reduced_best(scores, n).1),
        scanned_best(scores, n).0 < n ==> forall|j: int|
            0 <= j < n ==> #[trigger] scores[j] <= scanned_best(scores, n).1 && (j < scanned_best(
                scores,
                n,
            ).0 ==> scores[j] < scanned_best(scores, n).1),
    decreases n,
{
    if n > 0 {
        lemma_best_is_first_maximum(scores, n - 1);
        lemma_best_found(scores, n - 1);
        lemma_best_found(scores, n);
    }
}

/// Calls rayon's `par_iter().map(..).collect()` to score the words in parallel with the scorer's
/// `score_word`. Rayon's indexed collect into a `Vec` keeps the order of the words: there is one
/// score per word, each what `score_word` promises for it.
#[verifier::external_body]
pub(crate) fn par_score_words<T: WordScorer + Sync>(scorer: &T, words: &[String]) -> (scores: Vec<i64>)
    requires
        forall|k: int| 0 <= k < words@.len() ==> scorer.ready((#[trigger] words@[k])@.len()),
    ensures
        scores@.len() == words@.len(),
        forall|k: int| 0 <= k < words@.len() ==> #[trigger] scores@[k] == scorer.score_of(words@[k]@),
        forall|k: int|
            0 <= k < words@.len() && scorer.dependable() ==> #[trigger] scores@[k] > i64::MIN,
{
    words.par_iter().map(|word| scorer.score_word(word)).collect()
}

} // verus!
