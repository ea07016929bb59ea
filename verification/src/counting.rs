use vstd::prelude::*;

verus! {

/// The number of indices `i` in `[0, n)` for which `p(i)` holds.
pub open spec fn count_where(n: int, p: spec_fn(int) -> bool) -> nat
    decreases n,
{
    if n <= 0 {
        0
    } else {
        count_where(n - 1, p) + if p(n - 1) {
            1nat
        } else {
            0nat
        }
    }
}

/// The number of positions of `s` that hold `v`.
pub open spec fn count_eq<T>(s: Seq<T>, v: T) -> nat
    decreases s.len(),
{
    if s.len() == 0 {
        0
    } else {
        count_eq(s.drop_last(), v) + if s.last() == v {
            1nat
        } else {
            0nat
        }
    }
}

/// `count_eq` counts the indices at which any predicate equivalent to `s[i] == v` holds.
pub proof fn lemma_count_eq_where<T>(s: Seq<T>, v: T, p: spec_fn(int) -> bool)
    requires
        forall|i: int| 0 <= i < s.len() ==> #[trigger] p(i) == (s[i] == v),
    ensures
        count_eq(s, v) == count_where(s.len() as int, p),
    decreases s.len(),
{
    if s.len() > 0 {
        let t = s.drop_last();
        assert forall|i: int| 0 <= i < t.len() implies #[trigger] p(i) == (t[i] == v) by {
            assert(t[i] == s[i]);
        }
        lemma_count_eq_where(t, v, p);
    }
}

pub proof fn lemma_count_where_bound(n: int, p: spec_fn(int) -> bool)
    requires
        n >= 0,
    ensures
        count_where(n, p) <= n,
    decreases n,
{
    if n > 0 {
        lemma_count_where_bound(n - 1, p);
    }
}

/// Predicates that agree on `[0, n)` count alike.
pub proof fn lemma_count_where_ext(n: int, p: spec_fn(int) -> bool, q: spec_fn(int) -> bool)
    requires
        forall|i: int| 0 <= i < n ==> #[trigger] p(i) == q(i),
    ensures
        count_where(n, p) == count_where(n, q),
    decreases n,
{
    if n > 0 {
        lemma_count_where_ext(n - 1, p, q);
    }
}

/// A weaker predicate counts at least as much, and strictly more if it holds somewhere the
/// stronger one does not.
pub proof fn lemma_count_where_mono(n: int, p: spec_fn(int) -> bool, q: spec_fn(int) -> bool)
    requires
        forall|i: int| 0 <= i < n && #[trigger] p(i) ==> q(i),
    ensures
        count_where(n, p) <= count_where(n, q),
        (exists|k: int| 0 <= k < n && #[trigger] q(k) && !p(k)) ==> count_where(n, p) < count_where(n, q),
    decreases n,
{
    if n > 0 {
        lemma_count_where_mono(n - 1, p, q);
        if exists|k: int| 0 <= k < n && #[trigger] q(k) && !p(k) {
            let k = choose|k: int| 0 <= k < n && #[trigger] q(k) && !p(k);
            if k < n - 1 {
                assert(exists|k: int| 0 <= k < n - 1 && #[trigger] q(k) && !p(k));
            }
        }
    }
}

/// When one predicate implies another and both count the same, they agree on `[0, n)`.
pub proof fn lemma_count_where_same_implies(
    n: int,
    p: spec_fn(int) -> bool,
    q: spec_fn(int) -> bool,
)
    requires
        forall|i: int| 0 <= i < n && #[trigger] p(i) ==> q(i),
        count_where(n, p) == count_where(n, q),
    ensures
        forall|i: int| 0 <= i < n && #[trigger] q(i) ==> p(i),
{
    lemma_count_where_mono(n, p, q);
}

/// The count of a disjoint union is the sum of the counts.
pub proof fn lemma_count_where_disjoint_union(
    n: int,
    p: spec_fn(int) -> bool,
    q: spec_fn(int) -> bool,
    r: spec_fn(int) -> bool,
)
    requires
        forall|i: int| 0 <= i < n ==> (#[trigger] r(i) <==> (p(i) || q(i))),
        forall|i: int| 0 <= i < n ==> !(#[trigger] p(i) && q(i)),
    ensures
        count_where(n, r) == count_where(n, p) + count_where(n, q),
    decreases n,
{
    if n > 0 {
        lemma_count_where_disjoint_union(n - 1, p, q, r);
    }
}

/// Changing a predicate at a single index `k` changes the count by at most that index.
pub proof fn lemma_count_where_point_change(
    n: int,
    p: spec_fn(int) -> bool,
    q: spec_fn(int) -> bool,
    k: int,
)
    requires
        0 <= k < n,
        forall|i: int| 0 <= i < n && i != k ==> #[trigger] p(i) == q(i),
    ensures
        count_where(n, q) + (if p(k) {
            1int
        } else {
            0int
        }) == count_where(n, p) + (if q(k) {
            1int
        } else {
            0int
        }),
    decreases n,
{
    if k < n - 1 {
        lemma_count_where_point_change(n - 1, p, q, k);
    } else {
        lemma_count_where_ext(n - 1, p, q);
    }
}

/// The count over a longer range is the count over the shorter range plus that of the rest.
pub proof fn lemma_count_where_prefix(n: int, m: int, p: spec_fn(int) -> bool)
    requires
        0 <= m <= n,
    ensures
        count_where(m, p) <= count_where(n, p),
        count_where(n, p) - count_where(m, p) <= n - m,
    decreases n,
{
    if n > m {
        lemma_count_where_prefix(n - 1, m, p);
    }
}

/// If `p` holds nowhere in `[0, n)`, its count is zero; if everywhere, it is `n`.
pub proof fn lemma_count_where_extremes(n: int, p: spec_fn(int) -> bool)
    requires
        n >= 0,
    ensures
        (forall|i: int| 0 <= i < n ==> !#[trigger] p(i)) ==> count_where(n, p) == 0,
        (forall|i: int| 0 <= i < n ==> #[trigger] p(i)) ==> count_where(n, p) == n,
        count_where(n, p) > 0 ==> exists|i: int| 0 <= i < n && #[trigger] p(i),
    decreases n,
{
    if n > 0 {
        lemma_count_where_extremes(n - 1, p);
    }
}

} // verus!
