use std::collections::BTreeMap;
use std::collections::BTreeSet;
use vstd::prelude::*;

verus! {

broadcast use {vstd::std_specs::btree::group_btree_axioms, vstd::laws_cmp::group_laws_cmp};

/// `s` is strictly increasing.
pub open spec fn sorted_strict(s: Seq<u32>) -> bool {
    forall|i: int, j: int| 0 <= i < j < s.len() ==> s[i] < s[j]
}

/// The elements of a finite set of keys, in increasing order.
pub open spec fn sorted_seq(s: Set<u32>) -> Seq<u32> {
    choose|q: Seq<u32>| q.to_set() == s && sorted_strict(q)
}

proof fn lemma_sorted_drop_first(s: Seq<u32>)
    requires
        sorted_strict(s),
        s.len() > 0,
    ensures
        sorted_strict(s.drop_first()),
        s.drop_first().to_set() == s.to_set().remove(s[0]),
{
    let t = s.drop_first();
    assert forall|x: u32| t.to_set().contains(x) <==> s.to_set().remove(s[0]).contains(x) by {
        if t.to_set().contains(x) {
            let k = choose|k: int| 0 <= k < t.len() && t[k] == x;
            assert(s[k + 1] == x);
            assert(s.contains(x));
        }
        if s.to_set().remove(s[0]).contains(x) {
            let k = choose|k: int| 0 <= k < s.len() && s[k] == x;
            assert(k != 0);
            assert(t[k - 1] == x);
            assert(t.contains(x));
        }
    }
    assert(t.to_set() =~= s.to_set().remove(s[0]));
}

/// Only one strictly increasing sequence has a given set of elements.
pub proof fn lemma_sorted_unique(a: Seq<u32>, b: Seq<u32>)
    requires
        sorted_strict(a),
        sorted_strict(b),
        a.to_set() == b.to_set(),
    ensures
        a == b,
    decreases a.len(),
{
    if a.len() == 0 {
        if b.len() > 0 {
            assert(b.to_set().contains(b[0]));
            assert(a.to_set().contains(b[0]));
        }
        assert(a =~= b);
    } else {
        assert(a.to_set().contains(a[0]));
        assert(b.to_set().contains(a[0]));
        assert(b.len() > 0);
        assert(b.to_set().contains(b[0]));
        assert(a.to_set().contains(b[0]));
        let i = choose|i: int| 0 <= i < a.len() && a[i] == b[0];
        let j = choose|j: int| 0 <= j < b.len() && b[j] == a[0];
        assert(a[0] <= a[i]);
        assert(b[0] <= b[j]);
        assert(a[0] == b[0]);
        lemma_sorted_drop_first(a);
        lemma_sorted_drop_first(b);
        lemma_sorted_unique(a.drop_first(), b.drop_first());
        assert(a =~= seq![a[0]] + a.drop_first());
        assert(b =~= seq![b[0]] + b.drop_first());
    }
}

/// Sorts `v` into increasing order; `v` holds no duplicates.
fn sort_distinct(v: Vec<u32>) -> (r: Vec<u32>)
    requires
        v@.no_duplicates(),
    ensures
        r@.to_set() == v@.to_set(),
        sorted_strict(r@),
{
    let mut r: Vec<u32> = Vec::new();
    let mut i: usize = 0;
    while i < v.len()
        invariant
            i <= v@.len(),
            v@.no_duplicates(),
            r@.to_set() == v@.take(i as int).to_set(),
            sorted_strict(r@),
        decreases v@.len() - i,
    {
        let x = v[i];
        // Find the insertion point.
        let mut pos: usize = 0;
        while pos < r.len() && r[pos] < x
            invariant
                pos <= r@.len(),
                forall|k: int| 0 <= k < pos ==> r@[k] < x,
            decreases r@.len() - pos,
        {
            pos = pos + 1;
        }
        proof {
            assert(!v@.take(i as int).contains(x)) by {
                if v@.take(i as int).contains(x) {
                    let k = choose|k: int| 0 <= k < i && #[trigger] v@.take(i as int)[k] == x;
                    assert(v@[k] == v@[i as int]);
                }
            }
            if pos < r@.len() {
                assert(r@.to_set().contains(r@[pos as int]));
                assert(r@[pos as int] != x);
            }
        }
        let ghost old_r = r@;
        r.insert(pos, x);
        proof {
            assert(r@ == old_r.take(pos as int) + seq![x] + old_r.skip(pos as int));
            assert forall|a: int, b: int| 0 <= a < b < r@.len() implies r@[a] < r@[b] by {
                if b < pos {
                } else if b == pos {
                } else if a < pos {
                    assert(r@[b] == old_r[b - 1]);
                } else if a == pos {
                    assert(r@[b] == old_r[b - 1]);
                    assert(old_r[pos as int] <= old_r[b - 1]);
                } else {
                    assert(r@[a] == old_r[a - 1]);
                    assert(r@[b] == old_r[b - 1]);
                }
            }
            assert(v@.take(i + 1) == v@.take(i as int).push(x));
            assert forall|y: u32| r@.to_set().contains(y) <==> v@.take(i + 1).to_set().contains(y) by {
                if r@.to_set().contains(y) {
                    let k = choose|k: int| 0 <= k < r@.len() && r@[k] == y;
                    if k < pos {
                        assert(old_r[k] == y);
                        assert(old_r.to_set().contains(y));
                    } else if k > pos {
                        assert(old_r[k - 1] == y);
                        assert(old_r.to_set().contains(y));
                    }
                    if y != x {
                        assert(v@.take(i as int).to_set().contains(y));
                        let m = choose|m: int| 0 <= m < i && #[trigger] v@.take(i as int)[m] == y;
                        assert(v@.take(i + 1)[m] == y);
                    } else {
                        assert(v@.take(i + 1)[i as int] == x);
                    }
                }
                if v@.take(i + 1).to_set().contains(y) {
                    let m = choose|m: int| 0 <= m < i + 1 && #[trigger] v@.take(i + 1)[m] == y;
                    if m < i {
                        assert(v@.take(i as int)[m] == y);
                        assert(old_r.to_set().contains(y));
                        let k = choose|k: int| 0 <= k < old_r.len() && old_r[k] == y;
                        if k < pos {
                            assert(r@[k] == y);
                        } else {
                            assert(r@[k + 1] == y);
                        }
                    } else {
                        assert(r@[pos as int] == x);
                    }
                }
            }
            assert(r@.to_set() =~= v@.take(i + 1).to_set());
        }
        i = i + 1;
    }
    proof {
        assert(v@.take(v@.len() as int) =~= v@);
    }
    r
}

/// The keys of `m`, in increasing order.
pub fn sorted_map_keys<V>(m: &BTreeMap<u32, V>) -> (r: Vec<u32>)
    ensures
        r@.to_set() == m@.dom(),
        sorted_strict(r@),
        r@ == sorted_seq(m@.dom()),
{
    let mut v: Vec<u32> = Vec::new();
    let ghost full = vstd::std_specs::iter::IteratorSpec::remaining(
        &vstd::std_specs::btree::spec_keys_iter(m),
    );
    for k in it: m.keys()
        invariant
            it.seq() == full,
            v@ == full.take(it.index() as int).map_values(|x: &u32| *x),
            full.unref().to_set() == m@.dom(),
            full.no_duplicates(),
    {
        v.push(*k);
    }
    proof {
        assert(v@ =~= full.unref());
        assert(v@.no_duplicates());
    }
    let r = sort_distinct(v);
    proof {
        lemma_sorted_seq_is(r@, m@.dom());
    }
    r
}

/// The elements of `s`, in increasing order.
pub fn sorted_set_keys(s: &BTreeSet<u32>) -> (r: Vec<u32>)
    ensures
        r@.to_set() == s@,
        sorted_strict(r@),
        r@ == sorted_seq(s@),
{
    let mut v: Vec<u32> = Vec::new();
    let ghost full = vstd::std_specs::iter::IteratorSpec::remaining(
        &vstd::std_specs::btree::spec_btree_keys_iter(s),
    );
    for k in it: s.iter()
        invariant
            it.seq() == full,
            v@ == full.take(it.index() as int).map_values(|x: &u32| *x),
            full.unref().to_set() == s@,
            full.no_duplicates(),
    {
        v.push(*k);
    }
    proof {
        assert(v@ =~= full.unref());
        assert(v@.no_duplicates());
    }
    let r = sort_distinct(v);
    proof {
        lemma_sorted_seq_is(r@, s@);
    }
    r
}

/// A strictly increasing sequence is the sorted sequence of its elements.
pub proof fn lemma_sorted_seq_is(q: Seq<u32>, s: Set<u32>)
    requires
        q.to_set() == s,
        sorted_strict(q),
    ensures
        sorted_seq(s) == q,
{
    assert(exists|w: Seq<u32>| w.to_set() == s && sorted_strict(w)) by {
        assert(q.to_set() == s && sorted_strict(q));
    }
    lemma_sorted_unique(q, sorted_seq(s));
}

/// Every finite set of keys has a sorted sequence of its elements.
pub proof fn lemma_sorted_seq_props(s: Set<u32>)
    requires
        s.finite(),
    ensures
        sorted_seq(s).to_set() == s,
        sorted_strict(sorted_seq(s)),
    decreases s.len(),
{
    if s.len() == 0 {
        let e = Seq::<u32>::empty();
        assert(s =~= Set::<u32>::empty()) by {
            if exists|x: u32| s.contains(x) {
                let x = choose|x: u32| s.contains(x);
                assert(s.remove(x).len() < s.len());
            }
        }
        assert(e.to_set() =~= s);
        lemma_sorted_seq_is(e, s);
    } else {
        let r = |a: u32, b: u32| a <= b;
        assert(vstd::relations::total_ordering(r));
        s.find_unique_maximal_ensures(r);
        let m = s.find_unique_maximal(r);
        let t = s.remove(m);
        lemma_sorted_seq_props(t);
        let q0 = sorted_seq(t);
        let q = q0.push(m);
        assert forall|i: int| 0 <= i < q0.len() implies q0[i] < m by {
            assert(q0.to_set().contains(q0[i]));
            assert(s.contains(q0[i]));
            if r(m, q0[i]) {
                assert(r(q0[i], m));
            }
        }
        assert(sorted_strict(q));
        assert forall|x: u32| q.to_set().contains(x) <==> s.contains(x) by {
            if q.to_set().contains(x) {
                let k = choose|k: int| 0 <= k < q.len() && q[k] == x;
                if k < q0.len() {
                    assert(q0[k] == x);
                    assert(q0.to_set().contains(x));
                }
            }
            if s.contains(x) {
                if x == m {
                    assert(q[q0.len() as int] == m);
                } else {
                    assert(t.contains(x));
                    assert(q0.to_set().contains(x));
                    let k = choose|k: int| 0 <= k < q0.len() && q0[k] == x;
                    assert(q[k] == x);
                }
            }
        }
        assert(q.to_set() =~= s);
        lemma_sorted_seq_is(q, s);
    }
}

} // verus!
