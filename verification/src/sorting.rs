//! Sorting and de-duplication of `usize` sequences.

use vstd::prelude::*;
use vstd::relations::{sorted_by, total_ordering};
use vstd::seq_lib::lemma_sorted_unique;

verus! {

broadcast use {vstd::seq_lib::group_to_multiset_ensures, vstd::multiset::group_multiset_axioms};

pub open spec fn usize_leq() -> spec_fn(usize, usize) -> bool {
    |a: usize, b: usize| a <= b
}

/// `s` in ascending order (what `sort_unstable` leaves behind).
pub open spec fn sorted(s: Seq<usize>) -> Seq<usize> {
    s.sort_by(usize_leq())
}

/// `s` with runs of equal neighbours collapsed to one element (`dedup`).
pub open spec fn dedup_adjacent(s: Seq<usize>) -> Seq<usize>
    decreases s.len(),
{
    if s.len() == 0 {
        Seq::empty()
    } else {
        let r = dedup_adjacent(s.drop_last());
        if s.len() >= 2 && s[s.len() - 2] == s.last() {
            r
        } else {
            r.push(s.last())
        }
    }
}

/// The distinct values of `s` in ascending order.
pub open spec fn dedup_sorted(s: Seq<usize>) -> Seq<usize> {
    dedup_adjacent(sorted(s))
}

pub proof fn lemma_usize_leq_total()
    ensures
        total_ordering(usize_leq()),
{
}

/// The sorted rearrangement of `s` is the only ascending sequence with the
/// same elements.
pub proof fn lemma_sorted_is(s: Seq<usize>, t: Seq<usize>)
    requires
        sorted_by(t, usize_leq()),
        t.to_multiset() == s.to_multiset(),
    ensures
        sorted(s) == t,
{
    lemma_usize_leq_total();
    s.lemma_sort_by_ensures(usize_leq());
    lemma_sorted_unique(sorted(s), t, usize_leq());
}

/// Values of a sequence without repeats stay distinct after rearranging.
pub proof fn lemma_sorted_no_dup(s: Seq<usize>, t: Seq<usize>, a: int, b: int)
    requires
        s.no_duplicates(),
        t.to_multiset() == s.to_multiset(),
        0 <= a < b < t.len(),
    ensures
        t[a] != t[b],
{
    if t[a] == t[b] {
        let x = t[a];
        assert(t.remove(a).contains(x)) by {
            assert(t.remove(a)[b - 1] == x);
        }
        assert(t.remove(a).to_multiset() =~= t.to_multiset().remove(x));
        assert(t.remove(a).to_multiset().count(x) > 0);
        assert(s.to_multiset().count(x) >= 2);
        lemma_no_dup_count(s, x);
    }
}

pub proof fn lemma_no_dup_count(s: Seq<usize>, x: usize)
    requires
        s.no_duplicates(),
    ensures
        s.to_multiset().count(x) <= 1,
    decreases s.len(),
{
    if s.len() > 0 {
        let p = s.drop_last();
        assert(s =~= p.push(s.last()));
        assert(p.no_duplicates());
        lemma_no_dup_count(p, x);
        if x == s.last() {
            assert(!p.contains(x)) by {
                if p.contains(x) {
                    let j = choose|j: int| 0 <= j < p.len() && p[j] == x;
                    assert(s[j] == s[s.len() - 1]);
                }
            }
        }
    }
}

/// Sequences with the same elements counted with multiplicity hold the same
/// elements.
pub proof fn lemma_same_multiset_same_set(s: Seq<usize>, t: Seq<usize>)
    requires
        t.to_multiset() == s.to_multiset(),
    ensures
        t.to_set() == s.to_set(),
{
    assert forall|x: usize| t.to_set().contains(x) <==> s.to_set().contains(x) by {
        assert(t.contains(x) <==> t.to_multiset().count(x) > 0);
        assert(s.contains(x) <==> s.to_multiset().count(x) > 0);
    }
    assert(t.to_set() =~= s.to_set());
}

/// Collapsing runs in an ascending sequence leaves its values, each once,
/// strictly ascending.
pub proof fn lemma_dedup_ascending(t: Seq<usize>)
    requires
        forall|a: int, b: int| 0 <= a < b < t.len() ==> t[a] <= t[b],
    ensures
        forall|a: int, b: int|
            0 <= a < b < dedup_adjacent(t).len() ==> dedup_adjacent(t)[a] < dedup_adjacent(t)[b],
        dedup_adjacent(t).to_set() == t.to_set(),
    decreases t.len(),
{
    if t.len() == 0 {
        assert(dedup_adjacent(t).to_set() =~= t.to_set());
    } else {
        let t2 = t.drop_last();
        lemma_dedup_ascending(t2);
        let r = dedup_adjacent(t2);
        let x = t.last();
        assert(t =~= t2.push(x));
        if t.len() >= 2 && t[t.len() - 2] == x {
            assert(t2.contains(x)) by {
                assert(t2[t.len() - 2] == x);
            }
            assert(t.to_set() =~= t2.to_set());
        } else {
            let d = r.push(x);
            assert forall|y: usize| r.to_set().contains(y) implies y < x by {
                assert(t2.to_set().contains(y));
                let k = choose|k: int| 0 <= k < t2.len() && t2[k] == y;
                assert(t[k] <= t[t.len() - 1]);
                assert(t[k] <= t[t.len() - 2]) by {
                    if k < t.len() - 2 {
                        assert(t[k] <= t[t.len() - 2]);
                    }
                }
            }
            assert forall|a: int, b: int| 0 <= a < b < d.len() implies d[a] < d[b] by {
                if b == d.len() - 1 {
                    assert(r.to_set().contains(r[a]));
                }
            }
            assert(d.to_set() =~= t.to_set()) by {
                assert forall|y: usize| d.to_set().contains(y) <==> t.to_set().contains(y) by {
                    if d.to_set().contains(y) {
                        let k = choose|k: int| 0 <= k < d.len() && d[k] == y;
                        if k < r.len() {
                            assert(r.to_set().contains(y));
                            assert(t2.to_set().contains(y));
                            let m = choose|m: int| 0 <= m < t2.len() && t2[m] == y;
                            assert(t[m] == y);
                        } else {
                            assert(t[t.len() - 1] == y);
                        }
                    }
                    if t.to_set().contains(y) {
                        let k = choose|k: int| 0 <= k < t.len() && t[k] == y;
                        if k < t2.len() {
                            assert(t2[k] == y);
                            assert(t2.to_set().contains(y));
                            assert(r.to_set().contains(y));
                            let m = choose|m: int| 0 <= m < r.len() && r[m] == y;
                            assert(d[m] == y);
                        } else {
                            assert(d[d.len() - 1] == y);
                        }
                    }
                }
            }
        }
    }
}

/// The distinct values of `s` in ascending order: strictly ascending, and
/// exactly the values of `s`.
pub proof fn lemma_dedup_sorted(s: Seq<usize>)
    ensures
        forall|a: int, b: int|
            0 <= a < b < dedup_sorted(s).len() ==> dedup_sorted(s)[a] < dedup_sorted(s)[b],
        dedup_sorted(s).to_set() == s.to_set(),
{
    lemma_usize_leq_total();
    s.lemma_sort_by_ensures(usize_leq());
    let t = sorted(s);
    assert forall|a: int, b: int| 0 <= a < b < t.len() implies t[a] <= t[b] by {
        assert(usize_leq()(t[a], t[b]));
    }
    lemma_dedup_ascending(t);
    lemma_same_multiset_same_set(s, t);
}

/// Sorts in ascending order.
pub fn sort_usizes(v: &Vec<usize>) -> (r: Vec<usize>)
    ensures
        r@ == sorted(v@),
{
    let mut r: Vec<usize> = Vec::new();
    let mut i: usize = 0;
    while i < v.len()
        invariant
            i <= v@.len(),
            sorted_by(r@, usize_leq()),
            r@.to_multiset() == v@.take(i as int).to_multiset(),
        decreases v.len() - i,
    {
        let x = v[i];
        let mut p: usize = 0;
        while p < r.len() && r[p] <= x
            invariant
                p <= r@.len(),
                forall|k: int| 0 <= k < p ==> r@[k] <= x,
            decreases r.len() - p,
        {
            p = p + 1;
        }
        let ghost old_r = r@;
        proof {
            assert forall|k: int| p <= k < old_r.len() implies x < #[trigger] old_r[k] by {
                assert(old_r[p as int] > x);
                if k > p {
                    assert(usize_leq()(old_r[p as int], old_r[k]));
                }
            }
        }
        r.insert(p, x);
        proof {
            assert(r@.remove(p as int) =~= old_r);
            assert(r@[p as int] == x);
            assert(r@.to_multiset().remove(x) == old_r.to_multiset());
            assert(r@.to_multiset() =~= old_r.to_multiset().insert(x));
            assert(v@.take(i + 1) =~= v@.take(i as int).push(x));
            assert forall|a: int, b: int| 0 <= a < b < r@.len() implies (#[trigger] usize_leq()(
                r@[a],
                r@[b],
            )) by {
                if b < p {
                    assert(usize_leq()(old_r[a], old_r[b]));
                } else if b == p {
                    assert(old_r[a] <= x);
                } else if a < p {
                    assert(old_r[a] <= x);
                    assert(x <= old_r[b - 1]);
                    assert(usize_leq()(old_r[a], old_r[b - 1]));
                } else if a == p {
                    assert(x <= old_r[b - 1]);
                } else {
                    assert(usize_leq()(old_r[a - 1], old_r[b - 1]));
                }
            }
        }
        i = i + 1;
    }
    proof {
        assert(v@.take(v@.len() as int) =~= v@);
        lemma_sorted_is(v@, r@);
    }
    r
}

/// Collapses runs of equal neighbours.
pub fn dedup_usizes(v: &Vec<usize>) -> (r: Vec<usize>)
    ensures
        r@ == dedup_adjacent(v@),
{
    let mut r: Vec<usize> = Vec::new();
    let mut i: usize = 0;
    while i < v.len()
        invariant
            i <= v@.len(),
            r@ == dedup_adjacent(v@.take(i as int)),
        decreases v.len() - i,
    {
        proof {
            assert(v@.take(i + 1).drop_last() =~= v@.take(i as int));
        }
        if i == 0 || v[i - 1] != v[i] {
            r.push(v[i]);
        }
        i = i + 1;
    }
    assert(v@.take(v@.len() as int) =~= v@);
    r
}

} // verus!
