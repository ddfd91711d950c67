//! Orbit analysis of a puzzle's pieces.
//!
//! Given which pieces each move carries where (found geometrically by the
//! caller), the pieces fall into orbits: the connected components of the
//! "a move carries one to the other" relation. Each orbit gets a generator:
//! for every axis, the cycles of the axis's forward move restricted to the
//! orbit, written with positions inside the orbit.

use vstd::prelude::*;
use std::collections::HashMap;
use crate::canonizer::{ascending, strictly_increasing, lemma_strictly_increasing_unique};
use crate::generator::{copy_cycle, copy_operation};
use crate::text::{dec, push_decimal};
use vstd::string::StringExecFns;
use crate::sorting::{sort_usizes, sorted, usize_leq, lemma_usize_leq_total, lemma_sorted_no_dup, lemma_same_multiset_same_set};

verus! {

broadcast use vstd::std_specs::hash::group_hash_axioms;

// ---------------------------------------------------------------------------
// Reachability
// ---------------------------------------------------------------------------

/// Every neighbour is a vertex, and the relation is symmetric.
pub open spec fn symmetric_graph(adj: Seq<Seq<usize>>) -> bool {
    &&& forall|u: int, k: int|
        0 <= u < adj.len() && 0 <= k < adj[u].len() ==> #[trigger] adj[u][k] < adj.len()
    &&& forall|u: int, k: int|
        0 <= u < adj.len() && 0 <= k < adj[u].len() ==> adj[adj[u][k] as int].contains(
            u as usize,
        )
}

pub open spec fn is_path(adj: Seq<Seq<usize>>, p: Seq<usize>) -> bool {
    &&& p.len() >= 1
    &&& forall|k: int| 0 <= k < p.len() ==> #[trigger] p[k] < adj.len()
    &&& forall|k: int| 0 <= k < p.len() - 1 ==> adj[#[trigger] p[k] as int].contains(p[k + 1])
}

/// `t` can be reached from `s` along neighbour links.
pub open spec fn reaches(adj: Seq<Seq<usize>>, s: usize, t: usize) -> bool {
    exists|p: Seq<usize>| #[trigger] is_path(adj, p) && p[0] == s && p.last() == t
}

/// The orbit of `s`: every piece reachable from it.
pub open spec fn component(adj: Seq<Seq<usize>>, s: usize) -> Set<usize> {
    Set::new(|t: usize| reaches(adj, s, t))
}

/// The smallest piece of its orbit.
pub open spec fn is_root(adj: Seq<Seq<usize>>, r: usize) -> bool {
    forall|t: usize| reaches(adj, r, t) ==> r <= t
}

/// The roots among the first `k` pieces, ascending.
pub open spec fn roots_upto(adj: Seq<Seq<usize>>, k: nat) -> Seq<usize>
    decreases k,
{
    if k == 0 {
        Seq::empty()
    } else if is_root(adj, (k - 1) as usize) {
        roots_upto(adj, (k - 1) as nat).push((k - 1) as usize)
    } else {
        roots_upto(adj, (k - 1) as nat)
    }
}

/// The orbits, ordered by their smallest piece, each in ascending order.
pub open spec fn orbits_of(adj: Seq<Seq<usize>>) -> Seq<Seq<usize>> {
    roots_upto(adj, adj.len()).map_values(|r: usize| ascending(component(adj, r)))
}

proof fn lemma_reach_refl(adj: Seq<Seq<usize>>, s: usize)
    requires
        s < adj.len(),
    ensures
        reaches(adj, s, s),
{
    let p = seq![s];
    assert(is_path(adj, p));
}

proof fn lemma_reach_step(adj: Seq<Seq<usize>>, s: usize, u: usize, v: usize)
    requires
        reaches(adj, s, u),
        u < adj.len(),
        adj[u as int].contains(v),
        v < adj.len(),
    ensures
        reaches(adj, s, v),
{
    let p = choose|p: Seq<usize>| #[trigger] is_path(adj, p) && p[0] == s && p.last() == u;
    let q = p.push(v);
    assert forall|k: int| 0 <= k < q.len() - 1 implies adj[#[trigger] q[k] as int].contains(
        q[k + 1],
    ) by {
        if k < p.len() - 1 {
            assert(q[k] == p[k] && q[k + 1] == p[k + 1]);
        } else {
            assert(q[k] == u && q[k + 1] == v);
        }
    }
    assert(is_path(adj, q));
}

proof fn lemma_reach_symm(adj: Seq<Seq<usize>>, s: usize, t: usize)
    requires
        symmetric_graph(adj),
        reaches(adj, s, t),
    ensures
        reaches(adj, t, s),
{
    let p = choose|p: Seq<usize>| #[trigger] is_path(adj, p) && p[0] == s && p.last() == t;
    let q = p.reverse();
    assert forall|k: int| 0 <= k < q.len() implies #[trigger] q[k] < adj.len() by {
        assert(q[k] == p[p.len() - 1 - k]);
    }
    assert forall|k: int| 0 <= k < q.len() - 1 implies adj[#[trigger] q[k] as int].contains(
        q[k + 1],
    ) by {
        let a = p.len() - 2 - k;
        assert(q[k] == p[a + 1]);
        assert(q[k + 1] == p[a]);
        assert(adj[p[a] as int].contains(p[a + 1]));
        let row = adj[p[a] as int];
        let j = choose|j: int| 0 <= j < row.len() && #[trigger] row[j] == p[a + 1];
        assert(adj[adj[p[a] as int][j] as int].contains(p[a]));
    }
    assert(is_path(adj, q));
}

proof fn lemma_reach_trans(adj: Seq<Seq<usize>>, s: usize, t: usize, w: usize)
    requires
        reaches(adj, s, t),
        reaches(adj, t, w),
    ensures
        reaches(adj, s, w),
{
    let p = choose|p: Seq<usize>| #[trigger] is_path(adj, p) && p[0] == s && p.last() == t;
    let q = choose|q: Seq<usize>| #[trigger] is_path(adj, q) && q[0] == t && q.last() == w;
    let r = p + q.drop_first();
    assert forall|k: int| 0 <= k < r.len() implies #[trigger] r[k] < adj.len() by {
        if k >= p.len() {
            assert(r[k] == q[k - p.len() + 1]);
        }
    }
    assert forall|k: int| 0 <= k < r.len() - 1 implies adj[#[trigger] r[k] as int].contains(
        r[k + 1],
    ) by {
        if k < p.len() - 1 {
            assert(r[k] == p[k] && r[k + 1] == p[k + 1]);
        } else if k == p.len() - 1 {
            assert(r[k] == t && r[k + 1] == q[1]);
            assert(q[0] == t);
        } else {
            assert(r[k] == q[k - p.len() + 1] && r[k + 1] == q[k - p.len() + 2]);
        }
    }
    assert(is_path(adj, r));
    if q.len() == 1 {
        assert(r.last() == p.last());
    } else {
        assert(r.last() == q.last());
    }
}

/// A set that holds `s` and is closed under neighbour links holds all
/// that `s` reaches.
proof fn lemma_closed_holds_component(adj: Seq<Seq<usize>>, m: Set<usize>, s: usize, t: usize)
    requires
        m.contains(s),
        forall|u: usize, k: int|
            m.contains(u) && u < adj.len() && 0 <= k < adj[u as int].len() ==> m.contains(
                #[trigger] adj[u as int][k],
            ),
        reaches(adj, s, t),
    ensures
        m.contains(t),
{
    let p = choose|p: Seq<usize>| #[trigger] is_path(adj, p) && p[0] == s && p.last() == t;
    lemma_path_in_closed(adj, m, p, p.len() - 1);
}

proof fn lemma_path_in_closed(adj: Seq<Seq<usize>>, m: Set<usize>, p: Seq<usize>, k: int)
    requires
        is_path(adj, p),
        0 <= k < p.len(),
        m.contains(p[0]),
        forall|u: usize, j: int|
            m.contains(u) && u < adj.len() && 0 <= j < adj[u as int].len() ==> m.contains(
                #[trigger] adj[u as int][j],
            ),
    ensures
        m.contains(p[k]),
    decreases k,
{
    if k > 0 {
        lemma_path_in_closed(adj, m, p, k - 1);
        assert(adj[p[k - 1] as int].contains(p[k]));
        let row = adj[p[k - 1] as int];
        let j = choose|j: int| 0 <= j < row.len() && #[trigger] row[j] == p[k];
        assert(p[k - 1] < adj.len());
        assert(m.contains(adj[p[k - 1] as int][j]));
    }
}

// ---------------------------------------------------------------------------
// The orbits partition the pieces
// ---------------------------------------------------------------------------

/// The members of `s` below `k`, ascending.
pub open spec fn members_below(s: Set<usize>, k: nat) -> Seq<usize>
    decreases k,
{
    if k == 0 {
        Seq::empty()
    } else {
        let p = members_below(s, (k - 1) as nat);
        if s.contains((k - 1) as usize) {
            p.push((k - 1) as usize)
        } else {
            p
        }
    }
}

proof fn lemma_members_below(s: Set<usize>, k: nat)
    requires
        k <= usize::MAX + 1,
    ensures
        strictly_increasing(members_below(s, k)),
        forall|i: int| 0 <= i < members_below(s, k).len() ==> #[trigger] members_below(s, k)[i] < k,
        forall|x: usize| #[trigger] members_below(s, k).contains(x) <==> (s.contains(x) && x < k),
    decreases k,
{
    if k > 0 {
        lemma_members_below(s, (k - 1) as nat);
        let p = members_below(s, (k - 1) as nat);
        if s.contains((k - 1) as usize) {
            assert forall|x: usize| #[trigger] p.push((k - 1) as usize).contains(x) <==> (p.contains(x) || x == (k - 1) as usize) by {
                crate::canon::lemma_push_contains(p, (k - 1) as usize, x);
            }
        }
    }
}

/// A set of numbers has an ascending enumeration.
pub proof fn lemma_ascending(s: Set<usize>)
    ensures
        strictly_increasing(ascending(s)),
        ascending(s).to_set() == s,
{
    let k: nat = usize::MAX as nat + 1;
    lemma_members_below(s, k);
    let w = members_below(s, k);
    assert(w.to_set() =~= s);
    assert(strictly_increasing(w) && w.to_set() == s);
}

proof fn lemma_roots_upto(adj: Seq<Seq<usize>>, k: nat)
    requires
        k <= usize::MAX + 1,
    ensures
        strictly_increasing(roots_upto(adj, k)),
        forall|i: int| 0 <= i < roots_upto(adj, k).len() ==> #[trigger] roots_upto(adj, k)[i] < k,
        forall|r: usize| #[trigger] roots_upto(adj, k).contains(r) <==> (r < k && is_root(adj, r)),
    decreases k,
{
    if k > 0 {
        lemma_roots_upto(adj, (k - 1) as nat);
        let p = roots_upto(adj, (k - 1) as nat);
        if is_root(adj, (k - 1) as usize) {
            assert forall|x: usize| #[trigger] p.push((k - 1) as usize).contains(x) <==> (p.contains(x) || x == (k - 1) as usize) by {
                crate::canon::lemma_push_contains(p, (k - 1) as usize, x);
            }
        }
    }
}

/// Some orbit holds piece `v`.
pub open spec fn in_some_orbit(adj: Seq<Seq<usize>>, v: usize) -> bool {
    exists|k: int| 0 <= k < orbits_of(adj).len() && #[trigger] orbits_of(adj)[k].contains(v)
}

/// The orbits partition the pieces: each piece lies in exactly one orbit,
/// an orbit holds every piece linked to one of its pieces, and any two
/// pieces of an orbit are connected.
pub proof fn lemma_orbits_partition(adj: Seq<Seq<usize>>)
    requires
        symmetric_graph(adj),
        adj.len() <= usize::MAX,
    ensures
        forall|v: usize| v < adj.len() ==> #[trigger] in_some_orbit(adj, v),
        forall|k1: int, k2: int, v: usize|
            0 <= k1 < orbits_of(adj).len() && 0 <= k2 < orbits_of(adj).len() && #[trigger] orbits_of(adj)[k1].contains(v)
                && #[trigger] orbits_of(adj)[k2].contains(v) ==> k1 == k2,
        forall|k: int, u: usize, j: int|
            0 <= k < orbits_of(adj).len() && #[trigger] orbits_of(adj)[k].contains(u) && 0 <= j < adj[u as int].len()
                ==> orbits_of(adj)[k].contains(#[trigger] adj[u as int][j]),
        forall|k: int, u: usize, w: usize|
            0 <= k < orbits_of(adj).len() && #[trigger] orbits_of(adj)[k].contains(u) && #[trigger] orbits_of(adj)[k].contains(w)
                ==> reaches(adj, u, w),
{
    let n = adj.len();
    let roots = roots_upto(adj, n);
    lemma_roots_upto(adj, n);
    let o = orbits_of(adj);
    assert(o.len() == roots.len());
    // an orbit's members are the component of its root
    assert forall|k: int, x: usize| 0 <= k < o.len() implies (#[trigger] o[k].contains(x) <==> reaches(adj, roots[k], x)) by {
        lemma_ascending(component(adj, roots[k]));
        assert(o[k] == ascending(component(adj, roots[k])));
        assert(o[k].to_set().contains(x) <==> component(adj, roots[k]).contains(x));
    }
    assert forall|v: usize| v < adj.len() implies #[trigger] in_some_orbit(adj, v) by {
        let c = component(adj, v);
        lemma_ascending(c);
        let asc = ascending(c);
        lemma_reach_refl(adj, v);
        assert(asc.to_set().contains(v));
        let r = asc[0];
        assert(asc.to_set().contains(r));
        assert(reaches(adj, v, r));
        assert forall|t: usize| reaches(adj, r, t) implies r <= t by {
            lemma_reach_trans(adj, v, r, t);
            assert(asc.to_set().contains(t));
            let i = choose|i: int| 0 <= i < asc.len() && asc[i] == t;
            if i > 0 {
                assert(asc[0] < asc[i]);
            }
        }
        assert(is_root(adj, r));
        let p = choose|p: Seq<usize>| #[trigger] is_path(adj, p) && p[0] == v && p.last() == r;
        assert(p[p.len() - 1] < adj.len());
        assert(roots.contains(r));
        let k = choose|k: int| 0 <= k < roots.len() && roots[k] == r;
        lemma_reach_symm(adj, v, r);
        assert(o[k].contains(v));
    }
    assert forall|k1: int, k2: int, v: usize|
        0 <= k1 < o.len() && 0 <= k2 < o.len() && #[trigger] o[k1].contains(v) && #[trigger] o[k2].contains(v) implies k1 == k2 by {
        let r1 = roots[k1];
        let r2 = roots[k2];
        assert(reaches(adj, r1, v) && reaches(adj, r2, v));
        lemma_reach_symm(adj, r2, v);
        lemma_reach_trans(adj, r1, v, r2);
        lemma_reach_symm(adj, r1, v);
        lemma_reach_trans(adj, r2, v, r1);
        assert(roots.contains(r1) && roots.contains(r2));
        assert(is_root(adj, r1) && is_root(adj, r2));
        assert(r1 == r2);
        if k1 < k2 {
            assert(roots[k1] < roots[k2]);
        } else if k2 < k1 {
            assert(roots[k2] < roots[k1]);
        }
    }
    assert forall|k: int, u: usize, j: int|
        0 <= k < o.len() && #[trigger] o[k].contains(u) && 0 <= j < adj[u as int].len() implies o[k].contains(
        #[trigger] adj[u as int][j],
    ) by {
        let w = adj[u as int][j];
        assert(reaches(adj, roots[k], u));
        let p = choose|p: Seq<usize>| #[trigger] is_path(adj, p) && p[0] == roots[k] && p.last() == u;
        assert(p[p.len() - 1] < adj.len());
        assert(adj[u as int].contains(w));
        lemma_reach_step(adj, roots[k], u, w);
    }
    assert forall|k: int, u: usize, w: usize|
        0 <= k < o.len() && #[trigger] o[k].contains(u) && #[trigger] o[k].contains(w) implies reaches(adj, u, w) by {
        lemma_reach_symm(adj, roots[k], u);
        lemma_reach_trans(adj, u, roots[k], w);
    }
}

// ---------------------------------------------------------------------------
// Counting unvisited pieces
// ---------------------------------------------------------------------------

pub open spec fn count_false(v: Seq<bool>) -> nat
    decreases v.len(),
{
    if v.len() == 0 {
        0
    } else {
        count_false(v.drop_last()) + if v.last() {
            0nat
        } else {
            1nat
        }
    }
}

pub proof fn lemma_count_false_set(v: Seq<bool>, i: int)
    requires
        0 <= i < v.len(),
        !v[i],
    ensures
        count_false(v.update(i, true)) + 1 == count_false(v),
    decreases v.len(),
{
    let w = v.update(i, true);
    if i == v.len() - 1 {
        assert(w.drop_last() =~= v.drop_last());
    } else {
        assert(w.drop_last() =~= v.drop_last().update(i, true));
        lemma_count_false_set(v.drop_last(), i);
    }
}

// ---------------------------------------------------------------------------
// Orbits
// ---------------------------------------------------------------------------

proof fn lemma_roots_upto_take(adj: Seq<Seq<usize>>, i: nat)
    ensures
        roots_upto(adj, i + 1) == if is_root(adj, i as usize) {
            roots_upto(adj, i).push(i as usize)
        } else {
            roots_upto(adj, i)
        },
{
}

pub open spec fn visited_by(adj: Seq<Seq<usize>>, i: nat, v: usize) -> bool {
    exists|u: usize| u < i && #[trigger] reaches(adj, u, v)
}

/// The orbits of the pieces `0..adj.len()`: connected components of the
/// neighbour relation, ordered by their smallest piece, each ascending.
pub fn connected_orbits(adj: &Vec<Vec<usize>>) -> (r: Vec<Vec<usize>>)
    requires
        symmetric_graph(adj.deep_view()),
    ensures
        r.deep_view() == orbits_of(adj.deep_view()),
        forall|k: int| 0 <= k < r@.len() ==> #[trigger] strictly_increasing(r@[k]@),
        forall|k: int, j: int| 0 <= k < r@.len() && 0 <= j < r@[k]@.len() ==> #[trigger] r@[k]@[j] < adj@.len(),
{
    let ghost g = adj.deep_view();
    let n = adj.len();
    let mut visited: Vec<bool> = Vec::new();
    while visited.len() < n
        invariant
            visited@.len() <= n,
            forall|v: int| 0 <= v < visited@.len() ==> !visited@[v],
        decreases n - visited.len(),
    {
        visited.push(false);
    }
    let mut orbits: Vec<Vec<usize>> = Vec::new();
    let mut i: usize = 0;
    while i < n
        invariant
            i <= n,
            n == g.len(),
            g == adj.deep_view(),
            symmetric_graph(g),
            visited@.len() == n,
            forall|v: int| 0 <= v < n ==> (#[trigger] visited@[v] <==> visited_by(g, i as nat, v as usize)),
            orbits.deep_view() == roots_upto(g, i as nat).map_values(
                |r: usize| ascending(component(g, r)),
            ),
            forall|k: int| 0 <= k < orbits@.len() ==> #[trigger] strictly_increasing(orbits@[k]@),
            forall|k: int, j: int| 0 <= k < orbits@.len() && 0 <= j < orbits@[k]@.len() ==> #[trigger] orbits@[k]@[j] < n,
        decreases n - i,
    {
        proof {
            lemma_roots_upto_take(g, i as nat);
        }
        if visited[i] {
            proof {
                let u = choose|u: usize| u < i && #[trigger] reaches(g, u, i as usize);
                lemma_reach_symm(g, u, i as usize);
                assert(!is_root(g, i as usize));
                assert forall|v: int| 0 <= v < n implies (#[trigger] visited@[v] <==> visited_by(
                    g,
                    (i + 1) as nat,
                    v as usize,
                )) by {
                    if visited_by(g, (i + 1) as nat, v as usize) {
                        let w = choose|w: usize| w < i + 1 && #[trigger] reaches(g, w, v as usize);
                        if w == i {
                            lemma_reach_trans(g, u, i as usize, v as usize);
                        }
                    }
                }
                assert(roots_upto(g, (i + 1) as nat).map_values(
                    |r: usize| ascending(component(g, r)),
                ) =~= roots_upto(g, i as nat).map_values(|r: usize| ascending(component(g, r))));
            }
            i = i + 1;
            continue;
        }
        // i is the smallest piece of a new orbit
        proof {
            assert forall|t: usize| #[trigger] reaches(g, i as usize, t) implies i <= t by {
                if t < i {
                    lemma_reach_symm(g, i as usize, t);
                    assert(visited_by(g, i as nat, i as usize));
                }
            }
            lemma_reach_refl(g, i as usize);
        }
        let ghost old_visited = visited@;
        let ghost mut marked: Set<usize> = Set::empty().insert(i as usize);
        let mut stack: Vec<usize> = Vec::new();
        stack.push(i);
        visited.set(i, true);
        let mut members: Vec<usize> = Vec::new();
        proof {
            assert forall|v: usize| #[trigger] marked.contains(v) <==> (members@.contains(v)
                || stack@.contains(v)) by {
                crate::canon::lemma_push_contains(Seq::<usize>::empty(), i as usize, v);
                assert(stack@ =~= Seq::<usize>::empty().push(i as usize));
            }
        }
        while stack.len() > 0
            invariant
                i < n,
                n == g.len(),
                g == adj.deep_view(),
                symmetric_graph(g),
                visited@.len() == n,
                old_visited.len() == n,
                !old_visited[i as int],
                forall|v: int| 0 <= v < n ==> (#[trigger] old_visited[v] <==> visited_by(g, i as nat, v as usize)),
                forall|v: int| 0 <= v < n ==> (#[trigger] visited@[v] <==> (old_visited[v] || marked.contains(v as usize))),
                forall|v: usize| #[trigger] marked.contains(v) ==> v < n && reaches(g, i as usize, v),
                marked.contains(i as usize),
                forall|v: usize| #[trigger] marked.contains(v) <==> (members@.contains(v) || stack@.contains(v)),
                members@.no_duplicates(),
                forall|a: int, b: int| 0 <= a < members@.len() && 0 <= b < stack@.len() ==> members@[a] != stack@[b],
                stack@.no_duplicates(),
                forall|a: int, k: int|
                    0 <= a < members@.len() && 0 <= k < g[members@[a] as int].len() ==> visited@[#[trigger] g[members@[a] as int][k] as int],
                forall|a: int| 0 <= a < members@.len() ==> (#[trigger] members@[a]) < n,
            decreases count_false(visited@), stack@.len(),
        {
            let ghost stack_before = stack@;
            let u = stack.pop().unwrap();
            proof {
                assert(stack_before =~= stack@.push(u));
                assert(!stack@.contains(u)) by {
                    if stack@.contains(u) {
                        let j = choose|j: int| 0 <= j < stack@.len() && stack@[j] == u;
                        assert(stack_before[j] == stack_before[stack_before.len() - 1]);
                    }
                }
                assert(!members@.contains(u)) by {
                    if members@.contains(u) {
                        let j = choose|j: int| 0 <= j < members@.len() && members@[j] == u;
                        assert(members@[j] != stack_before[stack_before.len() - 1]);
                    }
                }
            }
            proof {
                assert(stack_before.contains(u)) by {
                    assert(stack_before[stack_before.len() - 1] == u);
                }
                assert(marked.contains(u));
            }
            let ghost cf0 = count_false(visited@);
            let ghost sl0 = stack@.len();
            let ghost members_before = members@;
            members.push(u);
            proof {
                assert forall|v: usize| #[trigger] marked.contains(v) <==> (members@.contains(v)
                    || stack@.contains(v)) by {
                    crate::canon::lemma_push_contains(members_before, u, v);
                    crate::canon::lemma_push_contains(stack@, u, v);
                    assert(marked.contains(v) <==> (members_before.contains(v) || stack_before.contains(v)));
                }
            }
            let nb = &adj[u];
            assert(g[u as int] == nb@);
            let mut k: usize = 0;
            while k < nb.len()
                invariant
                    // all neighbours handled so far are visited
                    k <= nb@.len(),
                    i < n,
                    g == adj.deep_view(),
                    old_visited.len() == n,
                    !old_visited[i as int],
                    forall|v: int| 0 <= v < n ==> (#[trigger] old_visited[v] <==> visited_by(g, i as nat, v as usize)),
                    marked.contains(i as usize),
                    nb@ == g[u as int],
                    u < n,
                    n == g.len(),
                    symmetric_graph(g),
                    visited@.len() == n,
                    forall|v: int| 0 <= v < n ==> (#[trigger] visited@[v] <==> (old_visited[v] || marked.contains(v as usize))),
                    forall|v: usize| #[trigger] marked.contains(v) ==> v < n && reaches(g, i as usize, v),
                    marked.contains(u),
                    forall|v: usize| #[trigger] marked.contains(v) <==> (members@.contains(v) || stack@.contains(v)),
                    members@.no_duplicates(),
                    forall|a: int, b: int| 0 <= a < members@.len() && 0 <= b < stack@.len() ==> members@[a] != stack@[b],
                    stack@.no_duplicates(),
                    forall|a: int, j: int|
                        0 <= a < members@.len() - 1 && 0 <= j < g[members@[a] as int].len() ==> visited@[#[trigger] g[members@[a] as int][j] as int],
                    members@.len() > 0 && members@.last() == u,
                    forall|j: int| 0 <= j < k ==> visited@[#[trigger] nb@[j] as int],
                    forall|a: int| 0 <= a < members@.len() ==> (#[trigger] members@[a]) < n,
                    count_false(visited@) <= cf0,
                    count_false(visited@) < cf0 || stack@.len() == sl0,
                decreases nb.len() - k,
            {
                let v = nb[k];
                assert(v < n) by {
                    assert(g[u as int][k as int] == v);
                }
                if !visited[v] {
                    proof {
                        lemma_count_false_set(visited@, v as int);
                        lemma_reach_step(g, i as usize, u, v);
                        assert(g[u as int].contains(v)) by {
                            assert(g[u as int][k as int] == v);
                        }
                        lemma_reach_step(g, i as usize, u, v);
                        assert(!marked.contains(v));
                    }
                    let ghost stack_prev = stack@;
                    let ghost marked_prev = marked;
                    proof {
                        marked = marked.insert(v);
                    }
                    visited.set(v, true);
                    stack.push(v);
                    proof {
                        assert forall|w: usize| #[trigger] marked.contains(w) <==> (members@.contains(w)
                            || stack@.contains(w)) by {
                            crate::canon::lemma_push_contains(stack_prev, v, w);
                        }
                        assert(!stack_prev.contains(v));
                        assert(!members@.contains(v));
                        assert(stack@.no_duplicates()) by {
                            assert forall|a: int, b: int| 0 <= a < b < stack@.len() implies stack@[a] != stack@[b] by {
                                if b == stack@.len() - 1 {
                                    assert(stack_prev[a] == stack@[a]);
                                } else {
                                    assert(stack_prev[a] == stack@[a] && stack_prev[b] == stack@[b]);
                                }
                            }
                        }
                        assert forall|a: int, b: int| 0 <= a < members@.len() && 0 <= b < stack@.len() implies members@[a] != stack@[b] by {
                            if b < stack@.len() - 1 {
                                assert(stack@[b] == stack_prev[b]);
                            } else {
                                assert(members@.contains(members@[a]));
                            }
                        }
                    }
                }
                k = k + 1;
            }
        }
        // the new orbit is exactly what the search marked
        proof {
            assert forall|t: usize| #[trigger] reaches(g, i as usize, t) implies marked.contains(t) by {
                assert forall|w: usize, j: int|
                    marked.contains(w) && w < g.len() && 0 <= j < g[w as int].len() implies marked.contains(
                    #[trigger] g[w as int][j],
                ) by {
                    let a = choose|a: int| 0 <= a < members@.len() && members@[a] == w;
                    let x = g[w as int][j];
                    assert(visited@[x as int]);
                    if !marked.contains(x) {
                        assert(old_visited[x as int]);
                        let y = choose|y: usize| y < i && #[trigger] reaches(g, y, x);
                        assert(g[w as int].contains(x));
                        lemma_reach_step(g, i as usize, w, x);
                        lemma_reach_symm(g, i as usize, x);
                        lemma_reach_trans(g, y, x, i as usize);
                        assert(visited_by(g, i as nat, i as usize));
                    }
                }
                lemma_closed_holds_component(g, marked, i as usize, t);
            }
            assert forall|t: usize| members@.to_set().contains(t) <==> component(g, i as usize).contains(t) by {
                if members@.to_set().contains(t) {
                    assert(marked.contains(t));
                }
                if component(g, i as usize).contains(t) {
                    assert(reaches(g, i as usize, t));
                    assert(marked.contains(t));
                    assert(!stack@.contains(t));
                }
            }
            assert(members@.to_set() =~= component(g, i as usize));
        }
        let sorted_members = sort_usizes(&members);
        proof {
            lemma_usize_leq_total();
            members@.lemma_sort_by_ensures(usize_leq());
            assert(strictly_increasing(sorted_members@)) by {
                assert forall|a: int, b: int| 0 <= a < b < sorted_members@.len() implies sorted_members@[a] < sorted_members@[b] by {
                    assert(usize_leq()(sorted_members@[a], sorted_members@[b]));
                    if sorted_members@[a] == sorted_members@[b] {
                        lemma_sorted_no_dup(members@, sorted_members@, a, b);
                    }
                }
            }
            lemma_same_multiset_same_set(members@, sorted_members@);
            let asc = ascending(component(g, i as usize));
            assert(strictly_increasing(sorted_members@) && sorted_members@.to_set() == component(
                g,
                i as usize,
            ));
            assert(strictly_increasing(asc) && asc.to_set() == component(g, i as usize));
            lemma_strictly_increasing_unique(sorted_members@, asc);
        }
        let ghost before = orbits.deep_view();
        let ghost before_rows = orbits@;
        let ghost new_row = sorted_members@;
        assert(sorted_members.deep_view() =~= sorted_members@);
        proof {
            assert forall|j: int| 0 <= j < new_row.len() implies #[trigger] new_row[j] < n by {
                assert(new_row.to_set().contains(new_row[j]));
                assert(component(g, i as usize).contains(new_row[j]));
                let p = choose|p: Seq<usize>| #[trigger] is_path(g, p) && p[0] == i as usize && p.last() == new_row[j];
                assert(p[p.len() - 1] < g.len());
            }
        }
        orbits.push(sorted_members);
        proof {
            assert forall|k: int| 0 <= k < orbits@.len() implies #[trigger] strictly_increasing(orbits@[k]@) by {
                if k < before_rows.len() {
                    assert(orbits@[k] == before_rows[k]);
                }
            }
            assert forall|k: int, j: int| 0 <= k < orbits@.len() && 0 <= j < orbits@[k]@.len() implies #[trigger] orbits@[k]@[j] < n by {
                if k < before_rows.len() {
                    assert(orbits@[k] == before_rows[k]);
                } else {
                    assert(orbits@[k]@ == new_row);
                }
            }
        }
        proof {
            assert(orbits.deep_view() =~= before.push(sorted_members@));
            assert(orbits.deep_view() =~= roots_upto(g, (i + 1) as nat).map_values(
                |r: usize| ascending(component(g, r)),
            ));
            assert forall|v: int| 0 <= v < n implies (#[trigger] visited@[v] <==> visited_by(
                g,
                (i + 1) as nat,
                v as usize,
            )) by {
                if visited_by(g, (i + 1) as nat, v as usize) {
                    let w = choose|w: usize| w < i + 1 && #[trigger] reaches(g, w, v as usize);
                    if w == i {
                        assert(component(g, i as usize).contains(v as usize));
                    } else {
                        assert(visited_by(g, i as nat, v as usize));
                    }
                }
                if visited@[v] {
                    if marked.contains(v as usize) {
                        assert(reaches(g, i as usize, v as usize));
                    }
                }
            }
        }
        i = i + 1;
    }
    proof {
        assert(orbits.deep_view() =~= orbits_of(g));
    }
    orbits
}


// ---------------------------------------------------------------------------
// Cycles of a move inside an orbit
// ---------------------------------------------------------------------------

/// The position of `x` in `sub` (meaningful when `sub` holds it once).
pub open spec fn index_in(sub: Seq<usize>, x: usize) -> int {
    choose|k: int| 0 <= k < sub.len() && sub[k] == x
}

/// Follows the move `perm` from piece `x` while the piece is in `sub` and
/// its position is not yet seen; gives the positions passed and the seen
/// marks afterwards.
pub open spec fn walk(perm: Seq<usize>, sub: Seq<usize>, seen: Seq<bool>, x: usize) -> (Seq<
    usize,
>, Seq<bool>)
    decreases count_false(seen),
{
    if !sub.contains(x) {
        (Seq::empty(), seen)
    } else {
        let p = index_in(sub, x);
        if !(0 <= p < seen.len()) || seen[p] || !(x < perm.len()) {
            (Seq::empty(), seen)
        } else {
            proof {
                lemma_count_false_set(seen, p);
            }
            let rest = walk(perm, sub, seen.update(p, true), perm[x as int]);
            (seq![p as usize] + rest.0, rest.1)
        }
    }
}

/// The seen marks and the cycles (of more than one position) found after
/// starting a walk at each of the first `j` members of `sub` not yet seen.
pub open spec fn cycles_upto(perm: Seq<usize>, sub: Seq<usize>, j: nat) -> (Seq<bool>, Seq<
    Seq<usize>,
>)
    decreases j,
{
    if j == 0 {
        (Seq::new(sub.len(), |k: int| false), Seq::empty())
    } else {
        let prev = cycles_upto(perm, sub, (j - 1) as nat);
        if (j - 1) < prev.0.len() && prev.0[j - 1] {
            prev
        } else {
            let w = walk(perm, sub, prev.0, sub[j - 1]);
            (w.1, if w.0.len() > 1 {
                prev.1.push(w.0)
            } else {
                prev.1
            })
        }
    }
}

/// The cycles of the move `perm` restricted to the pieces `sub`, each
/// written with positions in `sub`, in order of their first member; fixed
/// pieces are left out.
pub open spec fn cycles_of(perm: Seq<usize>, sub: Seq<usize>) -> Seq<Seq<usize>> {
    cycles_upto(perm, sub, sub.len()).1
}

proof fn lemma_cycles_upto_len(perm: Seq<usize>, sub: Seq<usize>, j: nat)
    ensures
        cycles_upto(perm, sub, j).0.len() == sub.len(),
    decreases j,
{
    if j > 0 {
        lemma_cycles_upto_len(perm, sub, (j - 1) as nat);
        let prev = cycles_upto(perm, sub, (j - 1) as nat);
        lemma_walk_len(perm, sub, prev.0, sub[j - 1]);
    }
}

proof fn lemma_walk_len(perm: Seq<usize>, sub: Seq<usize>, seen: Seq<bool>, x: usize)
    ensures
        walk(perm, sub, seen, x).1.len() == seen.len(),
    decreases count_false(seen),
{
    if sub.contains(x) {
        let p = index_in(sub, x);
        if 0 <= p < seen.len() && !seen[p] && x < perm.len() {
            lemma_count_false_set(seen, p);
            lemma_walk_len(perm, sub, seen.update(p, true), perm[x as int]);
        }
    }
}

proof fn lemma_walk_props(perm: Seq<usize>, sub: Seq<usize>, seen: Seq<bool>, x: usize)
    requires
        seen.len() <= usize::MAX,
    ensures
        ({
            let w = walk(perm, sub, seen, x);
            &&& w.1.len() == seen.len()
            &&& w.0.no_duplicates()
            &&& forall|i: int| 0 <= i < w.0.len() ==> (#[trigger] w.0[i]) < seen.len() && !seen[w.0[i] as int]
            &&& forall|p: int| 0 <= p < seen.len() ==> (#[trigger] w.1[p] <==> (seen[p] || w.0.contains(p as usize)))
        }),
    decreases count_false(seen),
{
    if sub.contains(x) {
        let p = index_in(sub, x);
        if 0 <= p < seen.len() && !seen[p] && x < perm.len() {
            lemma_count_false_set(seen, p);
            let seen2 = seen.update(p, true);
            lemma_walk_props(perm, sub, seen2, perm[x as int]);
            let rest = walk(perm, sub, seen2, perm[x as int]);
            let w0 = seq![p as usize] + rest.0;
            assert(p as usize == p);
            assert(walk(perm, sub, seen, x).0 == w0);
            assert forall|i: int| 0 <= i < w0.len() implies (#[trigger] w0[i]) < seen.len() && !seen[w0[i] as int] by {
                if i > 0 {
                    assert(w0[i] == rest.0[i - 1]);
                    assert(!seen2[rest.0[i - 1] as int]);
                }
            }
            assert(w0.no_duplicates()) by {
                assert forall|a: int, b: int| 0 <= a < b < w0.len() implies w0[a] != w0[b] by {
                    assert(w0[b] == rest.0[b - 1]);
                    if a == 0 {
                        assert(!seen2[rest.0[b - 1] as int]);
                    } else {
                        assert(w0[a] == rest.0[a - 1]);
                    }
                }
            }
            assert forall|q: int| 0 <= q < seen.len() implies (#[trigger] rest.1[q] <==> (seen[q] || w0.contains(q as usize))) by {
                if w0.contains(q as usize) {
                    let i = choose|i: int| 0 <= i < w0.len() && w0[i] == q as usize;
                    if i > 0 {
                        assert(rest.0[i - 1] == q as usize);
                        assert(rest.0.contains(q as usize));
                    }
                }
                if rest.0.contains(q as usize) {
                    let i = choose|i: int| 0 <= i < rest.0.len() && rest.0[i] == q as usize;
                    assert(w0[i + 1] == q as usize);
                }
                if q == p {
                    assert(w0[0] == q as usize);
                }
            }
        }
    }
}

proof fn lemma_cycles_upto_props(perm: Seq<usize>, sub: Seq<usize>, j: nat)
    requires
        j <= sub.len(),
        sub.len() <= usize::MAX,
    ensures
        ({
            let st = cycles_upto(perm, sub, j);
            &&& st.0.len() == sub.len()
            &&& forall|c: int, i: int| 0 <= c < st.1.len() && 0 <= i < st.1[c].len() ==> (#[trigger] st.1[c][i]) < sub.len() && st.0[st.1[c][i] as int]
            &&& forall|c: int| 0 <= c < st.1.len() ==> (#[trigger] st.1[c]).len() > 1 && st.1[c].no_duplicates()
            &&& forall|c1: int, i1: int, c2: int, i2: int|
                0 <= c1 < c2 < st.1.len() && 0 <= i1 < st.1[c1].len() && 0 <= i2 < st.1[c2].len() ==> #[trigger] st.1[c1][i1] != #[trigger] st.1[c2][i2]
        }),
    decreases j,
{
    lemma_cycles_upto_len(perm, sub, j);
    if j > 0 {
        lemma_cycles_upto_props(perm, sub, (j - 1) as nat);
        let prev = cycles_upto(perm, sub, (j - 1) as nat);
        lemma_cycles_upto_len(perm, sub, (j - 1) as nat);
        if !((j - 1) < prev.0.len() && prev.0[j - 1]) {
            let w = walk(perm, sub, prev.0, sub[j - 1]);
            lemma_walk_props(perm, sub, prev.0, sub[j - 1]);
            let st = cycles_upto(perm, sub, j);
            assert(st.0 == w.1);
            // earlier cycles stay marked
            assert forall|c: int, i: int| 0 <= c < prev.1.len() && 0 <= i < prev.1[c].len() implies w.1[prev.1[c][i] as int] by {
                assert(prev.0[prev.1[c][i] as int]);
            }
            if w.0.len() > 1 {
                assert(st.1 == prev.1.push(w.0));
                assert forall|c: int, i: int| 0 <= c < st.1.len() && 0 <= i < st.1[c].len() implies (#[trigger] st.1[c][i]) < sub.len() && st.0[st.1[c][i] as int] by {
                    if c == prev.1.len() {
                        assert(st.1[c] == w.0);
                        assert(w.0.contains(w.0[i]));
                    } else {
                        assert(st.1[c] == prev.1[c]);
                    }
                }
                assert forall|c1: int, i1: int, c2: int, i2: int|
                    0 <= c1 < c2 < st.1.len() && 0 <= i1 < st.1[c1].len() && 0 <= i2 < st.1[c2].len() implies #[trigger] st.1[c1][i1] != #[trigger] st.1[c2][i2] by {
                    assert(st.1[c1] == prev.1[c1]);
                    if c2 == prev.1.len() {
                        assert(st.1[c2] == w.0);
                        assert(prev.0[prev.1[c1][i1] as int]);
                        assert(!prev.0[w.0[i2] as int]);
                    } else {
                        assert(st.1[c2] == prev.1[c2]);
                    }
                }
                assert forall|c: int| 0 <= c < st.1.len() implies (#[trigger] st.1[c]).len() > 1 && st.1[c].no_duplicates() by {
                    if c < prev.1.len() {
                        assert(st.1[c] == prev.1[c]);
                    }
                }
            }
        }
    }
}

/// The cycles of a move inside an orbit are disjoint cycles of positions of
/// the orbit, each of more than one position.
pub proof fn lemma_cycles_disjoint(perm: Seq<usize>, sub: Seq<usize>)
    requires
        sub.len() <= usize::MAX,
    ensures
        forall|c: int, i: int| 0 <= c < cycles_of(perm, sub).len() && 0 <= i < cycles_of(perm, sub)[c].len()
            ==> (#[trigger] cycles_of(perm, sub)[c][i]) < sub.len(),
        forall|c: int| 0 <= c < cycles_of(perm, sub).len() ==> (#[trigger] cycles_of(perm, sub)[c]).len() > 1
            && cycles_of(perm, sub)[c].no_duplicates(),
        forall|c1: int, i1: int, c2: int, i2: int|
            0 <= c1 < c2 < cycles_of(perm, sub).len() && 0 <= i1 < cycles_of(perm, sub)[c1].len() && 0 <= i2
                < cycles_of(perm, sub)[c2].len() ==> #[trigger] cycles_of(perm, sub)[c1][i1] != #[trigger] cycles_of(perm, sub)[c2][i2],
{
    lemma_cycles_upto_props(perm, sub, sub.len());
}

/// The cycles of the move `perm` restricted to the distinct pieces
/// `subset`, written with positions in `subset`.
pub fn perm_cycles(perm: &Vec<usize>, subset: &Vec<usize>) -> (r: Vec<Vec<usize>>)
    requires
        subset@.no_duplicates(),
        forall|k: int| 0 <= k < subset@.len() ==> #[trigger] subset@[k] < perm@.len(),
    ensures
        r.deep_view() == cycles_of(perm@, subset@),
{
    let m = subset.len();
    let mut in_set: HashMap<usize, usize> = HashMap::new();
    let mut i: usize = 0;
    while i < m
        invariant
            i <= m,
            m == subset@.len(),
            subset@.no_duplicates(),
            forall|k: int| #![trigger subset@[k]] 0 <= k < i ==> in_set@.contains_key(subset@[k]) && in_set@[subset@[k]] == k,
            forall|x: usize| #[trigger] in_set@.contains_key(x) ==> exists|k: int| 0 <= k < i && subset@[k] == x,
        decreases m - i,
    {
        let ghost before = in_set@;
        in_set.insert(subset[i], i);
        proof {
            assert(in_set@ == before.insert(subset@[i as int], i));
            assert forall|k: int| #![trigger subset@[k]] 0 <= k < i + 1 implies in_set@.contains_key(subset@[k]) && in_set@[subset@[k]] == k by {
                if k < i {
                    assert(subset@[k] != subset@[i as int]);
                    assert(before.contains_key(subset@[k]) && before[subset@[k]] == k);
                }
            }
            assert forall|x: usize| #[trigger] in_set@.contains_key(x) implies exists|k: int| 0 <= k < i + 1 && subset@[k] == x by {
                if x != subset@[i as int] {
                    assert(before.contains_key(x));
                } else {
                    assert(subset@[i as int] == x);
                }
            }
        }
        i = i + 1;
    }
    // `in_set` finds each member's position
    proof {
        assert forall|x: usize| #[trigger] in_set@.contains_key(x) <==> subset@.contains(x) by {
            if subset@.contains(x) {
                let k = choose|k: int| 0 <= k < subset@.len() && subset@[k] == x;
                assert(in_set@.contains_key(subset@[k]));
            }
        }
        assert forall|x: usize| #[trigger] in_set@.contains_key(x) implies in_set@[x] == index_in(subset@, x) && subset@[in_set@[x] as int] == x by {
            let k = choose|k: int| 0 <= k < m && subset@[k] == x;
            assert(in_set@[subset@[k]] == k);
            let c = index_in(subset@, x);
            assert(0 <= c < subset@.len() && subset@[c] == x);
        }
    }
    let mut seen: Vec<bool> = Vec::new();
    while seen.len() < m
        invariant
            seen@.len() <= m,
            forall|k: int| 0 <= k < seen@.len() ==> !seen@[k],
        decreases m - seen.len(),
    {
        seen.push(false);
    }
    let mut cycles: Vec<Vec<usize>> = Vec::new();
    proof {
        assert(seen@ =~= Seq::new(subset@.len(), |k: int| false));
        assert(cycles.deep_view() =~= Seq::<Seq<usize>>::empty());
    }
    let mut j: usize = 0;
    while j < m
        invariant
            j <= m,
            m == subset@.len(),
            subset@.no_duplicates(),
            forall|k: int| 0 <= k < subset@.len() ==> #[trigger] subset@[k] < perm@.len(),
            forall|x: usize| #[trigger] in_set@.contains_key(x) <==> subset@.contains(x),
            forall|x: usize| #[trigger] in_set@.contains_key(x) ==> in_set@[x] == index_in(subset@, x) && subset@[in_set@[x] as int] == x,
            seen@ == cycles_upto(perm@, subset@, j as nat).0,
            cycles.deep_view() == cycles_upto(perm@, subset@, j as nat).1,
        decreases m - j,
    {
        proof {
            lemma_cycles_upto_len(perm@, subset@, j as nat);
        }
        if seen[j] {
            j = j + 1;
            continue;
        }
        let ghost seen0 = seen@;
        let start = subset[j];
        proof {
            assert(subset@.contains(start)) by {
                assert(subset@[j as int] == start);
            }
            assert(index_in(subset@, start) == j) by {
                let c = index_in(subset@, start);
                assert(0 <= c < subset@.len() && subset@[c] == start);
            }
        }
        let mut cycle: Vec<usize> = Vec::new();
        let mut cur: usize = start;
        loop
            invariant_except_break
                m == subset@.len(),
                seen@.len() == m,
                forall|k: int| 0 <= k < subset@.len() ==> #[trigger] subset@[k] < perm@.len(),
                forall|x: usize| #[trigger] in_set@.contains_key(x) <==> subset@.contains(x),
                forall|x: usize| #[trigger] in_set@.contains_key(x) ==> in_set@[x] == index_in(subset@, x) && subset@[in_set@[x] as int] == x,
                walk(perm@, subset@, seen0, start) == (cycle@ + walk(perm@, subset@, seen@, cur).0, walk(perm@, subset@, seen@, cur).1),
            ensures
                seen@.len() == m,
                walk(perm@, subset@, seen0, start) == (cycle@, seen@),
            decreases count_false(seen@),
        {
            match in_set.get(&cur) {
                None => {
                    proof {
                        assert(walk(perm@, subset@, seen@, cur).0 =~= Seq::<usize>::empty());
                        assert(cycle@ + Seq::<usize>::empty() =~= cycle@);
                    }
                    break;
                },
                Some(p_ref) => {
                    let p = *p_ref;
                    if seen[p] {
                        proof {
                            assert(cycle@ + Seq::<usize>::empty() =~= cycle@);
                        }
                        break;
                    }
                    proof {
                        lemma_count_false_set(seen@, p as int);
                    }
                    let ghost seen_prev = seen@;
                    let ghost cycle_prev = cycle@;
                    seen.set(p, true);
                    cycle.push(p);
                    let next = perm[cur];
                    proof {
                        let rest = walk(perm@, subset@, seen@, next);
                        assert(walk(perm@, subset@, seen_prev, cur) == (seq![p] + rest.0, rest.1));
                        assert(cycle_prev + (seq![p] + rest.0) =~= cycle@ + rest.0);
                    }
                    cur = next;
                },
            }
        }
        proof {
            lemma_cycles_upto_len(perm@, subset@, j as nat);
        }
        let ghost before = cycles.deep_view();
        let ghost found = cycle@;
        assert(cycle.deep_view() =~= found);
        if cycle.len() > 1 {
            cycles.push(cycle);
            proof {
                assert(cycles.deep_view() =~= before.push(found));
            }
        }
        j = j + 1;
    }
    cycles
}


// ---------------------------------------------------------------------------
// The pieces that the moves link
// ---------------------------------------------------------------------------

/// Move `m` carries piece `i` onto a piece, and that link joins `u` and `v`.
pub open spec fn carries(matches: Seq<Seq<Option<usize>>>, m: int, i: int, u: usize, v: usize) -> bool {
    (i == u && matches[m][i] == Some(v)) || (i == v && matches[m][i] == Some(u))
}

/// Some move, before move `m` piece `i`, links `u` and `v`.
pub open spec fn linked_before(
    matches: Seq<Seq<Option<usize>>>,
    m: int,
    i: int,
    u: usize,
    v: usize,
) -> bool {
    exists|a: int, b: int|
        0 <= a < matches.len() && 0 <= b < matches[a].len() && (a < m || (a == m && b < i))
            && #[trigger] carries(matches, a, b, u, v)
}

/// Some move carries `u` onto `v` or `v` onto `u`.
pub open spec fn linked(matches: Seq<Seq<Option<usize>>>, u: usize, v: usize) -> bool {
    linked_before(matches, matches.len() as int, 0, u, v)
}

/// The pieces `0..n`, each with the pieces linked to it in ascending order.
pub open spec fn move_graph(n: nat, matches: Seq<Seq<Option<usize>>>) -> Seq<Seq<usize>> {
    Seq::new(n, |u: int| Seq::new(n, |v: int| v as usize).filter(|v: usize| linked(matches, u as usize, v)))
}

/// Each move's match table has a target for each of the `n` pieces (or
/// none), and every target is a piece.
pub open spec fn matches_valid(n: nat, matches: Seq<Seq<Option<usize>>>) -> bool {
    forall|m: int| 0 <= m < matches.len() ==> {
        &&& #[trigger] matches[m].len() == n
        &&& forall|i: int| 0 <= i < n ==> (#[trigger] matches[m][i] matches Some(t) ==> t < n)
    }
}

proof fn lemma_move_graph_contains(n: nat, matches: Seq<Seq<Option<usize>>>, u: int, v: usize)
    requires
        0 <= u < n,
    ensures
        move_graph(n, matches)[u].contains(v) <==> (v < n && linked(matches, u as usize, v)),
{
    let all = Seq::new(n, |w: int| w as usize);
    let p = |w: usize| linked(matches, u as usize, w);
    assert(move_graph(n, matches)[u] == all.filter(p));
    if all.filter(p).contains(v) {
        all.lemma_filter_contains_rev(p, v);
        let k = choose|k: int| 0 <= k < all.filter(p).len() && all.filter(p)[k] == v;
        all.lemma_filter_pred(p, k);
    }
    if v < n && linked(matches, u as usize, v) {
        assert(all[v as int] == v);
        all.lemma_filter_contains(p, v as int);
    }
}

fn row_contains(v: &Vec<usize>, x: usize) -> (r: bool)
    ensures
        r == v@.contains(x),
{
    let mut k: usize = 0;
    while k < v.len()
        invariant
            k <= v@.len(),
            forall|j: int| 0 <= j < k ==> v@[j] != x,
        decreases v.len() - k,
    {
        if v[k] == x {
            assert(v@[k as int] == x);
            return true;
        }
        k = k + 1;
    }
    false
}

/// The links between the pieces `0..n` that the moves make, each piece's
/// neighbours listed once.
pub fn link_pieces(n: usize, matches: &Vec<Vec<Option<usize>>>) -> (adj: Vec<Vec<usize>>)
    requires
        matches_valid(n as nat, matches.deep_view()),
    ensures
        adj@.len() == n,
        forall|u: int| 0 <= u < n ==> (#[trigger] adj@[u])@.no_duplicates(),
        forall|u: int, v: usize| #![trigger adj@[u]@.contains(v)] 0 <= u < n ==> (adj@[u]@.contains(v) <==> (v < n
            && linked(matches.deep_view(), u as usize, v))),
{
    let ghost mt = matches.deep_view();
    let mut adj: Vec<Vec<usize>> = Vec::new();
    while adj.len() < n
        invariant
            adj@.len() <= n,
            forall|u: int| 0 <= u < adj@.len() ==> (#[trigger] adj@[u])@.len() == 0,
        decreases n - adj.len(),
    {
        adj.push(Vec::new());
    }
    let mut m: usize = 0;
    while m < matches.len()
        invariant
            m <= matches@.len(),
            mt == matches.deep_view(),
            matches_valid(n as nat, mt),
            adj@.len() == n,
            forall|u: int| 0 <= u < n ==> (#[trigger] adj@[u])@.no_duplicates(),
            forall|u: int, v: usize| #![trigger adj@[u]@.contains(v)] 0 <= u < n ==> (adj@[u]@.contains(v) <==> (v < n
                && linked_before(mt, m as int, 0, u as usize, v))),
        decreases matches@.len() - m,
    {
        let row = &matches[m];
        assert(row.deep_view() == mt[m as int]);
        assert(mt[m as int].len() == n);
        let mut i: usize = 0;
        while i < n
            invariant
                i <= n,
                m < matches@.len(),
                row.deep_view() == mt[m as int],
                mt == matches.deep_view(),
                matches_valid(n as nat, mt),
                mt[m as int].len() == n,
                adj@.len() == n,
                forall|u: int| 0 <= u < n ==> (#[trigger] adj@[u])@.no_duplicates(),
                forall|u: int, v: usize| #![trigger adj@[u]@.contains(v)] 0 <= u < n ==> (adj@[u]@.contains(v) <==> (v
                    < n && linked_before(mt, m as int, i as int, u as usize, v))),
            decreases n - i,
        {
            assert(row@[i as int] == mt[m as int][i as int]);
            let target = row[i];
            let ghost adj0 = adj@;
            if let Some(idx) = target {
                assert(idx < n);
                if !row_contains(&adj[i], idx) {
                    adj[i].push(idx);
                }
                let ghost adj1 = adj@;
                proof {
                    assert forall|u: int, v: usize| 0 <= u < n implies #[trigger] adj1[u]@.contains(v) <==> (
                    adj0[u]@.contains(v) || (u == i && v == idx)) by {
                        if u == i {
                            crate::canon::lemma_push_contains(adj0[u]@, idx, v);
                        }
                    }
                    assert forall|u: int| 0 <= u < n implies (#[trigger] adj1[u])@.no_duplicates() by {
                        assert(adj0[u]@.no_duplicates());
                    }
                }
                if !row_contains(&adj[idx], i) {
                    adj[idx].push(i);
                }
                proof {
                    assert forall|u: int, v: usize| 0 <= u < n implies #[trigger] adj@[u]@.contains(v) <==> (
                    adj1[u]@.contains(v) || (u == idx && v == i)) by {
                        if u == idx {
                            crate::canon::lemma_push_contains(adj1[u]@, i, v);
                        }
                    }
                    assert forall|u: int| 0 <= u < n implies (#[trigger] adj@[u])@.no_duplicates() by {
                        assert(adj1[u]@.no_duplicates());
                    }
                    assert forall|u: int, v: usize| 0 <= u < n implies #[trigger] adj@[u]@.contains(v) <==> (
                    adj0[u]@.contains(v) || carries(mt, m as int, i as int, u as usize, v)) by {
                        assert(adj1[u]@.contains(v) <==> (adj0[u]@.contains(v) || (u == i && v == idx)));
                    }
                }
            } else {
                proof {
                    assert forall|u: int, v: usize| 0 <= u < n implies #[trigger] adj@[u]@.contains(v) <==> (
                    adj0[u]@.contains(v) || carries(mt, m as int, i as int, u as usize, v)) by {
                    }
                }
            }
            proof {
                assert forall|u: int| 0 <= u < n implies (#[trigger] adj@[u])@.no_duplicates() by {
                    if target is None {
                        assert(adj0[u]@.no_duplicates());
                    }
                }
                assert forall|u: int, v: usize| #![trigger adj@[u]@.contains(v)] 0 <= u < n implies (adj@[u]@.contains(v)
                    <==> (v < n && linked_before(mt, m as int, i + 1, u as usize, v))) by {
                    if linked_before(mt, m as int, i + 1, u as usize, v) {
                        let (a, b) = choose|a: int, b: int|
                            0 <= a < mt.len() && 0 <= b < mt[a].len() && (a < m || (a == m && b < i + 1))
                                && #[trigger] carries(mt, a, b, u as usize, v);
                        if a < m || b < i {
                            assert(linked_before(mt, m as int, i as int, u as usize, v));
                        }
                    }
                    if carries(mt, m as int, i as int, u as usize, v) {
                        assert(linked_before(mt, m as int, i + 1, u as usize, v));
                    }
                    if linked_before(mt, m as int, i as int, u as usize, v) {
                        let (a, b) = choose|a: int, b: int|
                            0 <= a < mt.len() && 0 <= b < mt[a].len() && (a < m || (a == m && b < i))
                                && #[trigger] carries(mt, a, b, u as usize, v);
                        assert(linked_before(mt, m as int, i + 1, u as usize, v));
                    }
                }
            }
            i = i + 1;
        }
        proof {
            assert forall|u: int, v: usize| #![trigger adj@[u]@.contains(v)] 0 <= u < n implies (adj@[u]@.contains(v) <==> (v
                < n && linked_before(mt, m + 1, 0, u as usize, v))) by {
                if linked_before(mt, m + 1, 0, u as usize, v) {
                    let (a, b) = choose|a: int, b: int|
                        0 <= a < mt.len() && 0 <= b < mt[a].len() && (a < m + 1 || (a == m + 1 && b < 0))
                            && #[trigger] carries(mt, a, b, u as usize, v);
                    assert(linked_before(mt, m as int, n as int, u as usize, v));
                }
                if linked_before(mt, m as int, n as int, u as usize, v) {
                    let (a, b) = choose|a: int, b: int|
                        0 <= a < mt.len() && 0 <= b < mt[a].len() && (a < m || (a == m && b < n))
                            && #[trigger] carries(mt, a, b, u as usize, v);
                    assert(linked_before(mt, m + 1, 0, u as usize, v));
                }
            }
        }
        m = m + 1;
    }
    adj
}


/// The orbits depend only on which pieces are linked, not on the order in
/// which the neighbour lists hold them.
pub proof fn lemma_orbits_same_links(a: Seq<Seq<usize>>, b: Seq<Seq<usize>>)
    requires
        a.len() == b.len(),
        forall|u: int, v: usize| #![trigger a[u].contains(v), b[u].contains(v)] 0 <= u < a.len() ==> (a[u].contains(v) <==> b[u].contains(v)),
    ensures
        orbits_of(a) == orbits_of(b),
{
    assert forall|p: Seq<usize>| #[trigger] is_path(a, p) == is_path(b, p) by {
        if is_path(a, p) {
            assert forall|k: int| 0 <= k < p.len() - 1 implies b[#[trigger] p[k] as int].contains(p[k + 1]) by {
                assert(a[p[k] as int].contains(p[k + 1]));
            }
        }
        if is_path(b, p) {
            assert forall|k: int| 0 <= k < p.len() - 1 implies a[#[trigger] p[k] as int].contains(p[k + 1]) by {
                assert(b[p[k] as int].contains(p[k + 1]));
            }
        }
    }
    assert forall|s: usize, t: usize| #[trigger] reaches(a, s, t) == reaches(b, s, t) by {
        if reaches(a, s, t) {
            let p = choose|p: Seq<usize>| #[trigger] is_path(a, p) && p[0] == s && p.last() == t;
            assert(is_path(b, p));
        }
        if reaches(b, s, t) {
            let p = choose|p: Seq<usize>| #[trigger] is_path(b, p) && p[0] == s && p.last() == t;
            assert(is_path(a, p));
        }
    }
    assert forall|r: usize| #[trigger] component(a, r) == component(b, r) by {
        assert(component(a, r) =~= component(b, r));
    }
    assert forall|r: usize| #[trigger] is_root(a, r) == is_root(b, r) by {
        if is_root(a, r) {
            assert forall|t: usize| reaches(b, r, t) implies r <= t by {
                assert(reaches(a, r, t));
            }
        }
        if is_root(b, r) {
            assert forall|t: usize| reaches(a, r, t) implies r <= t by {
                assert(reaches(b, r, t));
            }
        }
    }
    lemma_roots_same(a, b, a.len());
    assert(orbits_of(a) =~= orbits_of(b));
}

proof fn lemma_roots_same(a: Seq<Seq<usize>>, b: Seq<Seq<usize>>, k: nat)
    requires
        forall|r: usize| #[trigger] is_root(a, r) == is_root(b, r),
    ensures
        roots_upto(a, k) == roots_upto(b, k),
    decreases k,
{
    if k > 0 {
        lemma_roots_same(a, b, (k - 1) as nat);
    }
}

/// Where the forward move of axis `a` (move `2a` of the table) carries each
/// of the pieces `0..n`; a piece without a match stays put.
pub open spec fn forward_perm(n: nat, matches: Seq<Seq<Option<usize>>>, a: int) -> Seq<usize> {
    Seq::new(n, |i: int| match matches[2 * a][i] {
        Some(t) => t,
        None => i as usize,
    })
}

/// The cycles of each axis's forward move inside orbit `o`.
pub open spec fn axis_cycles(n: nat, matches: Seq<Seq<Option<usize>>>, n_axes: nat, o: Seq<usize>) -> Seq<Seq<Seq<usize>>> {
    Seq::new(n_axes, |a: int| cycles_of(forward_perm(n, matches, a), o))
}

/// Some cycle's length is not `expected`.
pub open spec fn mismatched(cycles: Seq<Seq<usize>>, expected: nat) -> bool {
    exists|c: int| 0 <= c < cycles.len() && #[trigger] cycles[c].len() != expected
}

/// The first axis, from `a` on, whose cycles are not all as long as its
/// order of symmetry.
pub open spec fn first_mismatch(ag: Seq<Seq<Seq<usize>>>, symmetries: Seq<u32>, a: nat) -> Option<nat>
    decreases ag.len() - a,
{
    if a >= ag.len() {
        None
    } else if mismatched(ag[a as int], symmetries[a as int] as nat) {
        Some(a)
    } else {
        first_mismatch(ag, symmetries, a + 1)
    }
}

/// The axes that move something.
pub open spec fn moving(ag: Seq<Seq<Seq<usize>>>) -> Seq<Seq<Seq<usize>>> {
    ag.filter(|c: Seq<Seq<usize>>| c.len() > 0)
}

/// What the analysis keeps: the orbits, a generator for each, and the
/// pieces set aside as degenerate.
pub type OrbitParts = (Seq<Seq<usize>>, Seq<Seq<Seq<Seq<usize>>>>, Seq<usize>);

/// The analysis of the first `k` orbits: each single piece is an orbit with
/// an empty generator; an orbit on which some axis has a cycle of the wrong
/// length stops the analysis with that (order, axis), or, in fudged mode, is
/// set aside as degenerate; any other orbit is kept with its cycles (in
/// fudged mode for every axis, otherwise for the axes that move it).
pub open spec fn analysis_upto(
    n: nat,
    matches: Seq<Seq<Option<usize>>>,
    symmetries: Seq<u32>,
    fudged: bool,
    orbits: Seq<Seq<usize>>,
    k: nat,
) -> Result<OrbitParts, (nat, nat)>
    decreases k,
{
    if k == 0 {
        Ok((Seq::empty(), Seq::empty(), Seq::empty()))
    } else {
        match analysis_upto(n, matches, symmetries, fudged, orbits, (k - 1) as nat) {
            Err(e) => Err(e),
            Ok(parts) => {
                let o = orbits[k - 1];
                if o.len() == 1 {
                    Ok((parts.0.push(o), parts.1.push(Seq::empty()), parts.2))
                } else {
                    let ag = axis_cycles(n, matches, symmetries.len(), o);
                    match first_mismatch(ag, symmetries, 0) {
                        Some(a) => if fudged {
                            Ok((parts.0, parts.1, parts.2 + o))
                        } else {
                            Err((symmetries[a as int] as nat, a))
                        },
                        None => if fudged {
                            Ok((parts.0.push(o), parts.1.push(ag), parts.2))
                        } else {
                            Ok((parts.0.push(o), parts.1.push(moving(ag)), parts.2))
                        },
                    }
                }
            },
        }
    }
}

proof fn lemma_analysis_error_stays(
    n: nat,
    matches: Seq<Seq<Option<usize>>>,
    symmetries: Seq<u32>,
    fudged: bool,
    orbits: Seq<Seq<usize>>,
    k: nat,
    j: nat,
)
    requires
        k <= j,
        analysis_upto(n, matches, symmetries, fudged, orbits, k) is Err,
    ensures
        analysis_upto(n, matches, symmetries, fudged, orbits, j) == analysis_upto(
            n,
            matches,
            symmetries,
            fudged,
            orbits,
            k,
        ),
    decreases j - k,
{
    if k < j {
        lemma_analysis_error_stays(n, matches, symmetries, fudged, orbits, k, (j - 1) as nat);
    }
}

/// The analysis of the pieces `0..n` under the moves of `matches`.
pub open spec fn orbit_analysis(
    n: nat,
    matches: Seq<Seq<Option<usize>>>,
    symmetries: Seq<u32>,
    fudged: bool,
) -> Result<OrbitParts, (nat, nat)> {
    let orbits = orbits_of(move_graph(n, matches));
    analysis_upto(n, matches, symmetries, fudged, orbits, orbits.len())
}


/// The orbits of a puzzle's pieces, a generator for each (its cycles for
/// each axis, written with positions inside the orbit), and the pieces set
/// aside as degenerate.
pub struct OrbitStructure {
    pub orbits: Vec<Vec<usize>>,
    pub generators: Vec<Vec<Vec<Vec<usize>>>>,
    pub degenerate_faces: Vec<usize>,
}

/// Why an orbit analysis failed.
pub enum OrbitError {
    /// Some cycle of an axis's move inside an orbit is not as long as the
    /// axis's order of symmetry.
    CycleLengthMismatch { expected: usize, axis: usize },
}

/// `Orbit Cycle Length mismatch: expected cycle length of N for axis A.`
pub open spec fn mismatch_text(expected: nat, axis: nat) -> Seq<char> {
    "Orbit Cycle Length mismatch: expected cycle length of "@ + dec(expected) + " for axis "@
        + dec(axis) + "."@
}

impl OrbitError {
    /// The message shown for the error.
    pub fn message(&self) -> (r: String)
        ensures
            match self {
                OrbitError::CycleLengthMismatch { expected, axis } => r@ == mismatch_text(
                    *expected as nat,
                    *axis as nat,
                ),
            },
    {
        match self {
            OrbitError::CycleLengthMismatch { expected, axis } => {
                let mut s = String::from_str("Orbit Cycle Length mismatch: expected cycle length of ");
                push_decimal(&mut s, *expected);
                s.append(" for axis ");
                push_decimal(&mut s, *axis);
                s.append(".");
                s
            },
        }
    }
}

fn has_mismatch(cycles: &Vec<Vec<usize>>, expected: usize) -> (r: bool)
    ensures
        r == mismatched(cycles.deep_view(), expected as nat),
{
    let mut c: usize = 0;
    while c < cycles.len()
        invariant
            c <= cycles@.len(),
            forall|j: int| 0 <= j < c ==> #[trigger] cycles.deep_view()[j].len() == expected,
        decreases cycles.len() - c,
    {
        assert(cycles.deep_view()[c as int] == cycles@[c as int]@);
        if cycles[c].len() != expected {
            return true;
        }
        c = c + 1;
    }
    false
}

fn first_mismatched_axis(ag: &Vec<Vec<Vec<usize>>>, symmetries: &Vec<u32>) -> (r: Option<usize>)
    requires
        ag@.len() == symmetries@.len(),
    ensures
        match r {
            Some(a) => a < ag@.len() && first_mismatch(ag.deep_view(), symmetries@, 0) == Some(a as nat),
            None => first_mismatch(ag.deep_view(), symmetries@, 0) is None,
        },
{
    let ghost d = ag.deep_view();
    let mut a: usize = 0;
    while a < ag.len()
        invariant
            a <= ag@.len(),
            d == ag.deep_view(),
            ag@.len() == symmetries@.len(),
            first_mismatch(d, symmetries@, 0) == first_mismatch(d, symmetries@, a as nat),
        decreases ag.len() - a,
    {
        let expected = symmetries[a] as usize;
        assert(d[a as int] == ag@[a as int].deep_view());
        if has_mismatch(&ag[a], expected) {
            return Some(a);
        }
        a = a + 1;
    }
    None
}

/// Where the forward move of each axis carries each piece.
fn forward_perms(n: usize, n_axes: usize, matches: &Vec<Vec<Option<usize>>>) -> (perms: Vec<Vec<usize>>)
    requires
        matches@.len() == 2 * n_axes,
        matches_valid(n as nat, matches.deep_view()),
    ensures
        perms@.len() == n_axes,
        forall|a: int| 0 <= a < n_axes ==> (#[trigger] perms@[a])@ == forward_perm(n as nat, matches.deep_view(), a),
{
    let ghost mt = matches.deep_view();
    let total = matches.len();
    let mut perms: Vec<Vec<usize>> = Vec::new();
    let mut a: usize = 0;
    while a < n_axes
        invariant
            a <= n_axes,
            total == matches@.len(),
            matches@.len() == 2 * n_axes,
            mt == matches.deep_view(),
            matches_valid(n as nat, mt),
            perms@.len() == a,
            forall|b: int| 0 <= b < a ==> (#[trigger] perms@[b])@ == forward_perm(n as nat, mt, b),
        decreases n_axes - a,
    {
        let row = &matches[2 * a];
        assert(row.deep_view() == mt[2 * a]);
        assert(mt[2 * a].len() == n);
        let mut perm: Vec<usize> = Vec::new();
        let mut i: usize = 0;
        while i < n
            invariant
                i <= n,
                a < n_axes,
                matches@.len() == 2 * n_axes,
                row.deep_view() == mt[2 * a],
                mt[2 * a].len() == n,
                perm@.len() == i,
                forall|j: int| 0 <= j < i ==> #[trigger] perm@[j] == forward_perm(n as nat, mt, a as int)[j],
            decreases n - i,
        {
            assert(row@[i as int] == mt[2 * a][i as int]);
            match row[i] {
                Some(t) => perm.push(t),
                None => perm.push(i),
            }
            i = i + 1;
        }
        assert(perm@ =~= forward_perm(n as nat, mt, a as int));
        let ghost before = perms@;
        perms.push(perm);
        proof {
            assert forall|b: int| 0 <= b < a + 1 implies (#[trigger] perms@[b])@ == forward_perm(n as nat, mt, b) by {
                if b < a {
                    assert(perms@[b] == before[b]);
                }
            }
        }
        a = a + 1;
    }
    perms
}

/// Analyses the pieces `0..n` of a puzzle with one axis per entry of
/// `symmetries` (its order of symmetry). Row `2a` of `matches` says where
/// axis `a`'s forward move carries each piece, row `2a + 1` where its
/// inverse move does. The orbits are the classes of pieces that the moves
/// connect; an axis whose cycles in an orbit are not all as long as its
/// order of symmetry is an error, unless `fudged`, where the orbit is set
/// aside as degenerate.
pub fn analyze_orbits(
    n: usize,
    symmetries: &Vec<u32>,
    matches: &Vec<Vec<Option<usize>>>,
    fudged: bool,
) -> (r: Result<OrbitStructure, OrbitError>)
    requires
        matches@.len() == 2 * symmetries@.len(),
        matches_valid(n as nat, matches.deep_view()),
    ensures
        match (r, orbit_analysis(n as nat, matches.deep_view(), symmetries@, fudged)) {
            (Ok(s), Ok(p)) => {
                &&& s.orbits.deep_view() == p.0
                &&& s.generators.deep_view() == p.1
                &&& s.degenerate_faces@ == p.2
            },
            (Err(OrbitError::CycleLengthMismatch { expected, axis }), Err(e)) => expected == e.0
                && axis == e.1,
            _ => false,
        },
{
    let ghost mt = matches.deep_view();
    let n_axes = symmetries.len();
    let adj = link_pieces(n, matches);
    proof {
        let g = adj.deep_view();
        let h = move_graph(n as nat, mt);
        assert forall|u: int, v: usize| #![trigger g[u].contains(v), h[u].contains(v)] 0 <= u < g.len() implies (g[u].contains(v) <==> h[u].contains(v)) by {
            assert(g[u] == adj@[u]@);
            lemma_move_graph_contains(n as nat, mt, u, v);
        }
        assert forall|u: int, k: int| 0 <= u < g.len() && 0 <= k < g[u].len() implies #[trigger] g[u][k] < g.len() && g[g[u][k] as int].contains(u as usize) by {
            assert(g[u] == adj@[u]@);
            let v = g[u][k];
            assert(adj@[u]@.contains(v));
            assert(linked(mt, u as usize, v));
            let (a, b) = choose|a: int, b: int|
                0 <= a < mt.len() && 0 <= b < mt[a].len() && (a < mt.len() || (a == mt.len() && b < 0))
                    && #[trigger] carries(mt, a, b, u as usize, v);
            assert(carries(mt, a, b, v, u as usize));
            assert(linked(mt, v, u as usize));
            assert(g[v as int] == adj@[v as int]@);
        }
        assert(symmetric_graph(g));
        lemma_orbits_same_links(g, h);
    }
    let orbits = connected_orbits(&adj);
    let perms = forward_perms(n, n_axes, matches);
    let ghost all = orbits.deep_view();
    let mut out_orbits: Vec<Vec<usize>> = Vec::new();
    let mut generators: Vec<Vec<Vec<Vec<usize>>>> = Vec::new();
    let mut degenerate_faces: Vec<usize> = Vec::new();
    assert(out_orbits.deep_view() =~= Seq::<Seq<usize>>::empty());
    assert(generators.deep_view() =~= Seq::<Seq<Seq<Seq<usize>>>>::empty());
    assert(degenerate_faces@ =~= Seq::<usize>::empty());
    let mut k: usize = 0;
    while k < orbits.len()
        invariant
            k <= orbits@.len(),
            all == orbits.deep_view(),
            all == orbits_of(move_graph(n as nat, mt)),
            mt == matches.deep_view(),
            n_axes == symmetries@.len(),
            perms@.len() == n_axes,
            forall|a: int| 0 <= a < n_axes ==> (#[trigger] perms@[a])@ == forward_perm(n as nat, mt, a),
            forall|j: int| 0 <= j < orbits@.len() ==> #[trigger] strictly_increasing(orbits@[j]@),
            forall|j: int, i: int| 0 <= j < orbits@.len() && 0 <= i < orbits@[j]@.len() ==> #[trigger] orbits@[j]@[i] < n,
            analysis_upto(n as nat, mt, symmetries@, fudged, all, k as nat) == Ok::<OrbitParts, (nat, nat)>((
                out_orbits.deep_view(),
                generators.deep_view(),
                degenerate_faces@,
            )),
        decreases orbits.len() - k,
    {
        let members = &orbits[k];
        assert(all[k as int] == members@);
        let ghost oo = out_orbits.deep_view();
        let ghost gg = generators.deep_view();
        let ghost dd = degenerate_faces@;
        if members.len() == 1 {
            let kept = copy_cycle(members);
            out_orbits.push(kept);
            let none: Vec<Vec<Vec<usize>>> = Vec::new();
            assert(none.deep_view() =~= Seq::<Seq<Seq<usize>>>::empty());
            generators.push(none);
            proof {
                assert(out_orbits.deep_view() =~= oo.push(members@));
                assert(generators.deep_view() =~= gg.push(Seq::empty()));
            }
        } else {
            let mut ag: Vec<Vec<Vec<usize>>> = Vec::new();
            let mut a: usize = 0;
            while a < n_axes
                invariant
                    a <= n_axes,
                    n_axes == symmetries@.len(),
                    perms@.len() == n_axes,
                    forall|b: int| 0 <= b < n_axes ==> (#[trigger] perms@[b])@ == forward_perm(n as nat, mt, b),
                    strictly_increasing(members@),
                    forall|i: int| 0 <= i < members@.len() ==> #[trigger] members@[i] < n,
                    ag.deep_view() == axis_cycles(n as nat, mt, n_axes as nat, members@).take(a as int),
                decreases n_axes - a,
            {
                assert(members@.no_duplicates()) by {
                    assert forall|x: int, y: int| 0 <= x < members@.len() && 0 <= y < members@.len() && x != y implies members@[x] != members@[y] by {
                        if x < y {
                            assert(members@[x] < members@[y]);
                        } else {
                            assert(members@[y] < members@[x]);
                        }
                    }
                }
                assert(perms@[a as int]@.len() == n);
                let cyc = perm_cycles(&perms[a], members);
                let ghost before = ag.deep_view();
                let ghost cv = cyc.deep_view();
                assert(axis_cycles(n as nat, mt, n_axes as nat, members@)[a as int] == cv);
                ag.push(cyc);
                proof {
                    assert(ag.deep_view() =~= before.push(cv));
                    assert(ag.deep_view() =~= axis_cycles(n as nat, mt, n_axes as nat, members@).take(a + 1));
                }
                a = a + 1;
            }
            let ghost agv = ag.deep_view();
            assert(agv =~= axis_cycles(n as nat, mt, n_axes as nat, members@));
            match first_mismatched_axis(&ag, symmetries) {
                Some(axis) => {
                    if !fudged {
                        proof {
                            let e = (symmetries@[axis as int] as nat, axis as nat);
                            assert(analysis_upto(n as nat, mt, symmetries@, fudged, all, (k + 1) as nat) == Err::<OrbitParts, (nat, nat)>(e));
                            lemma_analysis_error_stays(n as nat, mt, symmetries@, fudged, all, (k + 1) as nat, all.len());
                        }
                        return Err(OrbitError::CycleLengthMismatch { expected: symmetries[axis] as usize, axis });
                    }
                    let mut i: usize = 0;
                    while i < members.len()
                        invariant
                            i <= members@.len(),
                            degenerate_faces@ == dd + members@.take(i as int),
                        decreases members.len() - i,
                    {
                        degenerate_faces.push(members[i]);
                        assert(members@.take(i + 1) =~= members@.take(i as int).push(members@[i as int]));
                        i = i + 1;
                    }
                    assert(members@.take(members@.len() as int) =~= members@);
                },
                None => {
                    let kept = copy_cycle(members);
                    out_orbits.push(kept);
                    proof {
                        assert(out_orbits.deep_view() =~= oo.push(members@));
                    }
                    if fudged {
                        generators.push(ag);
                        proof {
                            assert(generators.deep_view() =~= gg.push(agv));
                        }
                    } else {
                        let mut kept_axes: Vec<Vec<Vec<usize>>> = Vec::new();
                        let mut b: usize = 0;
                        while b < ag.len()
                            invariant
                                b <= ag@.len(),
                                agv == ag.deep_view(),
                                kept_axes.deep_view() == moving(agv.take(b as int)),
                            decreases ag.len() - b,
                        {
                            assert(agv.take(b + 1) =~= agv.take(b as int).push(agv[b as int]));
                            proof {
                                agv.take(b as int).lemma_filter_push(agv[b as int], |c: Seq<Seq<usize>>| c.len() > 0);
                            }
                            assert(agv[b as int] == ag@[b as int].deep_view());
                            if ag[b].len() > 0 {
                                let c = copy_operation(&ag[b]);
                                let ghost kb = kept_axes.deep_view();
                                kept_axes.push(c);
                                assert(kept_axes.deep_view() =~= kb.push(agv[b as int]));
                            }
                            b = b + 1;
                        }
                        assert(agv.take(agv.len() as int) =~= agv);
                        generators.push(kept_axes);
                        proof {
                            assert(generators.deep_view() =~= gg.push(moving(agv)));
                        }
                    }
                },
            }
        }
        k = k + 1;
    }
    Ok(OrbitStructure { orbits: out_orbits, generators, degenerate_faces })
}


/// The orbit of piece `f` among the first `k` orbits (the last that holds it).
pub open spec fn orbit_index_upto(orbits: Seq<Seq<usize>>, k: nat, f: usize) -> Option<usize>
    decreases k,
{
    if k == 0 {
        None
    } else if orbits[k - 1].contains(f) {
        Some((k - 1) as usize)
    } else {
        orbit_index_upto(orbits, (k - 1) as nat, f)
    }
}

/// For each of the pieces `0..n_faces`, the orbit it belongs to.
pub fn face_orbit_indices(n_faces: usize, orbits: &Vec<Vec<usize>>) -> (r: Vec<Option<usize>>)
    requires
        forall|k: int, j: int| 0 <= k < orbits@.len() && 0 <= j < orbits@[k]@.len() ==> #[trigger] orbits@[k]@[j] < n_faces,
    ensures
        r@.len() == n_faces,
        forall|f: int| 0 <= f < n_faces ==> #[trigger] r@[f] == orbit_index_upto(orbits.deep_view(), orbits@.len() as nat, f as usize),
{
    let ghost ov = orbits.deep_view();
    let mut r: Vec<Option<usize>> = Vec::new();
    while r.len() < n_faces
        invariant
            r@.len() <= n_faces,
            forall|f: int| 0 <= f < r@.len() ==> #[trigger] r@[f] is None,
        decreases n_faces - r.len(),
    {
        r.push(None);
    }
    let mut oi: usize = 0;
    while oi < orbits.len()
        invariant
            oi <= orbits@.len(),
            ov == orbits.deep_view(),
            r@.len() == n_faces,
            forall|k: int, j: int| 0 <= k < orbits@.len() && 0 <= j < orbits@[k]@.len() ==> #[trigger] orbits@[k]@[j] < n_faces,
            forall|f: int| 0 <= f < n_faces ==> #[trigger] r@[f] == orbit_index_upto(ov, oi as nat, f as usize),
        decreases orbits.len() - oi,
    {
        let members = &orbits[oi];
        assert(ov[oi as int] == members@);
        let ghost r0 = r@;
        let mut j: usize = 0;
        while j < members.len()
            invariant
                j <= members@.len(),
                oi < orbits@.len(),
                members@ == orbits@[oi as int]@,
                r@.len() == n_faces,
                forall|j2: int| 0 <= j2 < members@.len() ==> #[trigger] members@[j2] < n_faces,
                forall|f: int| 0 <= f < n_faces ==> #[trigger] r@[f] == if members@.take(j as int).contains(f as usize) {
                    Some(oi)
                } else {
                    r0[f]
                },
            decreases members.len() - j,
        {
            let f = members[j];
            assert(members@[j as int] < n_faces);
            r.set(f, Some(oi));
            proof {
                assert forall|g: int| 0 <= g < n_faces implies #[trigger] r@[g] == if members@.take(j + 1).contains(g as usize) {
                    Some(oi)
                } else {
                    r0[g]
                } by {
                    assert(members@.take(j + 1) =~= members@.take(j as int).push(f));
                    crate::canon::lemma_push_contains(members@.take(j as int), f, g as usize);
                }
            }
            j = j + 1;
        }
        assert(members@.take(members@.len() as int) =~= members@);
        oi = oi + 1;
    }
    r
}


/// With disjoint orbits, a piece's orbit index names the orbit that holds
/// it, and a piece in no orbit has none.
pub proof fn lemma_orbit_index_exact(orbits: Seq<Seq<usize>>, k: nat, f: usize)
    requires
        k <= orbits.len(),
        orbits.len() <= usize::MAX,
        forall|a: int, b: int| 0 <= a < b < orbits.len() && #[trigger] orbits[a].contains(f) ==> !#[trigger] orbits[b].contains(f),
    ensures
        forall|i: int| 0 <= i < k ==> (orbit_index_upto(orbits, k, f) == Some(i as usize) <==> #[trigger] orbits[i].contains(f)),
        orbit_index_upto(orbits, k, f) is None <==> forall|i: int| 0 <= i < k ==> !#[trigger] orbits[i].contains(f),
        orbit_index_upto(orbits, k, f) matches Some(i) ==> i < k,
    decreases k,
{
    if k > 0 {
        lemma_orbit_index_exact(orbits, (k - 1) as nat, f);
        if orbits[k - 1].contains(f) {
            assert forall|i: int| 0 <= i < k - 1 implies !#[trigger] orbits[i].contains(f) by {
                if orbits[i].contains(f) {
                    assert(!orbits[k - 1].contains(f));
                }
            }
        }
    }
}

// ---------------------------------------------------------------------------
// Cycle lengths decide which orbits are kept
// ---------------------------------------------------------------------------

/// Some cycle of axis `a`'s forward move inside orbit `o` has a length other
/// than the axis's order of symmetry.
pub open spec fn has_odd_cycle(
    n: nat,
    matches: Seq<Seq<Option<usize>>>,
    symmetries: Seq<u32>,
    o: Seq<usize>,
    a: int,
) -> bool {
    exists|c: int|
        0 <= c < cycles_of(forward_perm(n, matches, a), o).len()
            && #[trigger] cycles_of(forward_perm(n, matches, a), o)[c].len() != symmetries[a] as nat
}

proof fn lemma_first_mismatch_found(ag: Seq<Seq<Seq<usize>>>, symmetries: Seq<u32>, a: nat)
    requires
        ag.len() == symmetries.len(),
    ensures
        first_mismatch(ag, symmetries, a) matches Some(b) ==> a <= b < ag.len() && exists|c: int|
            0 <= c < ag[b as int].len() && #[trigger] ag[b as int][c].len() != symmetries[b as int] as nat,
        first_mismatch(ag, symmetries, a) is None ==> forall|b: int, c: int|
            a <= b < ag.len() && 0 <= c < ag[b].len() ==> #[trigger] ag[b][c].len() == symmetries[b] as nat,
    decreases ag.len() - a,
{
    if a < ag.len() {
        lemma_first_mismatch_found(ag, symmetries, a + 1);
        if !mismatched(ag[a as int], symmetries[a as int] as nat) {
            assert forall|b: int, c: int| a <= b < ag.len() && 0 <= c < ag[b].len() && first_mismatch(ag, symmetries, a) is None
                implies #[trigger] ag[b][c].len() == symmetries[b] as nat by {
                if b == a {
                    if ag[b][c].len() != symmetries[b] as nat {
                        assert(mismatched(ag[a as int], symmetries[a as int] as nat));
                    }
                }
            }
        }
    }
}

/// An orbit with a cycle of the wrong length has a first mismatching axis.
proof fn lemma_first_mismatch_exists(ag: Seq<Seq<Seq<usize>>>, symmetries: Seq<u32>, a: int, c: int)
    requires
        ag.len() == symmetries.len(),
        0 <= a < ag.len(),
        0 <= c < ag[a].len(),
        ag[a][c].len() != symmetries[a] as nat,
    ensures
        first_mismatch(ag, symmetries, 0) is Some,
{
    lemma_first_mismatch_found(ag, symmetries, 0);
}

proof fn lemma_axis_cycles_at(n: nat, matches: Seq<Seq<Option<usize>>>, symmetries: Seq<u32>, o: Seq<usize>, a: int)
    requires
        0 <= a < symmetries.len(),
    ensures
        axis_cycles(n, matches, symmetries.len(), o).len() == symmetries.len(),
        axis_cycles(n, matches, symmetries.len(), o)[a] == cycles_of(forward_perm(n, matches, a), o),
{
}

/// The analysis of the first `k` orbits keeps only orbits whose cycles are
/// all as long as their axis's order, fails only over an orbit with a cycle
/// of another length, and fails (or, fudged, sets the orbit aside) over
/// every such orbit.
proof fn lemma_analysis_upto_cycles(
    n: nat,
    matches: Seq<Seq<Option<usize>>>,
    symmetries: Seq<u32>,
    fudged: bool,
    orbits: Seq<Seq<usize>>,
    k: nat,
)
    requires
        k <= orbits.len(),
    ensures
        analysis_upto(n, matches, symmetries, fudged, orbits, k) matches Ok(p) ==> forall|x: int, a: int|
            0 <= x < p.0.len() && p.0[x].len() != 1 && 0 <= a < symmetries.len()
                ==> !#[trigger] has_odd_cycle(n, matches, symmetries, p.0[x], a),
        analysis_upto(n, matches, symmetries, fudged, orbits, k) matches Err(e) ==> {
            &&& !fudged
            &&& e.1 < symmetries.len()
            &&& e.0 == symmetries[e.1 as int] as nat
            &&& exists|j: int| 0 <= j < k && orbits[j].len() != 1 && #[trigger] has_odd_cycle(n, matches, symmetries, orbits[j], e.1 as int)
        },
        fudged ==> analysis_upto(n, matches, symmetries, fudged, orbits, k) is Ok,
    decreases k,
{
    if k > 0 {
        let k1 = (k - 1) as nat;
        lemma_analysis_upto_cycles(n, matches, symmetries, fudged, orbits, k1);
        let o = orbits[k1 as int];
        let ag = axis_cycles(n, matches, symmetries.len(), o);
        assert(ag.len() == symmetries.len());
        lemma_first_mismatch_found(ag, symmetries, 0);
        match analysis_upto(n, matches, symmetries, fudged, orbits, k1) {
            Err(e) => {
                let j = choose|j: int| 0 <= j < k1 && orbits[j].len() != 1 && #[trigger] has_odd_cycle(n, matches, symmetries, orbits[j], e.1 as int);
                assert(0 <= j < k && orbits[j].len() != 1 && has_odd_cycle(n, matches, symmetries, orbits[j], e.1 as int));
            },
            Ok(parts) => {
                if o.len() != 1 {
                    match first_mismatch(ag, symmetries, 0) {
                        Some(b) => {
                            if !fudged {
                                lemma_axis_cycles_at(n, matches, symmetries, o, b as int);
                                let c = choose|c: int| 0 <= c < ag[b as int].len() && #[trigger] ag[b as int][c].len() != symmetries[b as int] as nat;
                                assert(cycles_of(forward_perm(n, matches, b as int), o)[c].len() != symmetries[b as int] as nat);
                                assert(has_odd_cycle(n, matches, symmetries, orbits[k1 as int], b as int));
                            }
                        },
                        None => {
                            let p = analysis_upto(n, matches, symmetries, fudged, orbits, k)->Ok_0;
                            assert forall|x: int, a: int|
                                0 <= x < p.0.len() && p.0[x].len() != 1 && 0 <= a < symmetries.len()
                                implies !#[trigger] has_odd_cycle(n, matches, symmetries, p.0[x], a) by {
                                if x == p.0.len() - 1 {
                                    assert(p.0[x] == o);
                                    lemma_axis_cycles_at(n, matches, symmetries, o, a);
                                    if has_odd_cycle(n, matches, symmetries, o, a) {
                                        let c = choose|c: int|
                                            0 <= c < cycles_of(forward_perm(n, matches, a), o).len()
                                                && #[trigger] cycles_of(forward_perm(n, matches, a), o)[c].len() != symmetries[a] as nat;
                                        assert(ag[a][c].len() == symmetries[a] as nat);
                                    }
                                } else {
                                    assert(p.0[x] == parts.0[x]);
                                }
                            }
                        },
                    }
                } else {
                    let p = analysis_upto(n, matches, symmetries, fudged, orbits, k)->Ok_0;
                    assert forall|x: int, a: int|
                        0 <= x < p.0.len() && p.0[x].len() != 1 && 0 <= a < symmetries.len()
                        implies !#[trigger] has_odd_cycle(n, matches, symmetries, p.0[x], a) by {
                        if x < parts.0.len() {
                            assert(p.0[x] == parts.0[x]);
                        }
                    }
                }
            },
        }
    }
}

/// An orbit with a cycle of the wrong length makes the analysis of every
/// longer prefix fail, or, fudged, puts its pieces among those set aside.
proof fn lemma_analysis_upto_rejects(
    n: nat,
    matches: Seq<Seq<Option<usize>>>,
    symmetries: Seq<u32>,
    fudged: bool,
    orbits: Seq<Seq<usize>>,
    k: nat,
    j: int,
    a: int,
)
    requires
        0 <= j < k <= orbits.len(),
        orbits[j].len() != 1,
        0 <= a < symmetries.len(),
        has_odd_cycle(n, matches, symmetries, orbits[j], a),
    ensures
        !fudged ==> analysis_upto(n, matches, symmetries, fudged, orbits, k) is Err,
        fudged ==> (analysis_upto(n, matches, symmetries, fudged, orbits, k) matches Ok(p) && forall|x: usize|
            #[trigger] orbits[j].contains(x) ==> p.2.contains(x)),
    decreases k,
{
    let k1 = (k - 1) as nat;
    lemma_analysis_upto_cycles(n, matches, symmetries, fudged, orbits, k1);
    lemma_analysis_upto_cycles(n, matches, symmetries, fudged, orbits, k);
    let o = orbits[k1 as int];
    let ag = axis_cycles(n, matches, symmetries.len(), o);
    if k1 == j {
        match analysis_upto(n, matches, symmetries, fudged, orbits, k1) {
            Err(e) => {},
            Ok(parts) => {
                lemma_axis_cycles_at(n, matches, symmetries, o, a);
                let c = choose|c: int|
                    0 <= c < cycles_of(forward_perm(n, matches, a), o).len()
                        && #[trigger] cycles_of(forward_perm(n, matches, a), o)[c].len() != symmetries[a] as nat;
                lemma_first_mismatch_exists(ag, symmetries, a, c);
                if fudged {
                    let p = analysis_upto(n, matches, symmetries, fudged, orbits, k)->Ok_0;
                    assert(p.2 == parts.2 + o);
                    assert forall|x: usize| #[trigger] orbits[j].contains(x) implies p.2.contains(x) by {
                        let y = choose|y: int| 0 <= y < o.len() && o[y] == x;
                        assert(p.2[parts.2.len() + y] == x);
                    }
                }
            },
        }
    } else {
        lemma_analysis_upto_rejects(n, matches, symmetries, fudged, orbits, k1, j, a);
        if !fudged {
            lemma_analysis_error_stays(n, matches, symmetries, fudged, orbits, k1, k);
        } else {
            let parts = analysis_upto(n, matches, symmetries, fudged, orbits, k1)->Ok_0;
            let p = analysis_upto(n, matches, symmetries, fudged, orbits, k)->Ok_0;
            assert(p.2 == parts.2 || p.2 == parts.2 + o);
            assert forall|x: usize| #[trigger] orbits[j].contains(x) implies p.2.contains(x) by {
                assert(parts.2.contains(x));
                let y = choose|y: int| 0 <= y < parts.2.len() && parts.2[y] == x;
                if p.2 != parts.2 {
                    assert(p.2[y] == x);
                }
            }
        }
    }
}

/// An orbit analysis keeps an orbit of more than one piece only when every
/// cycle of every axis's forward move inside it is exactly as long as that
/// axis's order of symmetry. A cycle of any other length, shorter or
/// longer, inside some orbit makes the analysis fail, naming an axis and its
/// order for which such a cycle exists, or, in fudged mode, sets that
/// orbit's pieces aside; the fudged analysis never fails. (`analyze_orbits`
/// returns exactly this analysis.)
pub proof fn lemma_orbit_cycle_lengths(
    n: nat,
    matches: Seq<Seq<Option<usize>>>,
    symmetries: Seq<u32>,
    fudged: bool,
)
    ensures
        orbit_analysis(n, matches, symmetries, fudged) matches Ok(p) ==> forall|x: int, a: int, c: int|
            0 <= x < p.0.len() && p.0[x].len() != 1 && 0 <= a < symmetries.len()
                && 0 <= c < cycles_of(forward_perm(n, matches, a), p.0[x]).len()
                ==> #[trigger] cycles_of(forward_perm(n, matches, a), p.0[x])[c].len() == symmetries[a] as nat,
        orbit_analysis(n, matches, symmetries, fudged) matches Err(e) ==> {
            &&& !fudged
            &&& e.1 < symmetries.len()
            &&& e.0 == symmetries[e.1 as int] as nat
            &&& exists|j: int, c: int|
                0 <= j < orbits_of(move_graph(n, matches)).len()
                    && orbits_of(move_graph(n, matches))[j].len() != 1
                    && 0 <= c < cycles_of(forward_perm(n, matches, e.1 as int), orbits_of(move_graph(n, matches))[j]).len()
                    && #[trigger] cycles_of(forward_perm(n, matches, e.1 as int), orbits_of(move_graph(n, matches))[j])[c].len()
                        != symmetries[e.1 as int] as nat
        },
        forall|j: int, a: int, c: int|
            0 <= j < orbits_of(move_graph(n, matches)).len()
                && orbits_of(move_graph(n, matches))[j].len() != 1
                && 0 <= a < symmetries.len()
                && 0 <= c < cycles_of(forward_perm(n, matches, a), orbits_of(move_graph(n, matches))[j]).len()
                && #[trigger] cycles_of(forward_perm(n, matches, a), orbits_of(move_graph(n, matches))[j])[c].len()
                    != symmetries[a] as nat
                ==> {
                &&& !fudged ==> orbit_analysis(n, matches, symmetries, fudged) is Err
                &&& fudged ==> (orbit_analysis(n, matches, symmetries, fudged) matches Ok(p) && forall|v: usize|
                    orbits_of(move_graph(n, matches))[j].contains(v) ==> #[trigger] p.2.contains(v))
            },
        fudged ==> orbit_analysis(n, matches, symmetries, fudged) is Ok,
{
    let orbits = orbits_of(move_graph(n, matches));
    let k = orbits.len();
    lemma_analysis_upto_cycles(n, matches, symmetries, fudged, orbits, k);
    match orbit_analysis(n, matches, symmetries, fudged) {
        Ok(p) => {
            assert forall|x: int, a: int, c: int|
                0 <= x < p.0.len() && p.0[x].len() != 1 && 0 <= a < symmetries.len()
                    && 0 <= c < cycles_of(forward_perm(n, matches, a), p.0[x]).len()
                implies #[trigger] cycles_of(forward_perm(n, matches, a), p.0[x])[c].len() == symmetries[a] as nat by {
                assert(!has_odd_cycle(n, matches, symmetries, p.0[x], a));
            }
        },
        Err(e) => {
            let j = choose|j: int| 0 <= j < k && orbits[j].len() != 1 && #[trigger] has_odd_cycle(n, matches, symmetries, orbits[j], e.1 as int);
            let c = choose|c: int|
                0 <= c < cycles_of(forward_perm(n, matches, e.1 as int), orbits[j]).len()
                    && #[trigger] cycles_of(forward_perm(n, matches, e.1 as int), orbits[j])[c].len() != symmetries[e.1 as int] as nat;
            assert(cycles_of(forward_perm(n, matches, e.1 as int), orbits[j])[c].len() != symmetries[e.1 as int] as nat);
        },
    }
    assert forall|j: int, a: int, c: int|
        0 <= j < orbits.len() && orbits[j].len() != 1 && 0 <= a < symmetries.len()
            && 0 <= c < cycles_of(forward_perm(n, matches, a), orbits[j]).len()
            && #[trigger] cycles_of(forward_perm(n, matches, a), orbits[j])[c].len() != symmetries[a] as nat
        implies {
            &&& !fudged ==> orbit_analysis(n, matches, symmetries, fudged) is Err
            &&& fudged ==> (orbit_analysis(n, matches, symmetries, fudged) matches Ok(p) && forall|v: usize|
                orbits[j].contains(v) ==> #[trigger] p.2.contains(v))
        } by {
        assert(has_odd_cycle(n, matches, symmetries, orbits[j], a));
        lemma_analysis_upto_rejects(n, matches, symmetries, fudged, orbits, k, j, a);
    }
}

} // verus!
