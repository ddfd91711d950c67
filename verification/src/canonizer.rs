//! Orbit canonization with dreadnaut.
//!
//! An orbit is canonized by constructing a graph containing a vertex for each
//! piece, and a midpoint vertex representing the path of the piece on each
//! rotation axis. Edges connect to the midpoint based on which direction the
//! cycle moves. Both directions are considered to ensure symmetry, so in
//! operations containing cycles, each gets two midpoints - one for each
//! direction.
//!
//! Two-cycles are represented by one midpoint with both edges pointing inward
//! since their inverse operations are indistinguishable.
//!
//! Isomorphic operations are filtered out before canonization.
//!
//! Each operation is assigned a label and is connected to each of its
//! midpoints to rigidly enforce cycle to axis groupings.

use vstd::prelude::*;
use vstd::string::StringExecFns;
use std::collections::HashMap;
use crate::canon::{
    spaced_numbers, renumbered, labels_of, flatten_gen, renumber_generator_for_dreadnaut,
    lemma_vertex_in_flatten, lemma_first_occurrences,
};
use crate::sorting::{sort_usizes, sorted, usize_leq, lemma_sorted_is};
use vstd::relations::sorted_by;
use crate::generator::{
    with_inverses, inverted, without_repeats, add_inverse_operations,
    remove_isomorphic_operations, copy_generator,
};
use crate::text::{
    dec, push_char, push_decimal, chars_of, find_pattern, split_ranges, trim_bounds, word_ranges,
    parse_usize, parse_usize_spec, trim, words, split_seq, has_match, is_first_match, pieces,
    ranges_within,
};

verus! {

/// Midpoint vertices that one cycle contributes.
pub open spec fn cycle_mid_count(c: Seq<usize>) -> nat {
    if c.len() == 2 {
        1
    } else if c.len() >= 3 {
        c.len()
    } else {
        0
    }
}

pub open spec fn op_mid_count(op: Seq<Seq<usize>>) -> nat
    decreases op.len(),
{
    if op.len() == 0 {
        0
    } else {
        op_mid_count(op.drop_last()) + cycle_mid_count(op.last())
    }
}

pub open spec fn gen_mid_count(g: Seq<Seq<Seq<usize>>>) -> nat
    decreases g.len(),
{
    if g.len() == 0 {
        0
    } else {
        gen_mid_count(g.drop_last()) + op_mid_count(g.last())
    }
}

/// The first `n` steps around a cycle of three or more: each element points
/// to a fresh midpoint, which points to the next element.
pub open spec fn ring_edges(c: Seq<usize>, base: nat, n: nat) -> Seq<(usize, usize)>
    decreases n,
{
    if n == 0 {
        Seq::empty()
    } else {
        let mid = (base + n - 1) as usize;
        ring_edges(c, base, (n - 1) as nat) + seq![
            (c[n - 1], mid),
            (mid, c[(n as int) % (c.len() as int)]),
        ]
    }
}

/// The edges of one cycle whose midpoints are numbered from `base`: a swap
/// points both elements at a single midpoint.
pub open spec fn cycle_edges(c: Seq<usize>, base: nat) -> Seq<(usize, usize)> {
    if c.len() == 2 {
        seq![(c[0], base as usize), (c[1], base as usize)]
    } else if c.len() >= 3 {
        ring_edges(c, base, c.len())
    } else {
        Seq::empty()
    }
}

pub open spec fn op_edges(op: Seq<Seq<usize>>, base: nat) -> Seq<(usize, usize)>
    decreases op.len(),
{
    if op.len() == 0 {
        Seq::empty()
    } else {
        op_edges(op.drop_last(), base) + cycle_edges(
            op.last(),
            base + op_mid_count(op.drop_last()),
        )
    }
}

pub open spec fn gen_edges(g: Seq<Seq<Seq<usize>>>, base: nat) -> Seq<(usize, usize)>
    decreases g.len(),
{
    if g.len() == 0 {
        Seq::empty()
    } else {
        gen_edges(g.drop_last(), base) + op_edges(g.last(), base + gen_mid_count(g.drop_last()))
    }
}

/// Edges from the vertex of each of the first `k` operations to the
/// midpoints of its cycles.
pub open spec fn operation_vertex_edges(g: Seq<Seq<Seq<usize>>>, nv: nat, k: nat) -> Seq<
    (usize, usize),
>
    decreases k,
{
    if k == 0 {
        Seq::empty()
    } else {
        let op_vertex = (nv + gen_mid_count(g) + k - 1) as usize;
        let first_mid = nv + gen_mid_count(g.take(k - 1));
        operation_vertex_edges(g, nv, (k - 1) as nat) + Seq::new(
            op_mid_count(g[k - 1]),
            |j: int| (op_vertex, (first_mid + j) as usize),
        )
    }
}

/// All edges of the canonization input graph: piece vertices `0..nv`, then
/// the midpoints, then one vertex per operation.
pub open spec fn input_graph_edges(g: Seq<Seq<Seq<usize>>>, nv: nat) -> Seq<(usize, usize)> {
    gen_edges(g, nv) + operation_vertex_edges(g, nv, g.len())
}

pub open spec fn input_vertex_count(g: Seq<Seq<Seq<usize>>>, nv: nat) -> nat {
    nv + gen_mid_count(g) + g.len()
}

/// The targets of the edges that leave `v`, in order.
pub open spec fn out_edges(e: Seq<(usize, usize)>, v: usize) -> Seq<usize>
    decreases e.len(),
{
    if e.len() == 0 {
        Seq::empty()
    } else if e.last().0 == v {
        out_edges(e.drop_last(), v).push(e.last().1)
    } else {
        out_edges(e.drop_last(), v)
    }
}

/// Every element of every cycle of two or more elements is below `nv`.
pub open spec fn elements_below(g: Seq<Seq<Seq<usize>>>, nv: nat) -> bool {
    forall|i: int, j: int, k: int|
        0 <= i < g.len() && 0 <= j < g[i].len() && 2 <= g[i][j].len() && 0 <= k < g[i][j].len()
            ==> #[trigger] g[i][j][k] < nv
}

pub open spec fn adjacency_of(adj: Seq<Vec<usize>>, e: Seq<(usize, usize)>, n: nat) -> bool {
    &&& adj.len() == n
    &&& forall|w: int| 0 <= w < n ==> (#[trigger] adj[w])@ == out_edges(e, w as usize)
}

proof fn lemma_op_edges_take(op: Seq<Seq<usize>>, base: nat, c: int)
    requires
        0 <= c < op.len(),
    ensures
        op_mid_count(op.take(c + 1)) == op_mid_count(op.take(c)) + cycle_mid_count(op[c]),
        op_edges(op.take(c + 1), base) == op_edges(op.take(c), base) + cycle_edges(
            op[c],
            base + op_mid_count(op.take(c)),
        ),
{
    assert(op.take(c + 1).drop_last() =~= op.take(c));
}

proof fn lemma_gen_edges_take(g: Seq<Seq<Seq<usize>>>, base: nat, k: int)
    requires
        0 <= k < g.len(),
    ensures
        gen_mid_count(g.take(k + 1)) == gen_mid_count(g.take(k)) + op_mid_count(g[k]),
        gen_edges(g.take(k + 1), base) == gen_edges(g.take(k), base) + op_edges(
            g[k],
            base + gen_mid_count(g.take(k)),
        ),
{
    assert(g.take(k + 1).drop_last() =~= g.take(k));
}

proof fn lemma_out_edges_push(e: Seq<(usize, usize)>, x: (usize, usize), v: usize)
    ensures
        out_edges(e.push(x), v) == if x.0 == v {
            out_edges(e, v).push(x.1)
        } else {
            out_edges(e, v)
        },
{
    assert(e.push(x).drop_last() =~= e);
}

proof fn lemma_gen_mid_count_mono(g: Seq<Seq<Seq<usize>>>, k: int)
    requires
        0 <= k <= g.len(),
    ensures
        gen_mid_count(g.take(k)) <= gen_mid_count(g),
    decreases g.len() - k,
{
    if k < g.len() {
        lemma_gen_edges_take(g, 0, k);
        lemma_gen_mid_count_mono(g, k + 1);
    } else {
        assert(g.take(k) =~= g);
    }
}

/// Appends the edge `from -> to`.
fn add_edge(adj: &mut Vec<Vec<usize>>, from: usize, to: usize)
    requires
        from < old(adj)@.len(),
    ensures
        final(adj)@.len() == old(adj)@.len(),
        final(adj)@[from as int]@ == old(adj)@[from as int]@.push(to),
        forall|w: int| 0 <= w < old(adj)@.len() && w != from ==> final(adj)@[w] == old(adj)@[w],
{
    adj[from].push(to);
}

/// Adds the edges of one cycle whose midpoints start at `base`.
fn add_cycle_edges(adj: &mut Vec<Vec<usize>>, c: &Vec<usize>, base: usize, Ghost(e): Ghost<
    Seq<(usize, usize)>,
>)
    requires
        adjacency_of(old(adj)@, e, old(adj)@.len() as nat),
        base + cycle_mid_count(c@) <= old(adj)@.len(),
        c@.len() >= 2 ==> forall|k: int| 0 <= k < c@.len() ==> #[trigger] c@[k] < old(
            adj,
        )@.len(),
    ensures
        adjacency_of(final(adj)@, e + cycle_edges(c@, base as nat), old(adj)@.len() as nat),
{
    let n_adj = adj.len();
    let ghost n = n_adj as nat;
    let len = c.len();
    if len == 2 {
        let ghost e1 = e.push((c@[0], base));
        let ghost a0 = adj@;
        let x0 = c[0];
        add_edge(adj, x0, base);
        proof {
            assert forall|w: int| 0 <= w < n implies (#[trigger] adj@[w])@ == out_edges(
                e1,
                w as usize,
            ) by {
                lemma_out_edges_push(e, (x0, base), w as usize);
                if w != x0 {
                    assert(adj@[w] == a0[w]);
                }
            }
        }
        let ghost e2 = e1.push((c@[1], base));
        let ghost a1 = adj@;
        let x1 = c[1];
        add_edge(adj, x1, base);
        proof {
            assert forall|w: int| 0 <= w < n implies (#[trigger] adj@[w])@ == out_edges(
                e2,
                w as usize,
            ) by {
                lemma_out_edges_push(e1, (x1, base), w as usize);
                if w != x1 {
                    assert(adj@[w] == a1[w]);
                }
            }
            assert(e2 =~= e + cycle_edges(c@, base as nat));
        }
    } else if len >= 3 {
        let mut i: usize = 0;
        assert(e + ring_edges(c@, base as nat, 0) =~= e);
        while i < len
            invariant
                i <= len,
                len == c@.len(),
                len >= 3,
                base + len <= n,
                n == adj@.len(),
                n == n_adj as nat,
                forall|k: int| 0 <= k < c@.len() ==> #[trigger] c@[k] < n,
                adjacency_of(adj@, e + ring_edges(c@, base as nat, i as nat), n),
            decreases len - i,
        {
            let mid = base + i;
            let ghost e0 = e + ring_edges(c@, base as nat, i as nat);
            let x = c[i];
            let ghost e1 = e0.push((x, mid));
            let ghost a0 = adj@;
            add_edge(adj, x, mid);
            proof {
                assert forall|w: int| 0 <= w < n implies (#[trigger] adj@[w])@ == out_edges(
                    e1,
                    w as usize,
                ) by {
                    lemma_out_edges_push(e0, (x, mid), w as usize);
                    if w != x {
                        assert(adj@[w] == a0[w]);
                    }
                }
            }
            let next = c[(i + 1) % len];
            let ghost e2 = e1.push((mid, next));
            let ghost a1 = adj@;
            add_edge(adj, mid, next);
            proof {
                assert forall|w: int| 0 <= w < n implies (#[trigger] adj@[w])@ == out_edges(
                    e2,
                    w as usize,
                ) by {
                    lemma_out_edges_push(e1, (mid, next), w as usize);
                    if w != mid {
                        assert(adj@[w] == a1[w]);
                    }
                }
                assert(e2 =~= e + ring_edges(c@, base as nat, (i + 1) as nat));
            }
            i = i + 1;
        }
    } else {
        assert(e + cycle_edges(c@, base as nat) =~= e);
    }
}

proof fn lemma_op_mid_count_bound(op: Seq<Seq<usize>>, c: int)
    requires
        0 <= c <= op.len(),
    ensures
        op_mid_count(op.take(c)) <= op_mid_count(op),
    decreases op.len() - c,
{
    if c < op.len() {
        lemma_op_edges_take(op, 0, c);
        lemma_op_mid_count_bound(op, c + 1);
    } else {
        assert(op.take(c) =~= op);
    }
}

/// Builds the input graph as adjacency lists and counts the midpoints.
fn sub_generate_input_graph(gen: &Vec<Vec<Vec<usize>>>, n_vertices: usize) -> (r: (
    Vec<Vec<usize>>,
    usize,
))
    requires
        elements_below(gen.deep_view(), n_vertices as nat),
        input_vertex_count(gen.deep_view(), n_vertices as nat) <= usize::MAX,
    ensures
        r.1 == gen_mid_count(gen.deep_view()),
        adjacency_of(
            r.0@,
            input_graph_edges(gen.deep_view(), n_vertices as nat),
            input_vertex_count(gen.deep_view(), n_vertices as nat),
        ),
{
    let ghost g = gen.deep_view();
    // Count the midpoints first.
    let mut n_mid: usize = 0;
    let mut gi: usize = 0;
    assert(g.take(0) =~= Seq::<Seq<Seq<usize>>>::empty());
    while gi < gen.len()
        invariant
            gi <= gen@.len(),
            g == gen.deep_view(),
            input_vertex_count(g, n_vertices as nat) <= usize::MAX,
            n_mid == gen_mid_count(g.take(gi as int)),
        decreases gen.len() - gi,
    {
        let op = &gen[gi];
        assert(g[gi as int] == op.deep_view());
        let mut ci: usize = 0;
        assert(op.deep_view().take(0) =~= Seq::<Seq<usize>>::empty());
        proof {
            lemma_gen_edges_take(g, 0, gi as int);
            lemma_gen_mid_count_mono(g, gi + 1);
        }
        while ci < op.len()
            invariant
                ci <= op@.len(),
                gi < gen@.len(),
                op == &gen@[gi as int],
                g == gen.deep_view(),
                g[gi as int] == op.deep_view(),
                gen_mid_count(g.take(gi as int)) + op_mid_count(g[gi as int]) <= gen_mid_count(g),
                input_vertex_count(g, n_vertices as nat) <= usize::MAX,
                n_mid == gen_mid_count(g.take(gi as int)) + op_mid_count(
                    op.deep_view().take(ci as int),
                ),
            decreases op.len() - ci,
        {
            let len = op[ci].len();
            proof {
                assert(op.deep_view()[ci as int] == op@[ci as int]@);
                lemma_op_edges_take(op.deep_view(), 0, ci as int);
                lemma_op_mid_count_bound(op.deep_view(), ci + 1);
            }
            if len == 2 {
                n_mid = n_mid + 1;
            } else if len >= 3 {
                n_mid = n_mid + len;
            }
            ci = ci + 1;
        }
        proof {
            assert(op.deep_view().take(op@.len() as int) =~= op.deep_view());
        }
        gi = gi + 1;
    }
    proof {
        assert(g.take(gen@.len() as int) =~= g);
    }
    let n_total = n_vertices + n_mid + gen.len();
    let mut adj: Vec<Vec<usize>> = Vec::new();
    while adj.len() < n_total
        invariant
            adj@.len() <= n_total,
            forall|w: int| 0 <= w < adj@.len() ==> (#[trigger] adj@[w])@ == Seq::<usize>::empty(),
        decreases n_total - adj.len(),
    {
        adj.push(Vec::new());
    }
    let ghost mut e: Seq<(usize, usize)> = Seq::empty();
    // Cycle edges, midpoints numbered in order.
    let mut next_mid: usize = n_vertices;
    let mut gi: usize = 0;
    while gi < gen.len()
        invariant
            gi <= gen@.len(),
            g == gen.deep_view(),
            n_total == input_vertex_count(g, n_vertices as nat),
            n_mid == gen_mid_count(g),
            elements_below(g, n_vertices as nat),
            next_mid == (n_vertices as nat) + gen_mid_count(g.take(gi as int)),
            e == gen_edges(g.take(gi as int), n_vertices as nat),
            adjacency_of(adj@, e, n_total as nat),
        decreases gen.len() - gi,
    {
        let op = &gen[gi];
        assert(g[gi as int] == op.deep_view());
        let ghost e_op = e;
        let mut ci: usize = 0;
        proof {
            assert(op.deep_view().take(0) =~= Seq::<Seq<usize>>::empty());
            assert(e + op_edges(op.deep_view().take(0), next_mid as nat) =~= e);
            lemma_gen_edges_take(g, n_vertices as nat, gi as int);
            lemma_gen_mid_count_mono(g, gi + 1);
        }
        while ci < op.len()
            invariant
                ci <= op@.len(),
                gi < gen@.len(),
                op == &gen@[gi as int],
                g == gen.deep_view(),
                g[gi as int] == op.deep_view(),
                n_total == input_vertex_count(g, n_vertices as nat),
                n_mid == gen_mid_count(g),
                elements_below(g, n_vertices as nat),
                gen_mid_count(g.take(gi as int)) + op_mid_count(g[gi as int]) <= gen_mid_count(g),
                e_op == gen_edges(g.take(gi as int), n_vertices as nat),
                next_mid == n_vertices + gen_mid_count(g.take(gi as int)) + op_mid_count(
                    op.deep_view().take(ci as int),
                ),
                e == e_op + op_edges(
                    op.deep_view().take(ci as int),
                    (n_vertices as nat) + gen_mid_count(g.take(gi as int)),
                ),
                adjacency_of(adj@, e, n_total as nat),
            decreases op.len() - ci,
        {
            let c = &op[ci];
            proof {
                assert(op.deep_view()[ci as int] == c@);
                lemma_op_edges_take(
                    op.deep_view(),
                    (n_vertices as nat) + gen_mid_count(g.take(gi as int)),
                    ci as int,
                );
                lemma_op_mid_count_bound(op.deep_view(), ci + 1);
                if c@.len() >= 2 {
                    assert forall|k: int| 0 <= k < c@.len() implies #[trigger] c@[k] < n_total by {
                        assert(g[gi as int][ci as int][k] == c@[k]);
                    }
                }
            }
            add_cycle_edges(&mut adj, c, next_mid, Ghost(e));
            proof {
                e = e + cycle_edges(c@, next_mid as nat);
                assert(e == e_op + op_edges(
                    op.deep_view().take(ci + 1),
                    (n_vertices as nat) + gen_mid_count(g.take(gi as int)),
                ));
            }
            next_mid = next_mid + cycle_mid_count_exec(c);
            ci = ci + 1;
        }
        proof {
            assert(op.deep_view().take(op@.len() as int) =~= op.deep_view());
        }
        gi = gi + 1;
    }
    proof {
        assert(g.take(gen@.len() as int) =~= g);
    }
    // Edges from each operation vertex to its midpoints.
    let ghost e_cycles = e;
    let mut first_mid: usize = n_vertices;
    let mut gi: usize = 0;
    assert(e_cycles + operation_vertex_edges(g, n_vertices as nat, 0) =~= e_cycles);
    while gi < gen.len()
        invariant
            gi <= gen@.len(),
            g == gen.deep_view(),
            n_total == input_vertex_count(g, n_vertices as nat),
            n_mid == gen_mid_count(g),
            first_mid == (n_vertices as nat) + gen_mid_count(g.take(gi as int)),
            e_cycles == gen_edges(g, n_vertices as nat),
            e == e_cycles + operation_vertex_edges(g, n_vertices as nat, gi as nat),
            adjacency_of(adj@, e, n_total as nat),
        decreases gen.len() - gi,
    {
        let op_vertex = n_vertices + n_mid + gi;
        proof {
            lemma_gen_edges_take(g, 0, gi as int);
            lemma_gen_mid_count_mono(g, gi + 1);
            assert(g[gi as int] == gen@[gi as int].deep_view());
        }
        let count = op_mid_count_exec(&gen[gi]);
        let ghost e_before = e;
        let mut j: usize = 0;
        while j < count
            invariant
                j <= count,
                gi < gen@.len(),
                count == op_mid_count(g[gi as int]),
                op_vertex == n_vertices + n_mid + gi,
                op_vertex < n_total,
                n_total == input_vertex_count(g, n_vertices as nat),
                first_mid + count <= n_vertices + n_mid,
                e == e_before + Seq::new(
                    j as nat,
                    |m: int| (op_vertex, (first_mid + m) as usize),
                ),
                adjacency_of(adj@, e, n_total as nat),
            decreases count - j,
        {
            let ghost e0 = e;
            let ghost a0 = adj@;
            add_edge(&mut adj, op_vertex, first_mid + j);
            proof {
                e = e.push((op_vertex, (first_mid + j) as usize));
                assert forall|w: int| 0 <= w < n_total implies (#[trigger] adj@[w])@ == out_edges(
                    e,
                    w as usize,
                ) by {
                    lemma_out_edges_push(e0, (op_vertex, (first_mid + j) as usize), w as usize);
                    if w != op_vertex {
                        assert(adj@[w] == a0[w]);
                    }
                }
                assert(e =~= e_before + Seq::new(
                    (j + 1) as nat,
                    |m: int| (op_vertex, (first_mid + m) as usize),
                ));
            }
            j = j + 1;
        }
        proof {
            assert(e =~= e_cycles + operation_vertex_edges(g, n_vertices as nat, (gi + 1) as nat));
        }
        first_mid = first_mid + count;
        gi = gi + 1;
    }
    (adj, n_mid)
}

fn cycle_mid_count_exec(c: &Vec<usize>) -> (r: usize)
    ensures
        r == cycle_mid_count(c@),
{
    let len = c.len();
    if len == 2 {
        1
    } else if len >= 3 {
        len
    } else {
        0
    }
}

fn op_mid_count_exec(op: &Vec<Vec<usize>>) -> (r: usize)
    requires
        op_mid_count(op.deep_view()) <= usize::MAX,
    ensures
        r == op_mid_count(op.deep_view()),
{
    let mut total: usize = 0;
    let mut ci: usize = 0;
    assert(op.deep_view().take(0) =~= Seq::<Seq<usize>>::empty());
    while ci < op.len()
        invariant
            ci <= op@.len(),
            op_mid_count(op.deep_view()) <= usize::MAX,
            total == op_mid_count(op.deep_view().take(ci as int)),
        decreases op.len() - ci,
    {
        proof {
            assert(op.deep_view()[ci as int] == op@[ci as int]@);
            lemma_op_edges_take(op.deep_view(), 0, ci as int);
            lemma_op_mid_count_bound(op.deep_view(), ci + 1);
        }
        total = total + cycle_mid_count_exec(&op[ci]);
        ci = ci + 1;
    }
    assert(op.deep_view().take(op@.len() as int) =~= op.deep_view());
    total
}

// ---------------------------------------------------------------------------
// Element bounds through renumbering, inversion and de-duplication
// ---------------------------------------------------------------------------

/// Every element of every cycle is below `n`.
pub open spec fn all_below(g: Seq<Seq<Seq<usize>>>, n: nat) -> bool {
    forall|i: int, j: int, k: int|
        0 <= i < g.len() && 0 <= j < g[i].len() && 0 <= k < g[i][j].len() ==> #[trigger] g[i][j][k]
            < n
}

/// The operations that are canonized: renumbered, with their inverses, and
/// without repeated permutations.
pub open spec fn bidirectional(g: Seq<Seq<Seq<usize>>>) -> Seq<Seq<Seq<usize>>> {
    without_repeats(with_inverses(renumbered(g)))
}

proof fn lemma_renumbered_below(g: Seq<Seq<Seq<usize>>>)
    ensures
        all_below(renumbered(g), labels_of(g).len()),
{
    lemma_first_occurrences(flatten_gen(g));
    assert forall|i: int, j: int, k: int|
        0 <= i < renumbered(g).len() && 0 <= j < renumbered(g)[i].len() && 0 <= k
            < renumbered(g)[i][j].len() implies #[trigger] renumbered(g)[i][j][k] < labels_of(
        g,
    ).len() by {
        lemma_vertex_in_flatten(g, i, j, k);
        let v = g[i][j][k];
        assert(labels_of(g).contains(v));
        let x = labels_of(g).index_of(v);
        assert(0 <= x < labels_of(g).len());
    }
}

proof fn lemma_with_inverses_below(g: Seq<Seq<Seq<usize>>>, n: nat)
    requires
        all_below(g, n),
    ensures
        all_below(with_inverses(g), n),
{
    let h = with_inverses(g);
    assert forall|i: int, j: int, k: int|
        0 <= i < h.len() && 0 <= j < h[i].len() && 0 <= k < h[i][j].len() implies #[trigger] h[i][j][k]
            < n by {
        if i < g.len() {
            assert(h[i] == g[i]);
        } else {
            let c = g[i - g.len()][j];
            assert(h[i][j] == c.reverse());
            assert(h[i][j][k] == c[c.len() - 1 - k]);
        }
    }
}

proof fn lemma_without_repeats_members(g: Seq<Seq<Seq<usize>>>)
    ensures
        forall|j: int|
            0 <= j < without_repeats(g).len() ==> exists|i: int|
                0 <= i < g.len() && #[trigger] without_repeats(g)[j] == g[i],
    decreases g.len(),
{
    if g.len() > 0 {
        lemma_without_repeats_members(g.drop_last());
        let r = without_repeats(g.drop_last());
        assert forall|j: int| 0 <= j < without_repeats(g).len() implies exists|i: int|
            0 <= i < g.len() && #[trigger] without_repeats(g)[j] == g[i] by {
            if j < r.len() {
                assert(without_repeats(g)[j] == r[j]);
                let i = choose|i: int| 0 <= i < g.drop_last().len() && r[j] == g.drop_last()[i];
                assert(g[i] == g.drop_last()[i]);
            } else {
                assert(without_repeats(g)[j] == g[g.len() - 1]);
            }
        }
    }
}

proof fn lemma_bidirectional_below(g: Seq<Seq<Seq<usize>>>)
    ensures
        elements_below(bidirectional(g), labels_of(g).len()),
{
    let n = labels_of(g).len();
    lemma_renumbered_below(g);
    lemma_with_inverses_below(renumbered(g), n);
    let h = with_inverses(renumbered(g));
    lemma_without_repeats_members(h);
    let b = bidirectional(g);
    assert forall|i: int, j: int, k: int|
        0 <= i < b.len() && 0 <= j < b[i].len() && 2 <= b[i][j].len() && 0 <= k < b[i][j].len()
            implies #[trigger] b[i][j][k] < n by {
        let m = choose|m: int| 0 <= m < h.len() && #[trigger] b[i] == h[m];
        assert(h[m][j][k] < n);
    }
}

// ---------------------------------------------------------------------------
// The canonization script
// ---------------------------------------------------------------------------

/// One adjacency line of the input graph.
pub open spec fn canon_line(e: Seq<(usize, usize)>, n: nat, v: nat) -> Seq<char> {
    dec(v) + seq![':'] + spaced_numbers(out_edges(e, v as usize)) + if v + 1 == n {
        seq!['.', '\n']
    } else {
        seq![';', '\n']
    }
}

pub open spec fn canon_lines(e: Seq<(usize, usize)>, n: nat, k: nat) -> Seq<char>
    decreases k,
{
    if k == 0 {
        Seq::empty()
    } else {
        canon_lines(e, n, (k - 1) as nat) + canon_line(e, n, (k - 1) as nat)
    }
}

/// The dreadnaut script that canonizes the input graph of the operations `g`
/// on `nv` pieces and prints `LABEL:` before the canonical labelling.
pub open spec fn canonize_script(g: Seq<Seq<Seq<usize>>>, nv: nat) -> Seq<char> {
    let e = input_graph_edges(g, nv);
    let n = input_vertex_count(g, nv);
    "l=0\n"@ + "m\n"@ + "As\n"@ + "d\n"@ + "n="@ + dec(n) + " g\n"@ + canon_lines(e, n, n)
        + "c\n"@ + "-a\n"@ + "x\n"@ + "\"LABEL:\n\"\n"@ + "b\n"@
}

/// Orbit canonization using dreadnaut (see the module documentation).
#[derive(Debug)]
pub struct OrbitCanonizer {
    // Inputs
    generator_original: Vec<Vec<Vec<usize>>>,
    // Script generation
    generator_renumbered_bidirectional: Vec<Vec<Vec<usize>>>,
    n_vertices: usize,
    // Result processing
    canonical_labels: Vec<usize>,
    canonical_graph: HashMap<usize, Vec<usize>>,
}

impl OrbitCanonizer {
    /// The generator the canonizer was made for.
    pub closed spec fn generator(&self) -> Seq<Seq<Seq<usize>>> {
        self.generator_original.deep_view()
    }

    /// The operations of the last generated script.
    pub closed spec fn script_operations(&self) -> Seq<Seq<Seq<usize>>> {
        self.generator_renumbered_bidirectional.deep_view()
    }

    /// The number of pieces of the last generated script.
    pub closed spec fn vertex_count(&self) -> nat {
        self.n_vertices as nat
    }

    /// The canonical labelling read from dreadnaut's output.
    pub closed spec fn labels(&self) -> Seq<usize> {
        self.canonical_labels@
    }

    /// The canonical graph read from dreadnaut's output.
    pub closed spec fn graph(&self) -> Map<usize, Seq<usize>> {
        self.canonical_graph@.map_values(|v: Vec<usize>| v@)
    }

    pub fn new(generator: &[Vec<Vec<usize>>]) -> (r: Self)
        ensures
            r.generator() == generator.deep_view(),
            r.script_operations() == Seq::<Seq<Seq<usize>>>::empty(),
            r.vertex_count() == 0,
            r.labels() == Seq::<usize>::empty(),
            r.graph() == Map::<usize, Seq<usize>>::empty(),
    {
        let r = OrbitCanonizer {
            generator_original: copy_generator(generator),
            generator_renumbered_bidirectional: Vec::new(),
            n_vertices: 0,
            canonical_labels: Vec::new(),
            canonical_graph: HashMap::new(),
        };
        proof {
            assert(r.generator_renumbered_bidirectional.deep_view() =~= Seq::<
                Seq<Seq<usize>>,
            >::empty());
            assert(r.graph() =~= Map::<usize, Seq<usize>>::empty());
        }
        r
    }

    /// Generate the script to send to dreadnaut.
    pub fn generate_script(&mut self) -> (r: Result<String, String>)
        requires
            input_vertex_count(
                bidirectional(old(self).generator()),
                labels_of(old(self).generator()).len(),
            ) <= usize::MAX,
        ensures
            final(self).generator() == old(self).generator(),
            final(self).script_operations() == bidirectional(old(self).generator()),
            final(self).vertex_count() == labels_of(old(self).generator()).len(),
            final(self).labels() == old(self).labels(),
            final(self).graph() == old(self).graph(),
            r matches Ok(s) && s@ == canonize_script(
                bidirectional(old(self).generator()),
                labels_of(old(self).generator()).len(),
            ),
    {
        let (generator_renumbered, n_vertices) = renumber_generator_for_dreadnaut(
            self.generator_original.as_slice(),
        );
        let with_inverses = add_inverse_operations(&generator_renumbered);
        self.generator_renumbered_bidirectional = remove_isomorphic_operations(&with_inverses);
        self.n_vertices = n_vertices;
        let ghost gb = self.generator_renumbered_bidirectional.deep_view();
        proof {
            lemma_bidirectional_below(self.generator_original.deep_view());
        }
        let (adj, n_midpoints) = sub_generate_input_graph(
            &self.generator_renumbered_bidirectional,
            self.n_vertices,
        );
        let n_generators = self.generator_renumbered_bidirectional.len();
        let n_total = n_midpoints + self.n_vertices + n_generators;
        let ghost e = input_graph_edges(gb, n_vertices as nat);
        let mut script = String::new();
        script.append("l=0\n");
        script.append("m\n");
        script.append("As\n");
        script.append("d\n");
        script.append("n=");
        push_decimal(&mut script, n_total);
        script.append(" g\n");
        let ghost head = script@;
        let mut v: usize = 0;
        while v < n_total
            invariant
                v <= n_total,
                n_total == input_vertex_count(gb, n_vertices as nat),
                adjacency_of(adj@, e, n_total as nat),
                script@ == head + canon_lines(e, n_total as nat, v as nat),
            decreases n_total - v,
        {
            push_decimal(&mut script, v);
            push_char(&mut script, ':');
            push_spaced(&mut script, &adj[v]);
            if v == n_total - 1 {
                push_char(&mut script, '.');
            } else {
                push_char(&mut script, ';');
            }
            push_char(&mut script, '\n');
            v = v + 1;
            assert(script@ =~= head + canon_lines(e, n_total as nat, v as nat));
        }
        script.append("c\n");
        script.append("-a\n");
        script.append("x\n");
        script.append("\"LABEL:\n\"\n");
        script.append("b\n");
        Ok(script)
    }
}

// ---------------------------------------------------------------------------
// Reading dreadnaut's output
// ---------------------------------------------------------------------------

/// `s` with every trailing `;` removed (`trim_end_matches(';')`).
pub open spec fn strip_semis(s: Seq<char>) -> Seq<char>
    decreases s.len(),
{
    if s.len() > 0 && s.last() == ';' {
        strip_semis(s.drop_last())
    } else {
        s
    }
}

/// The words that are numbers, in order; other words are skipped.
pub open spec fn numbers_in(ws: Seq<Seq<char>>) -> Seq<usize>
    decreases ws.len(),
{
    if ws.len() == 0 {
        Seq::empty()
    } else {
        let r = numbers_in(ws.drop_last());
        match parse_usize_spec(ws.last()) {
            Some(x) => r.push(x),
            None => r,
        }
    }
}

/// The position of the first `:` of a line that holds one.
pub open spec fn first_colon(line: Seq<char>) -> int {
    choose|p: int| is_first_match(line, seq![':'], p)
}

/// What has been read after the `LABEL:` marker: whether the labelling was
/// found, the labelling, and the adjacency lines of the canonical graph.
pub open spec fn read_output_lines(lines: Seq<Seq<char>>) -> (bool, Seq<usize>, Map<
    usize,
    Seq<usize>,
>)
    decreases lines.len(),
{
    if lines.len() == 0 {
        (false, Seq::empty(), Map::empty())
    } else {
        let st = read_output_lines(lines.drop_last());
        let line = trim(lines.last());
        if line.len() == 0 {
            st
        } else if !st.0 {
            // Before the labelling: the first line without a colon that
            // holds a number is the labelling.
            if has_match(line, seq![':']) {
                st
            } else {
                let nums = numbers_in(words(line));
                if nums.len() > 0 {
                    (true, nums, st.2)
                } else {
                    st
                }
            }
        } else if has_match(line, seq![':']) {
            // After it: `vertex: neighbours;` lines.
            let p = first_colon(line);
            match parse_usize_spec(trim(line.take(p))) {
                Some(v) => (
                    st.0,
                    st.1,
                    st.2.insert(v, numbers_in(words(strip_semis(trim(line.skip(p + 1)))))),
                ),
                None => st,
            }
        } else {
            st
        }
    }
}

pub open spec fn label_marker() -> Seq<char> {
    seq!['L', 'A', 'B', 'E', 'L', ':']
}

/// The lines of dreadnaut's output after the first `LABEL:` marker.
pub open spec fn output_lines(s: Seq<char>) -> Seq<Seq<char>> {
    let p = choose|p: int| is_first_match(s, label_marker(), p);
    split_seq(s.skip(p + 6), seq!['\n'])
}

/// The numbers among the words of `s[lo..hi]`.
fn numbers_in_range(s: &[char], lo: usize, hi: usize) -> (r: Vec<usize>)
    requires
        lo <= hi <= s@.len(),
    ensures
        r@ == numbers_in(words(s@.subrange(lo as int, hi as int))),
{
    let ws = word_ranges(s, lo, hi);
    let ghost w = words(s@.subrange(lo as int, hi as int));
    let mut r: Vec<usize> = Vec::new();
    let mut k: usize = 0;
    assert(w.take(0) =~= Seq::<Seq<char>>::empty());
    while k < ws.len()
        invariant
            k <= ws@.len(),
            lo <= hi <= s@.len(),
            ranges_within(ws@, lo as int, hi as int),
            pieces(s@, ws@) == w,
            r@ == numbers_in(w.take(k as int)),
        decreases ws.len() - k,
    {
        let (a, b) = ws[k];
        assert(a <= b <= hi) by {
            assert(ws@[k as int] == (a, b));
        }
        proof {
            assert(w[k as int] == s@.subrange(a as int, b as int));
            assert(w.take(k + 1).drop_last() =~= w.take(k as int));
            assert(w.take(k + 1).last() == w[k as int]);
        }
        match parse_usize(s, a, b) {
            Some(x) => {
                r.push(x);
            },
            None => {},
        }
        k = k + 1;
    }
    assert(w.take(ws@.len() as int) =~= w);
    r
}

proof fn lemma_first_colon(line: Seq<char>, p: int)
    requires
        is_first_match(line, seq![':'], p),
    ensures
        first_colon(line) == p,
{
    let q = first_colon(line);
    assert(is_first_match(line, seq![':'], q));
    if q < p {
        assert(!crate::text::starts_with(line.skip(q), seq![':']));
    } else if q > p {
        assert(!crate::text::starts_with(line.skip(p), seq![':']));
    }
}

pub proof fn lemma_first_match_unique(s: Seq<char>, pat: Seq<char>, p: int, q: int)
    requires
        is_first_match(s, pat, p),
        is_first_match(s, pat, q),
    ensures
        p == q,
{
    lemma_first_marker(s, pat, p, q);
}

proof fn lemma_first_marker(s: Seq<char>, pat: Seq<char>, p: int, q: int)
    requires
        is_first_match(s, pat, p),
        is_first_match(s, pat, q),
    ensures
        p == q,
{
    if q < p {
        assert(!crate::text::starts_with(s.skip(q), pat));
    } else if q > p {
        assert(!crate::text::starts_with(s.skip(p), pat));
    }
}

impl OrbitCanonizer {
    /// Parse dreadnaut output: after the first `LABEL:` marker, the first line
    /// of numbers without a colon is the canonical labelling, and the
    /// `vertex: neighbours;` lines after it are the canonical graph.
    pub fn process_script_result(&mut self, s: &str) -> (r: Result<(), String>)
        ensures
            final(self).generator() == old(self).generator(),
            final(self).script_operations() == old(self).script_operations(),
            final(self).vertex_count() == old(self).vertex_count(),
            !has_match(s@, label_marker()) ==> (r matches Err(e) && e@
                == "LABEL: not found in output"@),
            has_match(s@, label_marker()) && !read_output_lines(output_lines(s@)).0 ==> (r matches Err(
                e,
            ) && e@ == "could not parse canonical label"@),
            r is Err ==> final(self).labels() == old(self).labels() && final(self).graph() == old(self).graph(),
            has_match(s@, label_marker()) && read_output_lines(output_lines(s@)).0 ==> r is Ok
                && final(self).labels() == read_output_lines(output_lines(s@)).1
                && final(self).graph() == read_output_lines(output_lines(s@)).2,
    {
        let cs = chars_of(s);
        let n = cs.len();
        let marker = vec!['L', 'A', 'B', 'E', 'L', ':'];
        assert(marker@ =~= label_marker());
        assert(cs@.subrange(0, n as int) =~= cs@);
        let p = match find_pattern(cs.as_slice(), 0, n, marker.as_slice()) {
            None => {
                return Err(String::from_str("LABEL: not found in output"));
            },
            Some(p) => p,
        };
        proof {
            let q = choose|q: int| is_first_match(s@, label_marker(), q);
            lemma_first_marker(s@, label_marker(), p as int, q);
            assert(s@.skip(p as int) =~= s@.subrange(p as int, n as int));
        }
        let after = p + 6;
        let newline = vec!['\n'];
        assert(newline@ =~= seq!['\n']);
        let lines = split_ranges(cs.as_slice(), after, n, newline.as_slice());
        let ghost ls = output_lines(s@);
        assert(cs@.subrange(after as int, n as int) =~= s@.skip(p + 6));
        let mut found = false;
        let mut label: Vec<usize> = Vec::new();
        let mut edges: HashMap<usize, Vec<usize>> = HashMap::new();
        let mut k: usize = 0;
        proof {
            assert(ls.take(0) =~= Seq::<Seq<char>>::empty());
            assert(edges@.map_values(|v: Vec<usize>| v@) =~= Map::<usize, Seq<usize>>::empty());
        }
        while k < lines.len()
            invariant
                k <= lines@.len(),
                cs@ == s@,
                after <= n == cs@.len(),
                ranges_within(lines@, after as int, n as int),
                pieces(cs@, lines@) == ls,
                read_output_lines(ls.take(k as int)) == (
                    found,
                    label@,
                    edges@.map_values(|v: Vec<usize>| v@),
                ),
            decreases lines.len() - k,
        {
            let (a0, b0) = lines[k];
            assert(a0 <= b0 <= n) by {
                assert(lines@[k as int] == (a0, b0));
            }
            let ghost line_raw = ls[k as int];
            proof {
                assert(line_raw == cs@.subrange(a0 as int, b0 as int));
                assert(ls.take(k + 1).drop_last() =~= ls.take(k as int));
                assert(ls.take(k + 1).last() == line_raw);
            }
            let (a, b) = trim_bounds(cs.as_slice(), a0, b0);
            let ghost line = cs@.subrange(a as int, b as int);
            let colon = vec![':'];
            assert(colon@ =~= seq![':']);
            if a < b {
                let cp = find_pattern(cs.as_slice(), a, b, colon.as_slice());
                assert(cs@.subrange(a as int, b as int) == line);
                if !found {
                    if cp.is_none() {
                        let nums = numbers_in_range(cs.as_slice(), a, b);
                        if nums.len() > 0 {
                            label = nums;
                            found = true;
                        }
                    }
                } else {
                    match cp {
                        Some(c) => {
                            let colon_at = a + c;
                            proof {
                                lemma_first_colon(line, c as int);
                                assert(line.take(c as int) =~= cs@.subrange(
                                    a as int,
                                    colon_at as int,
                                ));
                                assert(line.skip(c + 1) =~= cs@.subrange(colon_at + 1, b as int));
                            }
                            let (la, lb) = trim_bounds(cs.as_slice(), a, colon_at);
                            let (ra, rb0) = trim_bounds(cs.as_slice(), colon_at + 1, b);
                            let mut rb = rb0;
                            while rb > ra && cs[rb - 1] == ';'
                                invariant
                                    ra <= rb <= rb0 <= cs@.len(),
                                    strip_semis(cs@.subrange(ra as int, rb0 as int)) == strip_semis(
                                        cs@.subrange(ra as int, rb as int),
                                    ),
                                decreases rb - ra,
                            {
                                proof {
                                    assert(cs@.subrange(ra as int, rb as int).drop_last()
                                        =~= cs@.subrange(ra as int, rb - 1));
                                }
                                rb = rb - 1;
                            }
                            proof {
                                let t = cs@.subrange(ra as int, rb as int);
                                if t.len() > 0 {
                                    assert(t.last() == cs@[rb - 1]);
                                }
                                assert(strip_semis(t) == t);
                            }
                            match parse_usize(cs.as_slice(), la, lb) {
                                Some(v) => {
                                    let neighbors = numbers_in_range(cs.as_slice(), ra, rb);
                                    let ghost before = edges@;
                                    edges.insert(v, neighbors);
                                    proof {
                                        assert(edges@ == before.insert(v, neighbors));
                                        assert(edges@.map_values(|w: Vec<usize>| w@) =~= before.map_values(
                                            |w: Vec<usize>| w@,
                                        ).insert(v, neighbors@));
                                    }
                                },
                                None => {},
                            }
                        },
                        None => {},
                    }
                }
            }
            k = k + 1;
        }
        proof {
            assert(ls.take(lines@.len() as int) =~= ls);
        }
        if label.len() == 0 {
            proof {
                assert(!found) by {
                    if found {
                        lemma_read_label_nonempty(ls);
                    }
                }
            }
            return Err(String::from_str("could not parse canonical label"));
        }
        proof {
            if !found {
                lemma_read_label_nonempty(ls);
            }
        }
        self.canonical_labels = label;
        self.canonical_graph = edges;
        Ok(())
    }
}

proof fn lemma_read_label_nonempty(lines: Seq<Seq<char>>)
    ensures
        read_output_lines(lines).0 <==> read_output_lines(lines).1.len() > 0,
    decreases lines.len(),
{
    if lines.len() > 0 {
        lemma_read_label_nonempty(lines.drop_last());
    }
}

// ---------------------------------------------------------------------------
// The canonical graph as text, and its hash
// ---------------------------------------------------------------------------

pub open spec fn strictly_increasing(s: Seq<usize>) -> bool {
    forall|i: int, j: int| 0 <= i < j < s.len() ==> s[i] < s[j]
}

/// The elements of a finite set of numbers in ascending order.
pub open spec fn ascending(d: Set<usize>) -> Seq<usize> {
    choose|s: Seq<usize>| strictly_increasing(s) && s.to_set() == d
}

/// `a b c`: the numbers separated by single spaces.
pub open spec fn joined_numbers(s: Seq<usize>) -> Seq<char>
    decreases s.len(),
{
    if s.len() == 0 {
        Seq::empty()
    } else if s.len() == 1 {
        dec(s[0] as nat)
    } else {
        joined_numbers(s.drop_last()) + seq![' '] + dec(s.last() as nat)
    }
}

/// `k:a b c` and a newline, the neighbours in ascending order.
pub open spec fn graph_line(k: usize, ns: Seq<usize>) -> Seq<char> {
    dec(k as nat) + seq![':'] + joined_numbers(sorted(ns)) + seq!['\n']
}

pub open spec fn graph_lines(ks: Seq<usize>, m: Map<usize, Seq<usize>>) -> Seq<char>
    decreases ks.len(),
{
    if ks.len() == 0 {
        Seq::empty()
    } else {
        graph_lines(ks.drop_last(), m) + graph_line(ks.last(), m[ks.last()])
    }
}

/// The canonical graph as text: one line per vertex, vertices and their
/// neighbours in ascending order.
pub open spec fn graph_text(m: Map<usize, Seq<usize>>) -> Seq<char> {
    graph_lines(ascending(m.dom()), m)
}

/// Two ascending sequences with the same elements are equal.
pub proof fn lemma_strictly_increasing_unique(a: Seq<usize>, b: Seq<usize>)
    requires
        strictly_increasing(a),
        strictly_increasing(b),
        a.to_set() == b.to_set(),
    ensures
        a == b,
    decreases a.len(),
{
    if a.len() == 0 {
        if b.len() > 0 {
            assert(b.to_set().contains(b[0]));
        }
        assert(a =~= b);
    } else {
        assert(a.to_set().contains(a[0]));
        assert(b.to_set().contains(a[0]));
        let j = choose|j: int| 0 <= j < b.len() && b[j] == a[0];
        assert(b.to_set().contains(b[0]));
        let i = choose|i: int| 0 <= i < a.len() && a[i] == b[0];
        if j > 0 {
            assert(b[0] < b[j]);
            assert(a[0] <= a[i]);
        }
        assert(a[0] == b[0]);
        let a1 = a.drop_first();
        let b1 = b.drop_first();
        assert forall|x: usize| a1.to_set().contains(x) <==> b1.to_set().contains(x) by {
            if a1.to_set().contains(x) {
                let k = choose|k: int| 0 <= k < a1.len() && a1[k] == x;
                assert(a[k + 1] == x);
                assert(a.to_set().contains(x));
                let m = choose|m: int| 0 <= m < b.len() && b[m] == x;
                assert(a[0] < a[k + 1]);
                if m == 0 {
                    assert(false);
                }
                assert(b1[m - 1] == x);
            }
            if b1.to_set().contains(x) {
                let k = choose|k: int| 0 <= k < b1.len() && b1[k] == x;
                assert(b[k + 1] == x);
                assert(b.to_set().contains(x));
                let m = choose|m: int| 0 <= m < a.len() && a[m] == x;
                assert(b[0] < b[k + 1]);
                if m == 0 {
                    assert(false);
                }
                assert(a1[m - 1] == x);
            }
        }
        assert(a1.to_set() =~= b1.to_set());
        lemma_strictly_increasing_unique(a1, b1);
        assert(a =~= seq![a[0]] + a1);
        assert(b =~= seq![b[0]] + b1);
    }
}

/// Appends `a b c`.
fn push_joined(s: &mut String, v: &Vec<usize>)
    ensures
        final(s)@ == old(s)@ + joined_numbers(v@),
{
    let mut i: usize = 0;
    assert(old(s)@ + joined_numbers(v@.take(0)) =~= old(s)@);
    while i < v.len()
        invariant
            i <= v@.len(),
            s@ == old(s)@ + joined_numbers(v@.take(i as int)),
        decreases v.len() - i,
    {
        if i > 0 {
            push_char(s, ' ');
        }
        push_decimal(s, v[i]);
        proof {
            assert(v@.take(i + 1).drop_last() =~= v@.take(i as int));
            if i == 0 {
                assert(v@.take(1)[0] == v@[0]);
            }
        }
        i = i + 1;
        assert(s@ =~= old(s)@ + joined_numbers(v@.take(i as int)));
    }
    assert(v@.take(v@.len() as int) =~= v@);
}

/// The hash text: `[code h0 h1 h2]`, each `h` the eight lowercase hex digits
/// of four bytes of the digest (`{:08x}` of a big-endian `u32`).
pub open spec fn hex_digit(d: nat) -> char {
    if d < 10 {
        ((d as int) + ('0' as int)) as char
    } else {
        ((d as int) - 10 + ('a' as int)) as char
    }
}

pub open spec fn hex_byte(b: u8) -> Seq<char> {
    seq![hex_digit((b / 16) as nat), hex_digit((b % 16) as nat)]
}

pub open spec fn hex_word(h: Seq<u8>, i: int) -> Seq<char> {
    hex_byte(h[i]) + hex_byte(h[i + 1]) + hex_byte(h[i + 2]) + hex_byte(h[i + 3])
}

pub open spec fn hash_text(code: Seq<char>, h: Seq<u8>) -> Seq<char> {
    seq!['['] + code + seq![' '] + hex_word(h, 0) + seq![' '] + hex_word(h, 4) + seq![' ']
        + hex_word(h, 8) + seq![']']
}

/// What BLAKE3 (`blake3::hash`) computes of the bytes.
pub uninterp spec fn blake3_digest(input: Seq<u8>) -> Seq<u8>;

/// Calls `blake3::hash` and returns the 32 bytes of the digest.
/// Claimed: the result is the digest of exactly the given bytes, and it has
/// 32 bytes (`blake3::OUT_LEN`); what the digest is, is not stated.
#[verifier::external_body]
fn blake3_hash(input: &[u8]) -> (out: Vec<u8>)
    ensures
        out@ == blake3_digest(input@),
        out@.len() == 32,
{
    blake3::hash(input).as_bytes().to_vec()
}

fn push_hex_byte(s: &mut String, b: u8)
    ensures
        final(s)@ == old(s)@ + hex_byte(b),
{
    let hi = b / 16;
    let lo = b % 16;
    let c1 = if hi < 10 { (hi + 48u8) as char } else { (hi - 10 + 97u8) as char };
    let c2 = if lo < 10 { (lo + 48u8) as char } else { (lo - 10 + 97u8) as char };
    push_char(s, c1);
    push_char(s, c2);
    assert(final(s)@ =~= old(s)@ + hex_byte(b));
}

fn push_hex_word(s: &mut String, h: &Vec<u8>, i: usize)
    requires
        i + 4 <= h@.len(),
        h@.len() == 32,
    ensures
        final(s)@ == old(s)@ + hex_word(h@, i as int),
{
    push_hex_byte(s, h[i]);
    push_hex_byte(s, h[i + 1]);
    push_hex_byte(s, h[i + 2]);
    push_hex_byte(s, h[i + 3]);
    assert(final(s)@ =~= old(s)@ + hex_word(h@, i as int));
}

/// Produces a deterministic hash of the canonically labelled graph:
/// `[(format_code) (8 hex) (8 hex) (8 hex)]`.
fn create_hash(format_code: &str, input: &str) -> (r: String)
    ensures
        r@ == hash_text(format_code@, blake3_digest(vstd::utf8::encode_utf8(input@))),
{
    let h = blake3_hash(input.as_bytes());
    let mut s = String::new();
    push_char(&mut s, '[');
    s.append(format_code);
    push_char(&mut s, ' ');
    push_hex_word(&mut s, &h, 0);
    push_char(&mut s, ' ');
    push_hex_word(&mut s, &h, 4);
    push_char(&mut s, ' ');
    push_hex_word(&mut s, &h, 8);
    push_char(&mut s, ']');
    assert(s@ =~= hash_text(format_code@, blake3_digest(vstd::utf8::encode_utf8(input@))));
    s
}

impl OrbitCanonizer {
    pub fn get_relabeling(&self) -> (r: Vec<usize>)
        ensures
            r@ == self.labels(),
    {
        let mut r: Vec<usize> = Vec::new();
        let mut i: usize = 0;
        while i < self.canonical_labels.len()
            invariant
                i <= self.canonical_labels@.len(),
                r@ == self.canonical_labels@.take(i as int),
            decreases self.canonical_labels.len() - i,
        {
            r.push(self.canonical_labels[i]);
            i = i + 1;
            assert(r@ =~= self.canonical_labels@.take(i as int));
        }
        assert(self.canonical_labels@.take(self.canonical_labels@.len() as int)
            =~= self.canonical_labels@);
        r
    }

    pub fn get_canonical_graph(&self) -> (r: HashMap<usize, Vec<usize>>)
        ensures
            r@.map_values(|v: Vec<usize>| v@) == self.graph(),
    {
        self.canonical_graph.clone()
    }

    /// The canonical graph as text: a `vertex:neighbours` line per vertex,
    /// vertices and neighbours in ascending order.
    pub fn get_canonical_graph_as_string(&self) -> (r: String)
        ensures
            r@ == graph_text(self.graph()),
    {
        let ghost m = self.graph();
        let mut keys: Vec<usize> = Vec::new();
        let ghost dom = self.canonical_graph@.dom();
        for k in it: self.canonical_graph.keys()
            invariant
                dom == self.canonical_graph@.dom(),
                keys@ == it.seq().take(it.index() as int).unref(),
                it.seq().unref().to_set() == dom,
                it.seq().unref().no_duplicates(),
                it.seq().len() == dom.len(),
                keys@.len() == it.index(),
                keys@.no_duplicates(),
                forall|x: usize| keys@.contains(x) ==> dom.contains(x),
        {
            proof {
                let u = it.seq().unref();
                assert(u[it.index()] == *k);
                assert(u.to_set().contains(*k));
                assert forall|x: usize| keys@.push(*k).contains(x) implies dom.contains(x) by {
                    let j = choose|j: int| 0 <= j < keys@.push(*k).len() && keys@.push(*k)[j] == x;
                    if j < keys@.len() {
                        assert(keys@[j] == u[j]);
                    }
                    assert(u[j] == x);
                    assert(u.to_set().contains(x));
                }
                assert forall|a: int, b: int|
                    0 <= a < keys@.len() + 1 && 0 <= b < keys@.len() + 1 && a != b implies keys@.push(
                    *k,
                )[a] != keys@.push(*k)[b] by {
                    assert(keys@.push(*k)[a] == u[a]);
                    assert(keys@.push(*k)[b] == u[b]);
                }
            }
            keys.push(*k);
            assert(keys@ =~= it.seq().take(it.index() + 1).unref());
        }
        proof {
            keys@.unique_seq_to_set();
            assert(keys@.to_set().subset_of(dom));
            vstd::set_lib::lemma_subset_equality(keys@.to_set(), dom);
        }
        let ks = sort_usizes(&keys);
        proof {
            keys@.lemma_sort_by_ensures(usize_leq());
            crate::sorting::lemma_usize_leq_total();
            assert(ks@.to_multiset() == keys@.to_multiset());
            assert(strictly_increasing(ks@)) by {
                assert forall|a: int, b: int| 0 <= a < b < ks@.len() implies ks@[a] < ks@[b] by {
                    assert(usize_leq()(ks@[a], ks@[b]));
                    if ks@[a] == ks@[b] {
                        crate::sorting::lemma_sorted_no_dup(keys@, ks@, a, b);
                    }
                }
            }
            assert(ks@.to_set() =~= dom) by {
                crate::sorting::lemma_same_multiset_same_set(keys@, ks@);
            }
            let asc = ascending(dom);
            assert(strictly_increasing(asc) && asc.to_set() == dom);
            lemma_strictly_increasing_unique(ks@, asc);
            assert(m.dom() =~= dom);
        }
        let mut s = String::new();
        let mut i: usize = 0;
        while i < ks.len()
            invariant
                i <= ks@.len(),
                ks@ == ascending(m.dom()),
                ks@.to_set() == self.canonical_graph@.dom(),
                m == self.graph(),
                s@ == graph_lines(ks@.take(i as int), m),
            decreases ks.len() - i,
        {
            let k = ks[i];
            proof {
                assert(ks@.to_set().contains(k));
                assert(self.canonical_graph@.dom().contains(k));
            }
            let ns = self.canonical_graph.get(&k).unwrap();
            let sorted_ns = sort_usizes(ns);
            push_decimal(&mut s, k);
            push_char(&mut s, ':');
            push_joined(&mut s, &sorted_ns);
            push_char(&mut s, '\n');
            proof {
                assert(ks@.take(i + 1).drop_last() =~= ks@.take(i as int));
                assert(m[k] == ns@);
            }
            i = i + 1;
            assert(s@ =~= graph_lines(ks@.take(i as int), m));
        }
        assert(ks@.take(ks@.len() as int) =~= ks@);
        s
    }

    /// The hash of the canonical graph's text, as `[o1 h0 h1 h2]`.
    pub fn get_hash(&self) -> (r: String)
        ensures
            r@ == hash_text("o1"@, blake3_digest(vstd::utf8::encode_utf8(graph_text(self.graph())))),
    {
        let text = self.get_canonical_graph_as_string();
        create_hash("o1", text.as_str())
    }
}

/// Appends ` a b c` for the values of `v`.
fn push_spaced(s: &mut String, v: &Vec<usize>)
    ensures
        final(s)@ == old(s)@ + spaced_numbers(v@),
{
    let mut i: usize = 0;
    assert(old(s)@ + spaced_numbers(v@.take(0)) =~= old(s)@);
    while i < v.len()
        invariant
            i <= v@.len(),
            s@ == old(s)@ + spaced_numbers(v@.take(i as int)),
        decreases v.len() - i,
    {
        push_char(s, ' ');
        push_decimal(s, v[i]);
        proof {
            assert(v@.take(i + 1).drop_last() =~= v@.take(i as int));
        }
        i = i + 1;
        assert(s@ =~= old(s)@ + spaced_numbers(v@.take(i as int)));
    }
    assert(v@.take(v@.len() as int) =~= v@);
}

} // verus!
